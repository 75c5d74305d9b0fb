use vstd::prelude::*;

verus! {

/// The sum of `s[a..b)` as a mathematical integer.
pub open spec fn range_sum(s: Seq<i32>, a: int, b: int) -> int
    decreases b - a,
{
    if a >= b {
        0
    } else {
        s[a] + range_sum(s, a + 1, b)
    }
}

/// Extending a range by one element on the right adds that element.
proof fn lemma_range_sum_snoc(s: Seq<i32>, a: int, b: int)
    requires
        0 <= a <= b < s.len(),
    ensures
        range_sum(s, a, b + 1) == range_sum(s, a, b) + s[b],
    decreases b - a,
{
    if a < b {
        lemma_range_sum_snoc(s, a + 1, b);
        assert(range_sum(s, a, b + 1) == s[a] + range_sum(s, a + 1, b + 1));
        assert(range_sum(s, a, b) == s[a] + range_sum(s, a + 1, b));
    } else {
        assert(range_sum(s, b, b + 1) == s[b] + range_sum(s, b + 1, b + 1));
    }
}

/// `m` is the largest sum over the nonempty contiguous ranges of `s[..k]`
/// that end at `k`.
pub open spec fn is_max_ending(s: Seq<i32>, k: int, m: int) -> bool {
    &&& forall|a: int| 0 <= a < k ==> range_sum(s, a, k) <= m
    &&& exists|a: int| 0 <= a < k && range_sum(s, a, k) == m
}

/// `m` is the largest sum over all nonempty contiguous ranges of `s[..k]`.
pub open spec fn is_max_overall(s: Seq<i32>, k: int, m: int) -> bool {
    &&& forall|a: int, b: int| 0 <= a < b <= k ==> range_sum(s, a, b) <= m
    &&& exists|a: int, b: int| 0 <= a < b <= k && range_sum(s, a, b) == m
}

/// Finds a maximum-sum contiguous subarray: the first component is the
/// largest sum any nonempty contiguous range attains, and the second is a
/// copy of one range attaining it.  Every contiguous sum must fit in
/// `i32`, and the slice must be nonempty.
pub fn kadanes(arr: &[i32]) -> (r: (i32, Vec<i32>))
    requires
        arr@.len() > 0,
        forall|a: int, b: int|
            0 <= a <= b <= arr@.len() ==> i32::MIN <= #[trigger] range_sum(arr@, a, b)
                <= i32::MAX,
    ensures
        is_max_overall(arr@, arr@.len() as int, r.0 as int),
        exists|a: int, b: int|
            0 <= a < b <= arr@.len() && r.1@ =~= arr@.subrange(a, b) && range_sum(arr@, a, b)
                == r.0,
{
    let n = arr.len();
    let mut max_so_far: i32 = i32::MIN;
    let mut max_ending_here: i32 = 0;
    let mut start_index: usize = 0;
    let mut end_index: usize = 0;
    let mut temp_start_index: usize = 0;
    let mut i: usize = 0;
    while i < n
        invariant
            n == arr@.len(),
            i <= n,
            0 < n,
            forall|a: int, b: int|
                0 <= a <= b <= arr@.len() ==> i32::MIN <= #[trigger] range_sum(arr@, a, b)
                    <= i32::MAX,
            i == 0 ==> max_ending_here == 0 && max_so_far == i32::MIN && start_index == 0
                && end_index == 0 && temp_start_index == 0,
            i > 0 ==> {
                &&& is_max_ending(arr@, i as int, max_ending_here as int)
                &&& is_max_overall(arr@, i as int, max_so_far as int)
                &&& temp_start_index < i
                &&& max_ending_here as int == range_sum(arr@, temp_start_index as int, i as int)
                &&& start_index <= end_index < i
                &&& max_so_far as int == range_sum(arr@, start_index as int, end_index + 1)
            },
        decreases n - i,
    {
        let num = arr[i];
        proof {
            if i > 0 {
                lemma_range_sum_snoc(arr@, temp_start_index as int, i as int);
            }
            assert(range_sum(arr@, i as int, i + 1 as int) == arr@[i as int] + range_sum(
                arr@,
                i + 1 as int,
                i + 1 as int,
            ));
            assert(range_sum(arr@, i as int, i + 1 as int) == num);
        }
        let candidate_extend = if i == 0 {
            num
        } else {
            max_ending_here + num
        };
        let new_meh = if candidate_extend > num {
            candidate_extend
        } else {
            num
        };
        proof {
            assert forall|a: int| 0 <= a < i + 1 implies #[trigger] range_sum(arr@, a, i + 1) <= new_meh by {
                if a < i {
                    lemma_range_sum_snoc(arr@, a, i as int);
                    assert(range_sum(arr@, a, i as int) <= max_ending_here);
                }
            }
        }
        max_ending_here = new_meh;
        if max_ending_here == num {
            temp_start_index = i;
        }
        proof {
            assert(max_ending_here as int == range_sum(arr@, temp_start_index as int, i + 1));
            assert(is_max_ending(arr@, i + 1, max_ending_here as int));
        }
        if max_so_far < max_ending_here {
            max_so_far = max_ending_here;
            start_index = temp_start_index;
            end_index = i;
        }
        proof {
            assert forall|a: int, b: int|
                0 <= a < b <= i + 1 implies #[trigger] range_sum(arr@, a, b) <= max_so_far by {
                if b == i + 1 {
                    assert(range_sum(arr@, a, b) <= max_ending_here);
                } else {
                    if i > 0 {
                        assert(range_sum(arr@, a, b) <= max_so_far);
                    }
                }
            }
            assert(max_so_far as int == range_sum(arr@, start_index as int, end_index + 1));
            assert(is_max_overall(arr@, i + 1, max_so_far as int));
        }
        i = i + 1;
    }
    let mut segment: Vec<i32> = Vec::new();
    let mut j: usize = start_index;
    while j <= end_index
        invariant
            start_index <= j <= end_index + 1,
            end_index < n,
            n == arr@.len(),
            segment@ =~= arr@.subrange(start_index as int, j as int),
        decreases end_index + 1 - j,
    {
        segment.push(arr[j]);
        proof {
            assert(segment@ =~= arr@.subrange(start_index as int, j + 1 as int));
        }
        j = j + 1;
    }
    proof {
        assert(segment@ =~= arr@.subrange(start_index as int, end_index + 1));
    }
    (max_so_far, segment)
}

} // verus!
