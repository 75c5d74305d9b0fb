use vstd::prelude::*;

verus! {

/// `s` is ordered from smallest to largest.
pub open spec fn sorted(s: Seq<usize>) -> bool {
    forall|i: int, j: int| 0 <= i <= j < s.len() ==> s[i] <= s[j]
}

/// Swapping the values at two positions of a sequence leaves its multiset
/// unchanged: `s` holds `a` at `i` and `b` at `j`, and the updates write
/// them back crosswise.
proof fn lemma_swap_multiset(s: Seq<usize>, i: int, j: int, a: usize, b: usize)
    requires
        0 <= i < s.len(),
        0 <= j < s.len(),
        i != j,
        s[i] == a,
        s[j] == b,
    ensures
        s.update(i, b).update(j, a).to_multiset() == s.to_multiset(),
{
    broadcast use vstd::seq_lib::group_to_multiset_ensures;

    let t1 = s.update(i, b);
    let t2 = t1.update(j, a);
    assert(t1.to_multiset() == s.to_multiset().insert(b).remove(a));
    assert(t1[j] == b);
    assert(t2.to_multiset() == t1.to_multiset().insert(a).remove(b));
    assert(s.to_multiset().contains(a));
    assert(t2.to_multiset() =~= s.to_multiset());
}

/// Sorts the vector in place by repeatedly swapping adjacent elements that
/// are out of order.
pub fn bubble_sort(arr: &mut Vec<usize>)
    ensures
        sorted(final(arr)@),
        final(arr)@.to_multiset() == old(arr)@.to_multiset(),
{
    let n = arr.len();
    if n == 0 {
        return ;
    }
    for i in 0..n
        invariant
            arr@.len() == n,
            0 < n,
            arr@.to_multiset() == old(arr)@.to_multiset(),
            // the last i elements are sorted and bound the rest from above
            sorted(arr@.subrange(n - i, n as int)),
            forall|p: int, q: int| 0 <= p < n - i <= q < n ==> arr@[p] <= arr@[q],
    {
        let m = n - 1 - i;
        for j in 0..m
            invariant
                arr@.len() == n,
                m == n - 1 - i,
                i < n,
                arr@.to_multiset() == old(arr)@.to_multiset(),
                sorted(arr@.subrange(n - i, n as int)),
                forall|p: int, q: int| 0 <= p < n - i <= q < n ==> arr@[p] <= arr@[q],
                // arr[j] bounds everything before it
                forall|p: int| 0 <= p <= j ==> arr@[p] <= arr@[j as int],
        {
            if arr[j] > arr[j + 1] {
                let ghost s0 = arr@;
                let tmp = arr[j];
                let next = arr[j + 1];
                arr.set(j, next);
                arr.set(j + 1, tmp);
                proof {
                    assert(arr@ =~= s0.update(j as int, next).update(j + 1, tmp));
                    lemma_swap_multiset(s0, j as int, j + 1, tmp, next);
                    assert(arr@.subrange(n - i, n as int) =~= s0.subrange(n - i, n as int));
                }
            }
        }
        proof {
            assert forall|p: int, q: int| 0 <= p < n - i - 1 <= q < n implies arr@[p]
                <= arr@[q] by {
                if q == n - i - 1 {
                    assert(arr@[p] <= arr@[n - 1 - i]);
                }
            }
            assert(sorted(arr@.subrange(n - i - 1, n as int))) by {
                let sub = arr@.subrange(n - i - 1, n as int);
                let osub = arr@.subrange(n - i, n as int);
                assert forall|p: int, q: int| 0 <= p <= q < sub.len() implies sub[p] <= sub[q] by {
                    assert(sub[p] == arr@[n - i - 1 + p]);
                    assert(sub[q] == arr@[n - i - 1 + q]);
                    if p > 0 {
                        assert(osub[p - 1] == arr@[n - i + (p - 1)]);
                        assert(osub[q - 1] == arr@[n - i + (q - 1)]);
                        assert(osub[p - 1] <= osub[q - 1]);
                    } else if q > 0 {
                        assert(arr@[n - i - 1] <= arr@[n - i - 1 + q]);
                    }
                }
            }
        }
    }
    proof {
        assert(arr@.subrange(0, n as int) =~= arr@);
    }
}

} // verus!
