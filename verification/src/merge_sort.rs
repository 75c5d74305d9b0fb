use vstd::prelude::*;

verus! {

/// `s` is ordered from smallest to largest.
pub open spec fn sorted(s: Seq<i32>) -> bool {
    forall|i: int, j: int| 0 <= i <= j < s.len() ==> s[i] <= s[j]
}

/// Sorts by splitting in half, sorting each half, and stitching the two
/// sorted halves back together.
pub fn merge_sort(vec: Vec<i32>) -> (r: Vec<i32>)
    ensures
        sorted(r@),
        r@.to_multiset() == vec@.to_multiset(),
    decreases vec@.len(),
{
    if vec.len() < 2 {
        return vec;
    }
    let len = vec.len();
    let mid = len / 2;
    let mut left: Vec<i32> = Vec::new();
    let mut i: usize = 0;
    while i < mid
        invariant
            i <= mid <= vec@.len(),
            left@ =~= vec@.take(i as int),
        decreases mid - i,
    {
        left.push(vec[i]);
        proof {
            assert(left@ =~= vec@.take(i + 1 as int));
        }
        i = i + 1;
    }
    let mut right: Vec<i32> = Vec::new();
    let mut j: usize = mid;
    while j < len
        invariant
            mid <= j <= len,
            len == vec@.len(),
            right@ =~= vec@.subrange(mid as int, j as int),
        decreases len - j,
    {
        right.push(vec[j]);
        proof {
            assert(right@ =~= vec@.subrange(mid as int, j + 1 as int));
        }
        j = j + 1;
    }
    proof {
        assert(left@ + right@ =~= vec@);
        vstd::seq_lib::lemma_multiset_commutative(left@, right@);
    }
    let sorted_left = merge_sort(left);
    let sorted_right = merge_sort(right);
    stitch(sorted_left, sorted_right)
}

/// Merges two sorted vectors into one sorted vector holding exactly the
/// elements of both.
fn stitch(left: Vec<i32>, right: Vec<i32>) -> (r: Vec<i32>)
    requires
        sorted(left@),
        sorted(right@),
    ensures
        sorted(r@),
        r@.to_multiset() == left@.to_multiset().add(right@.to_multiset()),
{
    broadcast use vstd::seq_lib::group_to_multiset_ensures;
    broadcast use vstd::multiset::group_multiset_axioms;

    let mut left = left;
    let mut right = right;
    let mut result: Vec<i32> = Vec::new();
    let ghost left0 = left@;
    let ghost right0 = right@;
    while !left.is_empty() && !right.is_empty()
        invariant
            sorted(left@),
            sorted(right@),
            sorted(result@),
            forall|a: int, b: int|
                #![trigger result@[a], left@[b]]
                0 <= a < result@.len() && 0 <= b < left@.len() ==> result@[a] <= left@[b],
            forall|a: int, b: int|
                #![trigger result@[a], right@[b]]
                0 <= a < result@.len() && 0 <= b < right@.len() ==> result@[a] <= right@[b],
            result@.to_multiset().add(left@.to_multiset()).add(right@.to_multiset())
                == left0.to_multiset().add(right0.to_multiset()),
        decreases left@.len() + right@.len(),
    {
        proof {
            broadcast use vstd::seq_lib::group_to_multiset_ensures;
            broadcast use vstd::seq_lib::to_multiset_remove;
            broadcast use vstd::multiset::group_multiset_axioms;
            broadcast use vstd::multiset::group_multiset_properties;

        }
        let ghost res_p = result@;
        let ghost left_p = left@;
        let ghost right_p = right@;
        if left[0] <= right[0] {
            let x = left.remove(0);
            result.push(x);
            proof {
                assert(result@ =~= res_p.push(x));
                assert(left@ =~= left_p.remove(0));
                assert forall|x2: i32|
                    result@.to_multiset().add(left@.to_multiset()).add(
                        right@.to_multiset(),
                    ).count(x2) == left0.to_multiset().add(right0.to_multiset()).count(x2) by {
                    assert(res_p.to_multiset().add(left_p.to_multiset()).add(
                        right_p.to_multiset(),
                    ).count(x2) == left0.to_multiset().add(right0.to_multiset()).count(x2));
                }
                assert(result@.to_multiset().add(left@.to_multiset()).add(right@.to_multiset())
                    =~= left0.to_multiset().add(right0.to_multiset()));
                assert forall|b: int| 0 <= b < left@.len() implies x <= left@[b] by {
                    assert(left@[b] == left_p[b + 1]);
                }
            }
        } else {
            let x = right.remove(0);
            result.push(x);
            proof {
                assert(result@ =~= res_p.push(x));
                assert(right@ =~= right_p.remove(0));
                assert forall|x2: i32|
                    result@.to_multiset().add(left@.to_multiset()).add(
                        right@.to_multiset(),
                    ).count(x2) == left0.to_multiset().add(right0.to_multiset()).count(x2) by {
                    assert(res_p.to_multiset().add(left_p.to_multiset()).add(
                        right_p.to_multiset(),
                    ).count(x2) == left0.to_multiset().add(right0.to_multiset()).count(x2));
                }
                assert(result@.to_multiset().add(left@.to_multiset()).add(right@.to_multiset())
                    =~= left0.to_multiset().add(right0.to_multiset()));
                assert forall|b: int| 0 <= b < right@.len() implies x <= right@[b] by {
                    assert(right@[b] == right_p[b + 1]);
                }
            }
        }
    }
    let ghost res_mid = result@;
    let ghost left_mid = left@;
    let ghost right_mid = right@;
    result.append(&mut left);
    result.append(&mut right);
    proof {
        broadcast use vstd::seq_lib::group_to_multiset_ensures;
        broadcast use vstd::multiset::group_multiset_axioms;

        assert(result@ =~= res_mid + left_mid + right_mid);
        vstd::seq_lib::lemma_multiset_commutative(res_mid + left_mid, right_mid);
        vstd::seq_lib::lemma_multiset_commutative(res_mid, left_mid);
        assert(result@.to_multiset() =~= res_mid.to_multiset().add(left_mid.to_multiset()).add(
            right_mid.to_multiset(),
        ));
        assert(sorted(result@)) by {
            assert(left_mid.len() == 0 || right_mid.len() == 0);
            assert forall|a: int, b: int|
                0 <= a <= b < result@.len() implies result@[a] <= result@[b] by {
                let rl = res_mid.len() as int;
                if left_mid.len() == 0 {
                    if b >= rl {
                        assert(result@[b] == right_mid[b - rl]);
                        if a >= rl {
                            assert(result@[a] == right_mid[a - rl]);
                        } else {
                            assert(result@[a] == res_mid[a]);
                        }
                    } else {
                        assert(result@[a] == res_mid[a]);
                        assert(result@[b] == res_mid[b]);
                    }
                } else {
                    if b >= rl {
                        assert(result@[b] == left_mid[b - rl]);
                        if a >= rl {
                            assert(result@[a] == left_mid[a - rl]);
                        } else {
                            assert(result@[a] == res_mid[a]);
                        }
                    } else {
                        assert(result@[a] == res_mid[a]);
                        assert(result@[b] == res_mid[b]);
                    }
                }
            }
        }
    }
    result
}

} // verus!
