use vstd::prelude::*;

verus! {

/// `s` is ordered from smallest to largest.
pub open spec fn sorted(s: Seq<u64>) -> bool {
    forall|i: int, j: int| 0 <= i <= j < s.len() ==> s[i] <= s[j]
}

/// Swapping the values at two positions of a sequence leaves its multiset
/// unchanged.
proof fn lemma_swap_multiset(s: Seq<u64>, i: int, j: int)
    requires
        0 <= i < s.len(),
        0 <= j < s.len(),
    ensures
        s.update(i, s[j]).update(j, s[i]).to_multiset() == s.to_multiset(),
{
    broadcast use vstd::seq_lib::group_to_multiset_ensures;
    broadcast use vstd::seq_lib::to_multiset_update;
    broadcast use vstd::multiset::group_multiset_axioms;
    broadcast use vstd::multiset::group_multiset_properties;

    if i != j {
        let t1 = s.update(i, s[j]);
        let t2 = t1.update(j, s[i]);
        assert(t1.to_multiset() == s.to_multiset().insert(s[j]).remove(s[i]));
        assert(t1[j] == s[j]);
        assert(t2.to_multiset() == t1.to_multiset().insert(s[i]).remove(s[j]));
        assert(s.to_multiset().contains(s[i]));
        assert(t2.to_multiset() =~= s.to_multiset());
    } else {
        assert(s.update(i, s[j]).update(j, s[i]) =~= s);
    }
}

/// Two sequences with equal multisets have the same upper bounds.
proof fn lemma_ms_le(a: Seq<u64>, b: Seq<u64>, x: u64)
    requires
        a.to_multiset() == b.to_multiset(),
        forall|i: int| 0 <= i < a.len() ==> a[i] <= x,
    ensures
        forall|i: int| 0 <= i < b.len() ==> b[i] <= x,
{
    broadcast use vstd::seq_lib::group_to_multiset_ensures;

    assert forall|i: int| 0 <= i < b.len() implies b[i] <= x by {
        assert(b.contains(b[i]));
        assert(b.to_multiset().contains(b[i]));
        assert(a.contains(b[i]));
    }
}

/// Two sequences with equal multisets have the same strict lower bounds.
proof fn lemma_ms_gt(a: Seq<u64>, b: Seq<u64>, x: u64)
    requires
        a.to_multiset() == b.to_multiset(),
        forall|i: int| 0 <= i < a.len() ==> a[i] > x,
    ensures
        forall|i: int| 0 <= i < b.len() ==> b[i] > x,
{
    broadcast use vstd::seq_lib::group_to_multiset_ensures;

    assert forall|i: int| 0 <= i < b.len() implies b[i] > x by {
        assert(b.contains(b[i]));
        assert(b.to_multiset().contains(b[i]));
        assert(a.contains(b[i]));
    }
}

/// Swaps two positions of the vector.
fn swap_at(arr: &mut Vec<u64>, a: usize, b: usize)
    requires
        a < old(arr)@.len(),
        b < old(arr)@.len(),
    ensures
        final(arr)@ == old(arr)@.update(a as int, old(arr)@[b as int]).update(
            b as int,
            old(arr)@[a as int],
        ),
        final(arr)@.to_multiset() == old(arr)@.to_multiset(),
{
    let x = arr[a];
    let y = arr[b];
    arr.set(a, y);
    arr.set(b, x);
    proof {
        lemma_swap_multiset(old(arr)@, a as int, b as int);
    }
}

/// Moves every element of `arr[low..=high]` that is at most the pivot
/// (initially at `high`) to the front of the window, then places the pivot
/// between the two groups and returns its position.
fn partition(arr: &mut Vec<u64>, low: usize, high: usize) -> (p: usize)
    requires
        low <= high < old(arr)@.len(),
    ensures
        low <= p <= high,
        final(arr)@.len() == old(arr)@.len(),
        forall|i: int|
            0 <= i < final(arr)@.len() && !(low <= i <= high) ==> final(arr)@[i] == old(arr)@[i],
        final(arr)@.subrange(low as int, high + 1).to_multiset() == old(arr)@.subrange(
            low as int,
            high + 1,
        ).to_multiset(),
        final(arr)@[p as int] == old(arr)@[high as int],
        forall|i: int| low <= i < p ==> final(arr)@[i] <= final(arr)@[p as int],
        forall|i: int| p < i <= high ==> final(arr)@[i] > final(arr)@[p as int],
{
    let ghost orig = arr@;
    let pivot = arr[high];
    let mut idx = low;
    let mut i = low;
    while i < high
        invariant
            low <= idx <= i <= high < arr@.len(),
            arr@.len() == orig.len(),
            arr@[high as int] == pivot,
            forall|j: int| 0 <= j < arr@.len() && !(low <= j <= high) ==> arr@[j] == orig[j],
            arr@.subrange(low as int, high + 1).to_multiset() == orig.subrange(
                low as int,
                high + 1,
            ).to_multiset(),
            forall|j: int| low <= j < idx ==> arr@[j] <= pivot,
            forall|j: int| idx <= j < i ==> arr@[j] > pivot,
        decreases high - i,
    {
        if arr[i] <= pivot {
            let ghost pre = arr@;
            swap_at(arr, i, idx);
            proof {
                assert(arr@.subrange(low as int, high + 1) =~= pre.subrange(
                    low as int,
                    high + 1,
                ).update(i - low, pre[idx as int]).update(idx - low, pre[i as int]));
                lemma_swap_multiset(pre.subrange(low as int, high + 1), i - low, idx - low);
            }
            idx = idx + 1;
        }
        i = i + 1;
    }
    let ghost pre = arr@;
    swap_at(arr, idx, high);
    proof {
        assert(arr@.subrange(low as int, high + 1) =~= pre.subrange(low as int, high + 1).update(
            idx - low,
            pre[high as int],
        ).update(high - low, pre[idx as int]));
        lemma_swap_multiset(pre.subrange(low as int, high + 1), idx - low, high - low);
        assert(arr@[idx as int] == pivot);
        assert forall|j: int| idx < j <= high implies arr@[j] > arr@[idx as int] by {
            if j < high {
                assert(arr@[j] == pre[j]);
            } else {
                if idx < high {
                    assert(arr@[j] == pre[idx as int]);
                }
            }
        }
    }
    idx
}

/// Sorts `arr[low..=high]` in place; an empty window (`low > high`) is
/// left untouched.
fn qs(arr: &mut Vec<u64>, low: usize, high: usize)
    requires
        high < old(arr)@.len(),
        low <= old(arr)@.len(),
    ensures
        final(arr)@.len() == old(arr)@.len(),
        forall|i: int|
            0 <= i < final(arr)@.len() && !(low <= i <= high) ==> final(arr)@[i] == old(arr)@[i],
        low <= high ==> final(arr)@.subrange(low as int, high + 1).to_multiset() == old(
            arr,
        )@.subrange(low as int, high + 1).to_multiset(),
        low <= high ==> sorted(final(arr)@.subrange(low as int, high + 1)),
        low > high ==> final(arr)@ == old(arr)@,
    decreases high - low + 1,
{
    if low < high {
        let ghost orig = arr@;
        let pivot_idx = partition(arr, low, high);
        let ghost after_part = arr@;
        let ghost pivot = arr@[pivot_idx as int];
        if pivot_idx > 0 {
            qs(arr, low, pivot_idx - 1);
        }
        let ghost after_left = arr@;
        proof {
            if !(pivot_idx > 0) {
                assert(pivot_idx == low);
                assert(after_left == after_part);
            }
            assert(after_left[pivot_idx as int] == pivot);
            if pivot_idx > low {
                assert(after_left.subrange(low as int, pivot_idx as int).to_multiset()
                    == after_part.subrange(low as int, pivot_idx as int).to_multiset());
                lemma_ms_le(
                    after_part.subrange(low as int, pivot_idx as int),
                    after_left.subrange(low as int, pivot_idx as int),
                    pivot,
                );
            }
        }
        if pivot_idx < high {
            qs(arr, pivot_idx + 1, high);
        }
        proof {
            let fin = arr@;
            assert(fin[pivot_idx as int] == pivot);
            // left half untouched by the right recursion
            assert forall|i: int| low <= i < pivot_idx implies fin[i] == after_left[i] by {}
            assert(fin.subrange(low as int, pivot_idx as int) =~= after_left.subrange(
                low as int,
                pivot_idx as int,
            ));
            assert(after_left.subrange(pivot_idx + 1, high + 1) =~= after_part.subrange(
                pivot_idx + 1,
                high + 1,
            ));
            if pivot_idx < high {
                assert(fin.subrange(pivot_idx + 1, high + 1).to_multiset()
                    == after_left.subrange(pivot_idx + 1, high + 1).to_multiset());
                lemma_ms_gt(
                    after_part.subrange(pivot_idx + 1, high + 1),
                    fin.subrange(pivot_idx + 1, high + 1),
                    pivot,
                );
            } else {
                assert(fin.subrange(pivot_idx + 1, high + 1) =~= after_left.subrange(
                    pivot_idx + 1,
                    high + 1,
                ));
            }
            if pivot_idx == low {
                assert(after_left.subrange(low as int, pivot_idx as int) =~= after_part.subrange(
                    low as int,
                    pivot_idx as int,
                ));
            }
            // the full window is sorted
            assert(sorted(fin.subrange(low as int, high + 1))) by {
                let sub = fin.subrange(low as int, high + 1);
                let p = pivot_idx - low;
                assert forall|a: int, b: int| 0 <= a <= b < sub.len() implies sub[a] <= sub[b] by {
                    assert(sub[a] == fin[low + a]);
                    assert(sub[b] == fin[low + b]);
                    if a < p {
                        assert(fin[low + a] == after_left[low + a]);
                        if pivot_idx > low {
                            assert(after_left.subrange(low as int, pivot_idx as int)[a]
                                == after_left[low + a]);
                        }
                        assert(after_left[low + a] <= pivot);
                        if b < p {
                            assert(fin[low + b] == after_left[low + b]);
                            if pivot_idx > low {
                                let ls = after_left.subrange(low as int, pivot_idx as int);
                                assert(sorted(ls));
                                assert(ls[a] == after_left[low + a]);
                                assert(ls[b] == after_left[low + b]);
                            }
                        } else if b == p {
                        } else {
                            assert(fin.subrange(pivot_idx + 1, high + 1)[low + b - (pivot_idx
                                + 1)] == fin[low + b]);
                            assert(fin[low + b] > pivot);
                        }
                    } else if a == p {
                        if b > p {
                            assert(fin.subrange(pivot_idx + 1, high + 1)[low + b - (pivot_idx
                                + 1)] == fin[low + b]);
                            assert(fin[low + b] > pivot);
                        }
                    } else {
                        let rs = fin.subrange(pivot_idx + 1, high + 1);
                        assert(sorted(rs));
                        assert(rs[low + a - (pivot_idx + 1)] == fin[low + a]);
                        assert(rs[low + b - (pivot_idx + 1)] == fin[low + b]);
                    }
                }
            }
            // the full window keeps its multiset
            assert(fin.subrange(low as int, high + 1).to_multiset() == orig.subrange(
                low as int,
                high + 1,
            ).to_multiset()) by {
                lemma_three_piece_multiset(fin, after_left, low as int, pivot_idx as int, high
                    + 1);
                lemma_three_piece_multiset(
                    after_left,
                    after_part,
                    low as int,
                    pivot_idx as int,
                    high + 1,
                );
            }
        }
    }
}

/// Two sequences that agree outside `[lo, hi)` except for a permutation of
/// the part left of `mid` and a permutation of the part right of `mid`,
/// with the `mid` element equal, have equal multisets over `[lo, hi)`.
proof fn lemma_three_piece_multiset(a: Seq<u64>, b: Seq<u64>, lo: int, mid: int, hi: int)
    requires
        a.len() == b.len(),
        0 <= lo <= mid < hi <= a.len(),
        a[mid] == b[mid],
        lo < mid ==> a.subrange(lo, mid).to_multiset() == b.subrange(lo, mid).to_multiset(),
        mid + 1 < hi ==> a.subrange(mid + 1, hi).to_multiset() == b.subrange(
            mid + 1,
            hi,
        ).to_multiset(),
        lo == mid ==> a.subrange(lo, mid) =~= b.subrange(lo, mid),
        mid + 1 == hi ==> a.subrange(mid + 1, hi) =~= b.subrange(mid + 1, hi),
    ensures
        a.subrange(lo, hi).to_multiset() == b.subrange(lo, hi).to_multiset(),
{
    broadcast use vstd::seq_lib::group_to_multiset_ensures;
    broadcast use vstd::multiset::group_multiset_axioms;

    let al = a.subrange(lo, mid);
    let bl = b.subrange(lo, mid);
    let ar = a.subrange(mid + 1, hi);
    let br = b.subrange(mid + 1, hi);
    assert(a.subrange(lo, hi) =~= al + seq![a[mid]] + ar);
    assert(b.subrange(lo, hi) =~= bl + seq![b[mid]] + br);
    vstd::seq_lib::lemma_multiset_commutative(al + seq![a[mid]], ar);
    vstd::seq_lib::lemma_multiset_commutative(al, seq![a[mid]]);
    vstd::seq_lib::lemma_multiset_commutative(bl + seq![b[mid]], br);
    vstd::seq_lib::lemma_multiset_commutative(bl, seq![b[mid]]);
    assert(al.to_multiset() == bl.to_multiset());
    assert(ar.to_multiset() == br.to_multiset());
    assert(a.subrange(lo, hi).to_multiset() =~= b.subrange(lo, hi).to_multiset());
}

/// Sorts the vector in place with in-place partitioning around the last
/// element of each window.
pub fn quick_sort(arr: &mut Vec<u64>)
    ensures
        sorted(final(arr)@),
        final(arr)@.to_multiset() == old(arr)@.to_multiset(),
{
    let len = arr.len();
    if len > 0 {
        qs(arr, 0, len - 1);
        proof {
            assert(arr@.subrange(0, len as int) =~= arr@);
            assert(old(arr)@.subrange(0, len as int) =~= old(arr)@);
        }
    }
}

} // verus!
