use vstd::prelude::*;

verus! {

use crate::min_heap::{MinHeap, lemma_mem_after_remove};

/// `s` is ordered from smallest to largest.
pub open spec fn sorted(s: Seq<u64>) -> bool {
    forall|i: int, j: int| 0 <= i <= j < s.len() ==> s[i] <= s[j]
}

/// Each value paired with the unit payload, the shape the heap stores.
spec fn to_entries(s: Seq<u64>) -> Seq<(u64, ())> {
    s.map_values(|x: u64| (x, ()))
}

/// The pairing changes no multiplicity: a value occurs in `s` exactly as
/// often as its paired form occurs in `to_entries(s)`.
proof fn lemma_to_entries_count(s: Seq<u64>, x: u64)
    ensures
        to_entries(s).to_multiset().count((x, ())) == s.to_multiset().count(x),
    decreases s.len(),
{
    broadcast use vstd::seq_lib::group_to_multiset_ensures;
    broadcast use vstd::multiset::group_multiset_properties;

    if s.len() == 0 {
        assert(to_entries(s) =~= Seq::<(u64, ())>::empty());
        assert(!s.contains(x));
        assert(!to_entries(s).contains((x, ())));
    } else {
        let s0 = s.drop_last();
        lemma_to_entries_count(s0, x);
        assert(s =~= s0.push(s.last()));
        assert(to_entries(s) =~= to_entries(s0).push((s.last(), ())));
        assert(s.to_multiset() =~= s0.to_multiset().insert(s.last()));
        assert(to_entries(s).to_multiset() =~= to_entries(s0).to_multiset().insert(
            (s.last(), ()),
        ));
    }
}

/// Sorts the vector ascending by loading every element into a priority
/// queue and draining it back in priority order.
pub fn heap_sort(arr: &mut Vec<u64>)
    ensures
        sorted(final(arr)@),
        final(arr)@.to_multiset() == old(arr)@.to_multiset(),
{
    broadcast use vstd::seq_lib::group_to_multiset_ensures;
    broadcast use vstd::multiset::group_multiset_properties;

    let mut heap: MinHeap<()> = MinHeap::new();
    let n = arr.len();
    let mut i: usize = 0;
    while i < n
        invariant
            n == arr@.len(),
            arr@ == old(arr)@,
            i <= n,
            heap.wf(),
            heap@.len() == i,
            heap@.to_multiset() == to_entries(arr@.take(i as int)).to_multiset(),
        decreases n - i,
    {
        heap.push((arr[i], ()));
        proof {
            broadcast use vstd::seq_lib::group_to_multiset_ensures;
            broadcast use vstd::multiset::group_multiset_axioms;
            broadcast use vstd::multiset::group_multiset_properties;

            assert(arr@.take(i + 1 as int) =~= arr@.take(i as int).push(arr@[i as int]));
            assert(to_entries(arr@.take(i + 1 as int)) =~= to_entries(arr@.take(i as int)).push(
                (arr@[i as int], ()),
            ));
            assert(to_entries(arr@.take(i + 1 as int)).to_multiset() =~= to_entries(
                arr@.take(i as int),
            ).to_multiset().insert((arr@[i as int], ())));
        }
        i = i + 1;
    }
    proof {
        assert(arr@.take(n as int) =~= arr@);
        assert(to_entries(arr@.take(0 as int)) =~= Seq::<(u64, ())>::empty());
        assert(to_entries(arr@.take(0 as int)).to_multiset().add(heap@.to_multiset())
            =~= to_entries(old(arr)@).to_multiset());
    }
    let mut j: usize = 0;
    while j < n
        invariant
            n == arr@.len(),
            j <= n,
            heap.wf(),
            heap@.len() == n - j,
            to_entries(arr@.take(j as int)).to_multiset().add(heap@.to_multiset()) == to_entries(
                old(arr)@,
            ).to_multiset(),
            sorted(arr@.take(j as int)),
            forall|idx: int, q: int|
                #![trigger heap@[idx], arr@[q]]
                0 <= idx < heap@.len() && 0 <= q < j ==> arr@[q] <= heap@[idx].0,
        decreases n - j,
    {
        let ghost h_old = heap@;
        let ghost arr_old = arr@;
        let entry = heap.pop();
        if let Some(en) = entry {
            arr.set(j, en.0);
            proof {
                broadcast use vstd::seq_lib::group_to_multiset_ensures;
                broadcast use vstd::multiset::group_multiset_axioms;
                broadcast use vstd::multiset::group_multiset_properties;

                assert(en == h_old[0]);
                lemma_mem_after_remove(h_old, heap@, en);
                assert(arr@.take(j as int) =~= arr_old.take(j as int));
                assert(sorted(arr@.take(j + 1 as int))) by {
                    let sub = arr@.take(j + 1 as int);
                    assert forall|p: int, q: int|
                        0 <= p <= q < sub.len() implies sub[p] <= sub[q] by {
                        if q == j {
                            if p < j {
                                assert(arr_old[p] <= h_old[0].0);
                            }
                        } else {
                            assert(sub[p] == arr_old.take(j as int)[p]);
                            assert(sub[q] == arr_old.take(j as int)[q]);
                        }
                    }
                }
                assert forall|idx: int, q: int|
                    #![trigger heap@[idx], arr@[q]]
                    0 <= idx < heap@.len() && 0 <= q < j + 1 implies arr@[q] <= heap@[idx].0 by {
                    assert(h_old.contains(heap@[idx]));
                    let jj = choose|jj: int| 0 <= jj < h_old.len() && h_old[jj] == heap@[idx];
                    if q < j {
                        assert(arr_old[q] <= h_old[jj].0);
                    } else {
                        assert(h_old[0].0 <= h_old[jj].0);
                    }
                }
                assert(en == (en.0, ()));
                assert(arr@.take(j + 1 as int) =~= arr@.take(j as int).push(en.0));
                assert(to_entries(arr@.take(j + 1 as int)) =~= to_entries(
                    arr@.take(j as int),
                ).push((en.0, ())));
                assert(to_entries(arr@.take(j + 1 as int)).to_multiset() =~= to_entries(
                    arr@.take(j as int),
                ).to_multiset().insert(en));
                assert forall|x: (u64, ())|
                    to_entries(arr@.take(j + 1 as int)).to_multiset().add(
                        heap@.to_multiset(),
                    ).count(x) == to_entries(old(arr)@).to_multiset().count(x) by {
                    assert(to_entries(arr@.take(j as int)).to_multiset().add(
                        h_old.to_multiset(),
                    ).count(x) == to_entries(old(arr)@).to_multiset().count(x));
                }
                assert(to_entries(arr@.take(j + 1 as int)).to_multiset().add(heap@.to_multiset())
                    =~= to_entries(old(arr)@).to_multiset());
            }
        } else {
            proof {
                assert(false);
            }
        }
        j = j + 1;
    }
    proof {
        broadcast use vstd::seq_lib::group_to_multiset_ensures;
        broadcast use vstd::multiset::group_multiset_axioms;
        broadcast use vstd::multiset::group_multiset_properties;

        assert(arr@.take(n as int) =~= arr@);
        assert(heap@.to_multiset().len() == 0);
        assert(to_entries(arr@).to_multiset() =~= to_entries(arr@).to_multiset().add(
            heap@.to_multiset(),
        ));
        assert forall|x: u64|
            arr@.to_multiset().count(x) == old(arr)@.to_multiset().count(x) by {
            lemma_to_entries_count(arr@, x);
            lemma_to_entries_count(old(arr)@, x);
        }
        assert(arr@.to_multiset() =~= old(arr)@.to_multiset());
    }
}

} // verus!
