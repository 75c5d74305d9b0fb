use vstd::prelude::*;

verus! {

/// Index of the parent of heap slot `i`.
pub open spec fn parent(i: int) -> int {
    (i - 1) / 2
}

/// The binary-heap ordering on an array: every non-root slot is at least
/// its parent, comparing by the priority component.
pub open spec fn is_min_heap<T>(s: Seq<(u64, T)>) -> bool {
    forall|i: int| 1 <= i < s.len() ==> s[parent(i)].0 <= (#[trigger] s[i]).0
}

/// The heap ordering everywhere except possibly on the edge into slot `j`.
spec fn heap_except_up<T>(s: Seq<(u64, T)>, j: int) -> bool {
    forall|i: int| 1 <= i < s.len() && i != j ==> s[parent(i)].0 <= (#[trigger] s[i]).0
}

/// The heap ordering everywhere except possibly on the edges out of slot
/// `j` to its children.
spec fn heap_except_down<T>(s: Seq<(u64, T)>, j: int) -> bool {
    forall|i: int| 1 <= i < s.len() && parent(i) != j ==> s[parent(i)].0 <= (#[trigger] s[i]).0
}

/// `i` lies on the chain of parents from slot `j` up to the root, `j`
/// itself included; equivalently, `j` lies in the subtree rooted at `i`.
pub open spec fn on_root_path(i: int, j: int) -> bool
    decreases j,
{
    if j <= 0 {
        i == j
    } else {
        i == j || on_root_path(i, parent(j))
    }
}

/// Every slot lies on its own root path.
proof fn lemma_root_path_refl(j: int)
    requires
        j >= 0,
    ensures
        on_root_path(j, j),
{
}

/// The parent of a slot on the root path of `o` is on that path too.
proof fn lemma_root_path_parent(j: int, o: int)
    requires
        1 <= j,
        on_root_path(j, o),
    ensures
        on_root_path(parent(j), o),
    decreases o,
{
    if o <= 0 {
        // impossible: a positive slot cannot lie on the path of the root
    } else if j == o {
        lemma_root_path_refl(parent(o));
    } else {
        lemma_root_path_parent(j, parent(o));
    }
}

/// In a heap, the root is a minimal priority: by induction down the tree
/// every slot is bounded below by the root.
proof fn lemma_root_is_min<T>(s: Seq<(u64, T)>, i: int)
    requires
        is_min_heap(s),
        0 <= i < s.len(),
    ensures
        s[0].0 <= s[i].0,
    decreases i,
{
    if i > 0 {
        lemma_root_is_min(s, parent(i));
    }
}

/// A priority queue of payloads of type `T`, held as a binary min-heap on
/// an array and ordered by a `u64` priority.  The view is the underlying
/// array of (priority, payload) entries.
pub struct MinHeap<T> {
    data: Vec<(u64, T)>,
}

impl<T> View for MinHeap<T> {
    type V = Seq<(u64, T)>;

    closed spec fn view(&self) -> Seq<(u64, T)> {
        self.data@
    }
}

impl<T: Copy> MinHeap<T> {
    /// The heap ordering holds of the underlying array.
    pub open spec fn wf(self) -> bool {
        is_min_heap(self@)
    }

    /// Creates a new, empty `MinHeap`.
    pub fn new() -> (h: Self)
        ensures
            h.wf(),
            h@ == Seq::<(u64, T)>::empty(),
    {
        MinHeap { data: Vec::new() }
    }

    /// Number of entries stored.
    pub fn len(&self) -> (n: usize)
        ensures
            n == self@.len(),
    {
        self.data.len()
    }

    /// The heap holds nothing.
    pub fn is_empty(&self) -> (r: bool)
        ensures
            r <==> self@.len() == 0,
    {
        self.data.is_empty()
    }

    /// Pushes an entry onto the heap and restores the heap ordering by
    /// sifting it up.
    pub fn push(&mut self, element: (u64, T))
        requires
            old(self).wf(),
        ensures
            final(self).wf(),
            final(self)@.len() == old(self)@.len() + 1,
            final(self)@.to_multiset() == old(self)@.to_multiset().insert(element),
    {
        proof {
            broadcast use vstd::seq_lib::group_to_multiset_ensures;

        }
        self.data.push(element);
        let idx = self.data.len() - 1;
        self.heapify_up(idx);
    }

    /// Pops the entry with the smallest priority, or `None` when empty.
    /// The returned entry is the root of the heap and a minimum of the
    /// stored priorities.
    pub fn pop(&mut self) -> (r: Option<(u64, T)>)
        requires
            old(self).wf(),
        ensures
            old(self)@.len() == 0 ==> r is None && *final(self) == *old(self),
            old(self)@.len() > 0 ==> {
                &&& r == Some(old(self)@[0])
                &&& forall|i: int|
                    0 <= i < old(self)@.len() ==> old(self)@[0].0 <= (#[trigger] old(self)@[i]).0
                &&& final(self).wf()
                &&& final(self)@.len() == old(self)@.len() - 1
                &&& old(self)@.to_multiset() == final(self)@.to_multiset().insert(old(self)@[0])
            },
    {
        proof {
            broadcast use vstd::seq_lib::group_to_multiset_ensures;

        }
        if self.data.is_empty() {
            return None;
        }
        proof {
            assert forall|i: int|
                0 <= i < self@.len() implies self@[0].0 <= (#[trigger] self@[i]).0 by {
                lemma_root_is_min(self@, i);
            }
        }
        let last_index = self.data.len() - 1;
        self.swap_entries(0, last_index);
        let result = self.data.pop();
        proof {
            let ghost s0 = old(self)@;
            if last_index > 0 {
                let swapped = s0.update(0, s0[last_index as int]).update(last_index as int, s0[0]);
                assert(self@ =~= swapped.drop_last());
                assert(self@.push(s0[0]) =~= swapped);
                assert(swapped.to_multiset() == s0.to_multiset()) by {
                    lemma_swap_entry_multiset(s0, 0, last_index as int);
                }
                assert(self@.push(s0[0]).to_multiset() == self@.to_multiset().insert(s0[0]));
                assert forall|i: int| 1 <= i < self@.len() && parent(i) != 0 implies self@[parent(
                    i,
                )].0 <= (#[trigger] self@[i]).0 by {
                    assert(self@[i] == s0[i]);
                    assert(self@[parent(i)] == s0[parent(i)]);
                }
            } else {
                assert(self@ =~= s0.drop_last());
                assert(self@.push(s0[0]) =~= s0);
                assert(self@.push(s0[0]).to_multiset() == self@.to_multiset().insert(s0[0]));
            }
        }
        self.heapify_down(0);
        result
    }

    /// Swaps two slots of the array.
    fn swap_entries(&mut self, a: usize, b: usize)
        requires
            a < old(self)@.len(),
            b < old(self)@.len(),
        ensures
            final(self)@ == old(self)@.update(a as int, old(self)@[b as int]).update(
                b as int,
                old(self)@[a as int],
            ),
    {
        let x = self.data[a];
        let y = self.data[b];
        self.data.set(a, y);
        self.data.set(b, x);
    }

    /// Restores the heap ordering by walking from `index` to the root,
    /// swapping each slot with its parent while the parent is larger;
    /// slots off that root path are untouched.
    #[verifier::rlimit(60)]
    fn heapify_up(&mut self, index: usize)
        requires
            index < old(self)@.len(),
            heap_except_up(old(self)@, index as int),
            // the parent of `index` already bounds the children of `index`
            forall|c: int|
                1 <= c < old(self)@.len() && parent(c) == index && index != 0 ==> old(self)@[parent(
                    index as int,
                )].0 <= (#[trigger] old(self)@[c]).0,
        ensures
            final(self).wf(),
            final(self)@.len() == old(self)@.len(),
            final(self)@.to_multiset() == old(self)@.to_multiset(),
            // only slots on the root path of `index` are moved
            forall|i: int|
                0 <= i < old(self)@.len() && !on_root_path(i, index as int) ==> final(self)@[i]
                    == old(self)@[i],
    {
        let ghost start = index as int;
        let mut index = index;
        proof {
            lemma_root_path_refl(start);
        }
        while index != 0
            invariant
                index < self@.len(),
                self@.len() == old(self)@.len(),
                self@.to_multiset() == old(self)@.to_multiset(),
                heap_except_up(self@, index as int),
                forall|c: int|
                    1 <= c < self@.len() && parent(c) == index && index != 0 ==> self@[parent(
                        index as int,
                    )].0 <= (#[trigger] self@[c]).0,
                0 <= start < self@.len(),
                on_root_path(index as int, start),
                forall|i: int|
                    0 <= i < self@.len() && !on_root_path(i, start) ==> self@[i] == old(self)@[i],
            decreases index,
        {
            let ghost s = self@;
            let parent_index = (index - 1) / 2;
            proof {
                assert(parent_index == parent(index as int));
                lemma_root_path_parent(index as int, start);
            }
            if self.data[index].0 < self.data[parent_index].0 {
                self.swap_entries(parent_index, index);
                proof {
                    lemma_swap_entry_multiset(s, parent_index as int, index as int);
                    assert forall|i: int|
                        0 <= i < self@.len() && !on_root_path(i, start) implies self@[i] == old(
                        self,
                    )@[i] by {
                        assert(i != index && i != parent_index);
                        assert(self@[i] == s[i]);
                    }
                    let t = self@;
                    assert forall|i: int|
                        1 <= i < t.len() && i != parent_index implies t[parent(i)].0 <= (
                    #[trigger] t[i]).0 by {
                        let p = parent(i);
                        if i == index {
                            assert(t[i] == s[parent_index as int]);
                            assert(t[p] == s[index as int]);
                        } else if p == index {
                            assert(t[i] == s[i]);
                            assert(t[p] == s[parent_index as int]);
                            assert(s[parent(index as int)].0 <= s[i].0);
                        } else if p == parent_index {
                            assert(t[i] == s[i]);
                            assert(t[p] == s[index as int]);
                            assert(s[index as int].0 < s[parent_index as int].0);
                            assert(s[p].0 <= s[i].0);
                        } else {
                            assert(t[i] == s[i]);
                            assert(t[p] == s[p]);
                        }
                    }
                    assert forall|c: int|
                        1 <= c < t.len() && parent(c) == parent_index && parent_index != 0 implies
                        t[parent(parent_index as int)].0 <= (#[trigger] t[c]).0 by {
                        let gp = parent(parent_index as int);
                        assert(0 <= gp < parent_index);
                        assert(t[gp] == s[gp]);
                        assert(s[gp].0 <= s[parent_index as int].0);
                        if c == index {
                            assert(t[c] == s[parent_index as int]);
                        } else {
                            assert(t[c] == s[c]);
                            assert(s[parent_index as int].0 <= s[c].0);
                        }
                    }
                }
            } else {
                proof {
                    let t = self@;
                    assert(t[parent_index as int].0 <= t[index as int].0);
                    assert forall|i: int|
                        1 <= i < t.len() && i != parent_index implies t[parent(i)].0 <= (
                    #[trigger] t[i]).0 by {}
                    assert forall|c: int|
                        1 <= c < t.len() && parent(c) == parent_index && parent_index != 0 implies
                        t[parent(parent_index as int)].0 <= (#[trigger] t[c]).0 by {
                        let gp = parent(parent_index as int);
                        assert(t[gp].0 <= t[parent_index as int].0);
                        if c != index {
                            assert(t[parent_index as int].0 <= t[c].0);
                        }
                    }
                }
            }
            index = parent_index;
        }
    }

    /// Restores the heap ordering by walking from `index` downward,
    /// swapping each slot with its smaller child while one is smaller;
    /// slots outside the subtree rooted at `index` are untouched.
    #[verifier::rlimit(60)]
    fn heapify_down(&mut self, index: usize)
        requires
            heap_except_down(old(self)@, index as int),
            index != 0 ==> index < old(self)@.len(),
            // the parent of `index` already bounds the children of `index`
            forall|c: int|
                1 <= c < old(self)@.len() && parent(c) == index && index != 0 ==> old(self)@[parent(
                    index as int,
                )].0 <= (#[trigger] old(self)@[c]).0,
        ensures
            final(self).wf(),
            final(self)@.len() == old(self)@.len(),
            final(self)@.to_multiset() == old(self)@.to_multiset(),
            // only slots in the subtree rooted at `index` are moved
            forall|i: int|
                0 <= i < old(self)@.len() && !on_root_path(index as int, i) ==> final(self)@[i]
                    == old(self)@[i],
    {
        let ghost start = index as int;
        let mut index = index;
        proof {
            lemma_root_path_refl(start);
        }
        let length = self.data.len();
        loop
            invariant_except_break
                length == self@.len(),
                self@.len() == old(self)@.len(),
                self@.to_multiset() == old(self)@.to_multiset(),
                heap_except_down(self@, index as int),
                index != 0 ==> index < self@.len(),
                forall|c: int|
                    1 <= c < self@.len() && parent(c) == index && index != 0 ==> self@[parent(
                        index as int,
                    )].0 <= (#[trigger] self@[c]).0,
                start >= 0,
                on_root_path(start, index as int),
                forall|i: int|
                    0 <= i < self@.len() && !on_root_path(start, i) ==> self@[i] == old(self)@[i],
            ensures
                self@.len() == old(self)@.len(),
                self@.to_multiset() == old(self)@.to_multiset(),
                is_min_heap(self@),
                forall|i: int|
                    0 <= i < self@.len() && !on_root_path(start, i) ==> self@[i] == old(self)@[i],
            decreases length - index,
        {
            if index >= length / 2 {
                // no children: the exemption at `index` is vacuous
                proof {
                    assert forall|i: int| 1 <= i < self@.len() implies self@[parent(i)].0 <= (
                    #[trigger] self@[i]).0 by {
                        assert(parent(i) == index as int ==> i >= 2 * index + 1);
                        assert(2 * index + 1 >= length);
                    }
                }
                break ;
            }
            let left_child = 2 * index + 1;
            let right_child = 2 * index + 2;
            let mut smallest = index;
            if left_child < length && self.data[left_child].0 < self.data[smallest].0 {
                smallest = left_child;
            }
            if right_child < length && self.data[right_child].0 < self.data[smallest].0 {
                smallest = right_child;
            }
            if smallest != index {
                let ghost s = self@;
                self.swap_entries(index, smallest);
                proof {
                    lemma_swap_entry_multiset(s, index as int, smallest as int);
                    assert(parent(smallest as int) == index as int);
                    assert(on_root_path(start, smallest as int));
                    assert forall|i: int|
                        0 <= i < self@.len() && !on_root_path(start, i) implies self@[i] == old(
                        self,
                    )@[i] by {
                        assert(i != index && i != smallest);
                        assert(self@[i] == s[i]);
                    }
                    let t = self@;
                    assert forall|i: int|
                        1 <= i < t.len() && parent(i) != smallest implies t[parent(i)].0 <= (
                    #[trigger] t[i]).0 by {
                        let p = parent(i);
                        if i == smallest {
                            assert(t[i] == s[index as int]);
                            assert(t[p] == s[smallest as int]);
                        } else if i == index {
                            assert(p != index && p != smallest);
                            assert(t[i] == s[smallest as int]);
                            assert(t[p] == s[p]);
                            assert(1 <= index);
                            assert(smallest == 2 * index + 1 || smallest == 2 * index + 2);
                            assert(s[p].0 <= s[smallest as int].0);
                        } else if p == index {
                            assert(t[i] == s[i]);
                            assert(t[p] == s[smallest as int]);
                            assert(i == 2 * index + 1 || i == 2 * index + 2);
                            assert(s[smallest as int].0 <= s[i].0);
                        } else {
                            assert(t[i] == s[i]);
                            assert(t[p] == s[p]);
                        }
                    }
                    assert forall|i: int|
                        1 <= i < t.len() && parent(i) == smallest implies t[parent(
                        smallest as int,
                    )].0 <= (#[trigger] t[i]).0 by {
                        assert(t[i] == s[i]);
                        assert(t[parent(smallest as int)] == t[index as int]);
                        assert(t[index as int] == s[smallest as int]);
                        assert(s[smallest as int].0 <= s[i].0);
                    }
                }
                index = smallest;
            } else {
                proof {
                    assert forall|i: int| 1 <= i < self@.len() implies self@[parent(i)].0 <= (
                    #[trigger] self@[i]).0 by {
                        if parent(i) == index as int {
                            assert(i == 2 * index + 1 || i == 2 * index + 2);
                        }
                    }
                }
                break ;
            }
        }
    }
}

/// Swapping two slots of a sequence leaves its multiset unchanged.
proof fn lemma_swap_entry_multiset<T>(s: Seq<(u64, T)>, i: int, j: int)
    requires
        0 <= i < s.len(),
        0 <= j < s.len(),
    ensures
        s.update(i, s[j]).update(j, s[i]).to_multiset() == s.to_multiset(),
{
    broadcast use vstd::seq_lib::group_to_multiset_ensures;
    broadcast use vstd::seq_lib::to_multiset_update;

    if i != j {
        let t1 = s.update(i, s[j]);
        let t2 = t1.update(j, s[i]);
        assert(t1.to_multiset() == s.to_multiset().insert(s[j]).remove(s[i]));
        assert(t1[j] == s[j]);
        assert(t2.to_multiset() == t1.to_multiset().insert(s[i]).remove(s[j]));
        assert(s.to_multiset().contains(s[i]));
        assert(t2.to_multiset() =~= s.to_multiset());
    } else {
        assert(s.update(i, s[j]).update(j, s[i]) =~= s);
    }
}


/// An element known to be in a sequence's multiset sits at some index.
pub(crate) proof fn lemma_multiset_index<T>(h: Seq<(u64, T)>, x: (u64, T))
    requires
        h.to_multiset().contains(x),
    ensures
        exists|j: int| 0 <= j < h.len() && h[j] == x,
{
    broadcast use vstd::seq_lib::group_to_multiset_ensures;

    assert(h.contains(x));
}

/// After removing one occurrence of `e`, every element of the remainder
/// was already present, and every other element is still present.
pub(crate) proof fn lemma_mem_after_remove<T>(h_old: Seq<(u64, T)>, h_new: Seq<(u64, T)>, e: (
    u64,
    T,
))
    requires
        h_old.to_multiset() == h_new.to_multiset().insert(e),
    ensures
        forall|i: int| 0 <= i < h_new.len() ==> h_old.contains(#[trigger] h_new[i]),
        forall|x: (u64, T)|
            x != e && h_old.to_multiset().contains(x) ==> h_new.to_multiset().contains(x),
{
    broadcast use vstd::seq_lib::group_to_multiset_ensures;

    assert forall|i: int| 0 <= i < h_new.len() implies h_old.contains(#[trigger] h_new[i]) by {
        assert(h_new.contains(h_new[i]));
        assert(h_new.to_multiset().contains(h_new[i]));
        assert(h_old.to_multiset().count(h_new[i]) >= h_new.to_multiset().count(h_new[i]));
        assert(h_old.contains(h_new[i]));
    }
}

/// After inserting `e`, every element of the result was already present or
/// is `e`, and everything previously present is still present.
pub(crate) proof fn lemma_mem_after_insert<T>(h_old: Seq<(u64, T)>, h_new: Seq<(u64, T)>, e: (
    u64,
    T,
))
    requires
        h_new.to_multiset() == h_old.to_multiset().insert(e),
    ensures
        forall|i: int|
            0 <= i < h_new.len() ==> h_old.contains(#[trigger] h_new[i]) || h_new[i] == e,
        forall|x: (u64, T)| h_old.to_multiset().contains(x) ==> h_new.to_multiset().contains(x),
        h_new.to_multiset().contains(e),
{
    broadcast use vstd::seq_lib::group_to_multiset_ensures;

    assert forall|i: int|
        0 <= i < h_new.len() implies h_old.contains(#[trigger] h_new[i]) || h_new[i] == e by {
        assert(h_new.contains(h_new[i]));
        assert(h_new.to_multiset().contains(h_new[i]));
        if h_new[i] != e {
            assert(h_old.to_multiset().count(h_new[i]) == h_new.to_multiset().count(h_new[i]));
            assert(h_old.contains(h_new[i]));
        }
    }
}

/// Two pops in a row never see the priority decrease: `e1` came out of a
/// heap holding `first`, leaving `second`, and `e2` came out of `second`.
pub proof fn lemma_pop_priorities_nondecreasing<T>(
    first: Seq<(u64, T)>,
    second: Seq<(u64, T)>,
    e1: (u64, T),
    e2: (u64, T),
)
    requires
        first.to_multiset() == second.to_multiset().insert(e1),
        forall|i: int| 0 <= i < first.len() ==> e1.0 <= (#[trigger] first[i]).0,
        second.to_multiset().contains(e2),
    ensures
        e1.0 <= e2.0,
{
    broadcast use vstd::seq_lib::group_to_multiset_ensures;

    assert(first.to_multiset().contains(e2));
    assert(first.contains(e2));
    let i = choose|i: int| 0 <= i < first.len() && first[i] == e2;
    assert(e1.0 <= first[i].0);
}

} // verus!
