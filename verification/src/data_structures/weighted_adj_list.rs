use vstd::prelude::*;

verus! {

/// Looks up `to` in an edge list; the first matching entry wins.
pub open spec fn find_edge(es: Seq<(usize, u64)>, to: int) -> Option<u64>
    decreases es.len(),
{
    if es.len() == 0 {
        None
    } else if es[0].0 == to {
        Some(es[0].1)
    } else {
        find_edge(es.drop_first(), to)
    }
}

/// No two entries of the edge list name the same target vertex.
pub open spec fn distinct_targets(es: Seq<(usize, u64)>) -> bool {
    forall|i: int, j: int| 0 <= i < j < es.len() ==> es[i].0 != es[j].0
}

/// How many entries of `s` are `true`.
spec fn count_true(s: Seq<bool>) -> int
    decreases s.len(),
{
    if s.len() == 0 {
        0
    } else {
        count_true(s.drop_last()) + if s.last() {
            1int
        } else {
            0int
        }
    }
}

proof fn lemma_count_true_le(s: Seq<bool>)
    ensures
        0 <= count_true(s) <= s.len(),
    decreases s.len(),
{
    if s.len() > 0 {
        lemma_count_true_le(s.drop_last());
    }
}

proof fn lemma_count_true_push(s: Seq<bool>, b: bool)
    ensures
        count_true(s.push(b)) == count_true(s) + if b {
            1int
        } else {
            0int
        },
{
    assert(s.push(b).drop_last() =~= s);
}

proof fn lemma_count_true_update(s: Seq<bool>, i: int)
    requires
        0 <= i < s.len(),
        !s[i],
    ensures
        count_true(s.update(i, true)) == count_true(s) + 1,
    decreases s.len(),
{
    let t = s.update(i, true);
    if i == s.len() - 1 {
        assert(t.drop_last() =~= s.drop_last());
    } else {
        assert(t.drop_last() =~= s.drop_last().update(i, true));
        lemma_count_true_update(s.drop_last(), i);
    }
}

proof fn lemma_count_true_lt(s: Seq<bool>, i: int)
    requires
        0 <= i < s.len(),
        !s[i],
    ensures
        count_true(s) < s.len(),
{
    lemma_count_true_update(s, i);
    lemma_count_true_le(s.update(i, true));
}

/// Under distinct targets, looking up the target of entry `i` yields that
/// entry's weight.
proof fn lemma_find_edge_present(es: Seq<(usize, u64)>, i: int)
    requires
        0 <= i < es.len(),
        distinct_targets(es),
    ensures
        find_edge(es, es[i].0 as int) == Some(es[i].1),
    decreases es.len(),
{
    if i > 0 {
        assert(es[0].0 != es[i].0);
        assert(es.drop_first()[i - 1] == es[i]);
        lemma_find_edge_present(es.drop_first(), i - 1);
    }
}

/// A target named by no entry is not found.
proof fn lemma_find_edge_absent(es: Seq<(usize, u64)>, to: int)
    requires
        forall|i: int| 0 <= i < es.len() ==> es[i].0 != to,
    ensures
        find_edge(es, to) is None,
    decreases es.len(),
{
    if es.len() > 0 {
        lemma_find_edge_absent(es.drop_first(), to);
    }
}

/// A successful lookup names an actual entry.
proof fn lemma_find_edge_some_exists(es: Seq<(usize, u64)>, to: int)
    requires
        find_edge(es, to) is Some,
    ensures
        exists|i: int|
            0 <= i < es.len() && es[i].0 == to && es[i].1 == find_edge(es, to)->Some_0,
    decreases es.len(),
{
    if es.len() > 0 && es[0].0 != to {
        lemma_find_edge_some_exists(es.drop_first(), to);
        let j = choose|j: int|
            0 <= j < es.drop_first().len() && es.drop_first()[j].0 == to && es.drop_first()[j].1
                == find_edge(es.drop_first(), to)->Some_0;
        assert(es[j + 1] == es.drop_first()[j]);
    }
}

/// Two edge lists with the same targets and weights at shared targets agree
/// on every lookup; stated here for an update at one position.
proof fn lemma_find_edge_update(es: Seq<(usize, u64)>, k: int, to: usize, w: u64)
    requires
        0 <= k < es.len(),
        es[k].0 == to,
        distinct_targets(es),
    ensures
        distinct_targets(es.update(k, (to, w))),
        find_edge(es.update(k, (to, w)), to as int) == Some(w),
        forall|v: int| v != to ==> find_edge(es.update(k, (to, w)), v) == find_edge(es, v),
{
    let t = es.update(k, (to, w));
    assert(forall|i: int| 0 <= i < es.len() ==> t[i].0 == es[i].0);
    lemma_find_edge_present(t, k);
    assert forall|v: int| v != to implies find_edge(t, v) == find_edge(es, v) by {
        if find_edge(es, v) is Some {
            lemma_find_edge_some_exists(es, v);
            let i = choose|i: int|
                0 <= i < es.len() && es[i].0 == v && es[i].1 == find_edge(es, v)->Some_0;
            assert(t[i] == es[i]);
            lemma_find_edge_present(t, i);
        } else {
            if find_edge(t, v) is Some {
                lemma_find_edge_some_exists(t, v);
                let i = choose|i: int| 0 <= i < t.len() && t[i].0 == v && t[i].1 == find_edge(t, v)->Some_0;
                lemma_find_edge_present(es, i);
            }
        }
    }
}

/// Appending an entry with a fresh target makes that target found and leaves
/// every other lookup unchanged.
proof fn lemma_find_edge_push(es: Seq<(usize, u64)>, to: usize, w: u64)
    requires
        distinct_targets(es),
        forall|i: int| 0 <= i < es.len() ==> es[i].0 != to,
    ensures
        distinct_targets(es.push((to, w))),
        find_edge(es.push((to, w)), to as int) == Some(w),
        forall|v: int| v != to ==> find_edge(es.push((to, w)), v) == find_edge(es, v),
{
    let t = es.push((to, w));
    assert(forall|i: int| 0 <= i < es.len() ==> t[i] == es[i]);
    assert(t[es.len() as int].0 == to);
    lemma_find_edge_present(t, es.len() as int);
    assert forall|v: int| v != to implies find_edge(t, v) == find_edge(es, v) by {
        if find_edge(es, v) is Some {
            lemma_find_edge_some_exists(es, v);
            let i = choose|i: int|
                0 <= i < es.len() && es[i].0 == v && es[i].1 == find_edge(es, v)->Some_0;
            lemma_find_edge_present(t, i);
        } else {
            if find_edge(t, v) is Some {
                lemma_find_edge_some_exists(t, v);
                let i = choose|i: int| 0 <= i < t.len() && t[i].0 == v && t[i].1 == find_edge(t, v)->Some_0;
                assert(i < es.len());
                lemma_find_edge_present(es, i);
            }
        }
    }
}

/// A directed graph with non-negative integer edge weights, stored as an
/// adjacency list indexed by `usize` vertex id.  A vertex id may be any
/// `usize`; ids that were never added are simply absent.
#[derive(Clone)]
pub struct WeightedAdjacencyList {
    present: Vec<bool>,
    edges: Vec<Vec<(usize, u64)>>,
    count: usize,
}

impl WeightedAdjacencyList {
    /// All vertex ids lie below this bound.
    pub closed spec fn id_space(self) -> int {
        self.present@.len() as int
    }

    /// The vertex `v` has been added to the graph.
    pub closed spec fn contains_vertex(self, v: int) -> bool {
        0 <= v < self.present@.len() && self.present@[v]
    }

    /// The edge list of vertex `v`.
    pub closed spec fn adj(self, v: int) -> Seq<(usize, u64)> {
        self.edges@[v]@
    }

    /// The weight of the directed edge from `u` to `v`, if that edge exists.
    pub closed spec fn edge_weight(self, u: int, v: int) -> Option<u64> {
        if self.contains_vertex(u) {
            find_edge(self.adj(u), v)
        } else {
            None
        }
    }

    /// The directed edge from `u` to `v` exists.
    pub open spec fn has_edge(self, u: int, v: int) -> bool {
        self.edge_weight(u, v) is Some
    }

    /// The number of distinct vertices stored.
    pub closed spec fn vertex_count(self) -> int {
        self.count as int
    }

    /// Internal consistency: the two columns line up, the stored count is
    /// the number of present vertices, and every edge list has distinct
    /// targets, all of which are vertices of the graph.
    pub closed spec fn wf(self) -> bool {
        &&& self.edges@.len() == self.present@.len()
        &&& self.count as int == count_true(self.present@)
        &&& forall|v: int|
            0 <= v < self.present@.len() && !self.present@[v] ==> (#[trigger] self.adj(v)).len()
                == 0
        &&& forall|v: int|
            #[trigger] self.contains_vertex(v) ==> distinct_targets(self.adj(v))
        &&& forall|v: int, i: int|
            self.contains_vertex(v) && 0 <= i < self.adj(v).len() ==> self.contains_vertex(
                #[trigger] self.adj(v)[i].0 as int,
            )
    }

    /// A vertex of the graph lies inside the id space.
    pub proof fn lemma_contains_vertex_bounds(self, v: int)
        requires
            self.contains_vertex(v),
        ensures
            0 <= v < self.id_space(),
    {
    }

    /// Both endpoints of an edge are vertices of the graph.
    pub proof fn lemma_edge_endpoints(self, u: int, v: int)
        requires
            self.wf(),
            self.has_edge(u, v),
        ensures
            self.contains_vertex(u),
            self.contains_vertex(v),
            0 <= v < self.id_space(),
    {
        lemma_find_edge_some_exists(self.adj(u), v);
        let i = choose|i: int|
            0 <= i < self.adj(u).len() && self.adj(u)[i].0 == v && self.adj(u)[i].1 == find_edge(
                self.adj(u),
                v,
            )->Some_0;
        assert(self.contains_vertex(self.adj(u)[i].0 as int));
    }

    /// Creates an empty graph.
    pub fn new() -> (g: Self)
        ensures
            g.wf(),
            g.id_space() == 0,
            g.vertex_count() == 0,
            forall|v: int| !g.contains_vertex(v),
            forall|u: int, v: int| g.edge_weight(u, v) is None,
    {
        WeightedAdjacencyList { present: Vec::new(), edges: Vec::new(), count: 0 }
    }

    /// Adds `vertex` with no outgoing edges; adding an existing vertex
    /// changes nothing.
    pub fn add_vertex(&mut self, vertex: usize)
        requires
            old(self).wf(),
        ensures
            final(self).wf(),
            final(self).contains_vertex(vertex as int),
            forall|v: int|
                v != vertex ==> final(self).contains_vertex(v) == old(self).contains_vertex(v),
            forall|u: int, v: int| final(self).edge_weight(u, v) == old(self).edge_weight(u, v),
            final(self).vertex_count() == old(self).vertex_count() + if old(
                self,
            ).contains_vertex(vertex as int) {
                0int
            } else {
                1int
            },
            final(self).id_space() >= old(self).id_space(),
            vertex < final(self).id_space(),
    {
        while self.present.len() <= vertex
            invariant
                old(self).wf(),
                self.wf(),
                self.count == old(self).count,
                old(self).present@.len() <= self.present@.len(),
                forall|v: int|
                    #[trigger] self.contains_vertex(v) == old(self).contains_vertex(v),
                forall|v: int|
                    0 <= v < old(self).edges@.len() ==> self.edges@[v] == old(self).edges@[v],
            decreases vertex + 1 - self.present.len(),
        {
            let ghost prev = *self;
            self.present.push(false);
            self.edges.push(Vec::new());
            proof {
                lemma_count_true_push(prev.present@, false);
                assert forall|v: int| #[trigger] self.contains_vertex(v)
                    == prev.contains_vertex(v) by {
                    if 0 <= v < prev.present@.len() {
                        assert(self.present@[v] == prev.present@[v]);
                    } else if v == prev.present@.len() {
                        assert(!self.present@[v]);
                    }
                }
                assert forall|v: int|
                    0 <= v < self.present@.len() && !self.present@[v] implies (#[trigger] self.adj(
                    v,
                )).len() == 0 by {
                    if v < prev.present@.len() {
                        assert(self.adj(v) == prev.adj(v));
                    }
                }
                assert forall|v: int| #[trigger] self.contains_vertex(v) implies distinct_targets(
                    self.adj(v),
                ) by {
                    assert(prev.contains_vertex(v));
                    assert(self.adj(v) == prev.adj(v));
                }
                assert forall|v: int, i: int|
                    self.contains_vertex(v) && 0 <= i < self.adj(v).len() implies self
                    .contains_vertex(#[trigger] self.adj(v)[i].0 as int) by {
                    assert(prev.contains_vertex(v));
                    assert(self.adj(v) == prev.adj(v));
                    assert(prev.contains_vertex(prev.adj(v)[i].0 as int));
                }
            }
        }
        let ghost padded = *self;
        if !self.present[vertex] {
            proof {
                lemma_count_true_lt(self.present@, vertex as int);
            }
            self.present.set(vertex, true);
            self.count = self.count + 1;
            proof {
                lemma_count_true_update(padded.present@, vertex as int);
            }
        }
        proof {
            if old(self).contains_vertex(vertex as int) {
                assert(padded.contains_vertex(vertex as int));
                assert(padded.present@[vertex as int]);
            } else {
                assert(!padded.contains_vertex(vertex as int));
                assert(!padded.present@[vertex as int]);
            }
            assert(self.edges@ == padded.edges@);
            assert forall|v: int|
                v != vertex implies #[trigger] self.contains_vertex(v) == padded.contains_vertex(
                v,
            ) by {}
            assert(self.wf()) by {
                assert forall|v: int|
                    0 <= v < self.present@.len() && !self.present@[v] implies (#[trigger] self.adj(
                    v,
                )).len() == 0 by {
                    assert(!padded.present@[v]);
                    assert(self.adj(v) == padded.adj(v));
                }
                assert forall|v: int| #[trigger] self.contains_vertex(v) implies distinct_targets(
                    self.adj(v),
                ) by {
                    if v == vertex && !padded.contains_vertex(v) {
                        assert(!padded.present@[v]);
                        assert(padded.adj(v).len() == 0);
                        assert(self.adj(v) == padded.adj(v));
                    } else {
                        assert(padded.contains_vertex(v));
                        assert(self.adj(v) == padded.adj(v));
                    }
                }
                assert forall|v: int, i: int|
                    self.contains_vertex(v) && 0 <= i < self.adj(v).len() implies self
                    .contains_vertex(#[trigger] self.adj(v)[i].0 as int) by {
                    if v == vertex && !padded.contains_vertex(v) {
                        assert(!padded.present@[v]);
                        assert(padded.adj(v).len() == 0);
                        assert(self.adj(v) == padded.adj(v));
                    } else {
                        assert(padded.contains_vertex(v));
                        assert(self.adj(v) == padded.adj(v));
                        assert(padded.contains_vertex(padded.adj(v)[i].0 as int));
                    }
                }
            }
            assert forall|u: int, v: int| true implies #[trigger] self.edge_weight(u, v) == old(
                self,
            ).edge_weight(u, v) by {
                if self.contains_vertex(u) {
                    if u == vertex && !old(self).contains_vertex(u) {
                        assert(!padded.present@[u]);
                        assert(padded.adj(u).len() == 0);
                        assert(self.adj(u) == padded.adj(u));
                        assert(self.adj(u) =~= Seq::<(usize, u64)>::empty());
                        assert(find_edge(self.adj(u), v) is None);
                    } else {
                        assert(old(self).contains_vertex(u));
                        assert(self.adj(u) == old(self).adj(u));
                    }
                } else {
                    assert(!old(self).contains_vertex(u));
                }
            }
        }
    }

    /// Adds the directed edge `from -> to` with the given weight, creating
    /// both endpoints if absent; an existing edge's weight is overwritten.
    pub fn add_edge(&mut self, from: usize, to: usize, weight: u64)
        requires
            old(self).wf(),
        ensures
            final(self).wf(),
            final(self).contains_vertex(from as int),
            final(self).contains_vertex(to as int),
            forall|v: int|
                v != from && v != to ==> final(self).contains_vertex(v) == old(
                    self,
                ).contains_vertex(v),
            final(self).edge_weight(from as int, to as int) == Some(weight),
            forall|u: int, v: int|
                !(u == from && v == to) ==> final(self).edge_weight(u, v) == old(
                    self,
                ).edge_weight(u, v),
            final(self).vertex_count() == old(self).vertex_count() + (if old(
                self,
            ).contains_vertex(from as int) {
                0int
            } else {
                1int
            }) + (if old(self).contains_vertex(to as int) || to == from {
                0int
            } else {
                1int
            }),
    {
        self.add_vertex(from);
        self.add_vertex(to);
        let ghost pre = *self;
        let k = find_target(&self.edges[from], to);
        match k {
            Some(k) => {
                let es = &mut self.edges[from];
                es.set(k, (to, weight));
            },
            None => {
                let es = &mut self.edges[from];
                es.push((to, weight));
            },
        }
        proof {
            assert(self.present@ == pre.present@);
            assert(forall|v: int|
                v != from ==> 0 <= v < self.edges@.len() ==> self.edges@[v] == pre.edges@[v]);
            assert(distinct_targets(pre.adj(from as int)));
            match k {
                Some(k) => {
                    lemma_find_edge_update(pre.adj(from as int), k as int, to, weight);
                    assert(self.adj(from as int) =~= pre.adj(from as int).update(
                        k as int,
                        (to, weight),
                    ));
                },
                None => {
                    lemma_find_edge_push(pre.adj(from as int), to, weight);
                    assert(self.adj(from as int) =~= pre.adj(from as int).push((to, weight)));
                },
            }
            // what the rewritten edge list of `from` satisfies
            assert(distinct_targets(self.adj(from as int)));
            assert(find_edge(self.adj(from as int), to as int) == Some(weight));
            assert(forall|v: int|
                v != to ==> find_edge(self.adj(from as int), v) == find_edge(
                    pre.adj(from as int),
                    v,
                ));
            assert forall|i: int| 0 <= i < self.adj(from as int).len() implies pre.contains_vertex(
                #[trigger] self.adj(from as int)[i].0 as int,
            ) by {
                if i < pre.adj(from as int).len() && self.adj(from as int)[i] == pre.adj(
                    from as int,
                )[i] {
                    assert(pre.contains_vertex(pre.adj(from as int)[i].0 as int));
                } else {
                    assert(self.adj(from as int)[i].0 == to);
                }
            }
            assert forall|u: int, v: int| !(u == from && v == to) implies #[trigger] self
                .edge_weight(u, v) == pre.edge_weight(u, v) by {
                if u != from {
                    if self.contains_vertex(u) {
                        assert(self.adj(u) == pre.adj(u));
                    }
                }
            }
            assert(final(self).wf()) by {
                assert forall|v: int|
                    0 <= v < self.present@.len() && !self.present@[v] implies (#[trigger] self.adj(
                    v,
                )).len() == 0 by {
                    assert(v != from);
                    assert(self.adj(v) == pre.adj(v));
                    assert(!pre.present@[v]);
                    assert(pre.adj(v).len() == 0);
                }
                assert forall|v: int| #[trigger] self.contains_vertex(v) implies distinct_targets(
                    self.adj(v),
                ) by {
                    if v != from {
                        assert(pre.contains_vertex(v));
                        assert(distinct_targets(pre.adj(v)));
                        assert(self.adj(v) == pre.adj(v));
                    }
                }
                assert forall|v: int, i: int|
                    self.contains_vertex(v) && 0 <= i < self.adj(v).len() implies self
                    .contains_vertex(#[trigger] self.adj(v)[i].0 as int) by {
                    if v != from {
                        assert(pre.contains_vertex(v));
                        assert(self.adj(v) == pre.adj(v));
                        assert(pre.contains_vertex(pre.adj(v)[i].0 as int));
                    } else {
                        assert(pre.contains_vertex(self.adj(from as int)[i].0 as int));
                    }
                }
            }
        }
    }

    /// Returns the weight of the edge `from -> to`, or `None` when either
    /// endpoint or the edge itself is absent.
    pub fn get_weight(&self, from: usize, to: usize) -> (r: Option<u64>)
        requires
            self.wf(),
        ensures
            r == self.edge_weight(from as int, to as int),
    {
        if from >= self.present.len() {
            proof {
                lemma_find_edge_absent(Seq::<(usize, u64)>::empty(), to as int);
            }
            return None;
        }
        if !self.present[from] {
            return None;
        }
        let k = find_target(&self.edges[from], to);
        match k {
            Some(k) => {
                proof {
                    lemma_find_edge_present(self.adj(from as int), k as int);
                }
                Some(self.edges[from][k].1)
            },
            None => {
                proof {
                    lemma_find_edge_absent(self.adj(from as int), to as int);
                }
                None
            },
        }
    }

    /// Returns the edge list of `vertex`: each entry pairs a neighbor with
    /// the weight of the edge to it, every outgoing edge appears exactly
    /// once, and every listed neighbor is a vertex of the graph.
    pub fn get_neighbors(&self, vertex: usize) -> (r: Option<&Vec<(usize, u64)>>)
        requires
            self.wf(),
        ensures
            match r {
                Some(es) => {
                    &&& self.contains_vertex(vertex as int)
                    &&& es@ == self.adj(vertex as int)
                    &&& distinct_targets(es@)
                    &&& forall|i: int|
                        0 <= i < es@.len() ==> self.edge_weight(
                            vertex as int,
                            #[trigger] es@[i].0 as int,
                        ) == Some(es@[i].1)
                    &&& forall|i: int|
                        0 <= i < es@.len() ==> self.contains_vertex(#[trigger] es@[i].0 as int)
                    &&& forall|v: int|
                        self.edge_weight(vertex as int, v) is Some ==> exists|i: int|
                            0 <= i < es@.len() && (#[trigger] es@[i]).0 == v
                },
                None => !self.contains_vertex(vertex as int),
            },
    {
        if vertex >= self.present.len() {
            return None;
        }
        if !self.present[vertex] {
            return None;
        }
        proof {
            assert forall|i: int| 0 <= i < self.adj(vertex as int).len() implies self.edge_weight(
                vertex as int,
                #[trigger] self.adj(vertex as int)[i].0 as int,
            ) == Some(self.adj(vertex as int)[i].1) by {
                lemma_find_edge_present(self.adj(vertex as int), i);
            }
            assert forall|v: int| self.edge_weight(vertex as int, v) is Some implies exists|i: int|
                0 <= i < self.adj(vertex as int).len() && (#[trigger] self.adj(vertex as int)[i]).0
                    == v by {
                lemma_find_edge_some_exists(self.adj(vertex as int), v);
            }
        }
        Some(&self.edges[vertex])
    }

    /// The number of distinct vertices stored.
    pub fn len(&self) -> (r: usize)
        ensures
            r as int == self.vertex_count(),
    {
        self.count
    }

    /// An exclusive upper bound on the vertex ids of this graph.
    pub(crate) fn id_bound(&self) -> (r: usize)
        ensures
            r as int == self.id_space(),
    {
        self.present.len()
    }
}

/// A padded sequence of `false` values at the end changes no count.
proof fn lemma_count_true_padding(s: Seq<bool>, t: Seq<bool>)
    requires
        s.len() <= t.len(),
        t =~= s + Seq::new((t.len() - s.len()) as nat, |i: int| false),
    ensures
        count_true(t) == count_true(s),
    decreases t.len() - s.len(),
{
    if t.len() > s.len() {
        let t1 = t.drop_last();
        assert(t1 =~= s + Seq::new((t1.len() - s.len()) as nat, |i: int| false));
        assert(!t.last());
        lemma_count_true_padding(s, t1);
    } else {
        assert(t =~= s);
    }
}

/// Scans an edge list for an entry whose target is `to`.
fn find_target(es: &Vec<(usize, u64)>, to: usize) -> (r: Option<usize>)
    ensures
        match r {
            Some(k) => k < es@.len() && es@[k as int].0 == to,
            None => forall|i: int| 0 <= i < es@.len() ==> es@[i].0 != to,
        },
{
    let mut k: usize = 0;
    while k < es.len()
        invariant
            k <= es@.len(),
            forall|i: int| 0 <= i < k ==> es@[i].0 != to,
        decreases es@.len() - k,
    {
        if es[k].0 == to {
            return Some(k);
        }
        k = k + 1;
    }
    None
}

} // verus!
