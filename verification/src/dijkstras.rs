use vstd::prelude::*;

verus! {

use crate::data_structures::weighted_adj_list::WeightedAdjacencyList;
use crate::min_heap::{MinHeap, lemma_multiset_index, lemma_mem_after_remove, lemma_mem_after_insert};

/// `v` is a vertex of `g`.
pub open spec fn has_v(g: WeightedAdjacencyList, v: usize) -> bool {
    g.contains_vertex(v as int)
}

/// The weight of the edge `u -> v`, if it exists.
pub open spec fn edge_w(g: WeightedAdjacencyList, u: usize, v: usize) -> Option<u64> {
    g.edge_weight(u as int, v as int)
}

/// The edge `u -> v` exists in `g`.
pub open spec fn has_e(g: WeightedAdjacencyList, u: usize, v: usize) -> bool {
    edge_w(g, u, v) is Some
}

/// The weight of the edge `u -> v` as a mathematical integer.
pub open spec fn w_of(g: WeightedAdjacencyList, u: usize, v: usize) -> int {
    edge_w(g, u, v)->Some_0 as int
}

/// `p` is a walk in `g`: nonempty, over vertices of `g`, and every
/// consecutive pair is joined by a directed edge.
pub open spec fn is_path(g: WeightedAdjacencyList, p: Seq<usize>) -> bool {
    &&& p.len() >= 1
    &&& forall|i: int| 0 <= i < p.len() ==> has_v(g, #[trigger] p[i])
    &&& forall|i: int| 0 <= i < p.len() - 1 ==> has_e(g, #[trigger] p[i], p[i + 1])
}

/// The total weight of the walk `p`.
pub open spec fn path_cost(g: WeightedAdjacencyList, p: Seq<usize>) -> int
    decreases p.len(),
{
    if p.len() <= 1 {
        0
    } else {
        w_of(g, p[0], p[1]) + path_cost(g, p.drop_first())
    }
}

/// `p` is a walk in `g` from `s` to `t`.
pub open spec fn connects(g: WeightedAdjacencyList, p: Seq<usize>, s: usize, t: usize) -> bool {
    is_path(g, p) && p[0] == s && p[p.len() - 1] == t
}

/// Some walk from `s` to `t` costs exactly `c`.
pub open spec fn reaches(g: WeightedAdjacencyList, s: usize, t: usize, c: int) -> bool {
    exists|p: Seq<usize>| connects(g, p, s, t) && path_cost(g, p) == c
}

/// Every walk from `s` to `t` costs at least `c`.
pub open spec fn lower_bound_ok(g: WeightedAdjacencyList, s: usize, t: usize, c: int) -> bool {
    forall|p: Seq<usize>| connects(g, p, s, t) ==> path_cost(g, p) >= c
}

/// `c` is the least cost over all walks from `s` to `t`.
pub open spec fn is_min_cost(g: WeightedAdjacencyList, s: usize, t: usize, c: int) -> bool {
    reaches(g, s, t, c) && lower_bound_ok(g, s, t, c)
}

/// The least cost between two vertices is unique: any two values that are
/// both minimal over the same set of walks coincide.
pub proof fn lemma_min_cost_unique(
    g: WeightedAdjacencyList,
    s: usize,
    t: usize,
    c1: int,
    c2: int,
)
    requires
        is_min_cost(g, s, t, c1),
        is_min_cost(g, s, t, c2),
    ensures
        c1 == c2,
{
    let p1 = choose|p: Seq<usize>| connects(g, p, s, t) && path_cost(g, p) == c1;
    let p2 = choose|p: Seq<usize>| connects(g, p, s, t) && path_cost(g, p) == c2;
    assert(path_cost(g, p1) >= c2);
    assert(path_cost(g, p2) >= c1);
}

/// Chopping the first vertex off a longer walk leaves a walk, and the cost
/// splits into the first edge plus the rest.
proof fn lemma_drop_first_path(g: WeightedAdjacencyList, p: Seq<usize>)
    requires
        is_path(g, p),
        p.len() >= 2,
    ensures
        is_path(g, p.drop_first()),
        path_cost(g, p) == w_of(g, p[0], p[1]) + path_cost(g, p.drop_first()),
{
    let q = p.drop_first();
    assert forall|i: int| 0 <= i < q.len() implies has_v(g, #[trigger] q[i]) by {
        assert(q[i] == p[i + 1]);
    }
    assert forall|i: int| 0 <= i < q.len() - 1 implies has_e(g, #[trigger] q[i], q[i + 1]) by {
        assert(q[i] == p[i + 1]);
        assert(q[i + 1] == p[i + 2]);
    }
}

/// A walk never has negative cost.
proof fn lemma_path_cost_nonneg(g: WeightedAdjacencyList, p: Seq<usize>)
    requires
        is_path(g, p),
    ensures
        path_cost(g, p) >= 0,
    decreases p.len(),
{
    if p.len() >= 2 {
        lemma_drop_first_path(g, p);
        lemma_path_cost_nonneg(g, p.drop_first());
    }
}

/// Appending a vertex adds the weight of the final edge to the cost.
proof fn lemma_path_cost_push(g: WeightedAdjacencyList, p: Seq<usize>, v: usize)
    requires
        p.len() >= 1,
    ensures
        path_cost(g, p.push(v)) == path_cost(g, p) + w_of(g, p[p.len() - 1], v),
    decreases p.len(),
{
    if p.len() == 1 {
        assert(p.push(v).drop_first() =~= seq![v]);
        assert(p.push(v)[0] == p[0]);
        assert(p.push(v)[1] == v);
        assert(path_cost(g, seq![v]) == 0);
        assert(path_cost(g, p.push(v)) == w_of(g, p[0], v) + path_cost(g, seq![v]));
    } else {
        assert(p.push(v).drop_first() =~= p.drop_first().push(v));
        lemma_path_cost_push(g, p.drop_first(), v);
        assert(p.push(v)[0] == p[0]);
        assert(p.push(v)[1] == p[1]);
        assert(p.drop_first()[p.len() - 2] == p[p.len() - 1]);
        assert(path_cost(g, p.push(v)) == w_of(g, p[0], p[1]) + path_cost(
            g,
            p.drop_first().push(v),
        ));
        assert(path_cost(g, p) == w_of(g, p[0], p[1]) + path_cost(g, p.drop_first()));
    }
}

/// Extending a walk from `s` to `x` along an edge `x -> v` gives a walk
/// from `s` to `v` whose cost grows by that edge's weight.
proof fn lemma_connects_push(
    g: WeightedAdjacencyList,
    p: Seq<usize>,
    s: usize,
    x: usize,
    v: usize,
)
    requires
        connects(g, p, s, x),
        has_e(g, x, v),
        has_v(g, v),
    ensures
        connects(g, p.push(v), s, v),
        path_cost(g, p.push(v)) == path_cost(g, p) + w_of(g, x, v),
{
    let q = p.push(v);
    assert forall|i: int| 0 <= i < q.len() implies has_v(g, #[trigger] q[i]) by {
        if i < p.len() {
            assert(q[i] == p[i]);
        }
    }
    assert forall|i: int| 0 <= i < q.len() - 1 implies has_e(g, #[trigger] q[i], q[i + 1]) by {
        if i < p.len() - 1 {
            assert(q[i] == p[i]);
            assert(q[i + 1] == p[i + 1]);
        } else {
            assert(q[i] == x);
            assert(q[i + 1] == v);
        }
    }
    lemma_path_cost_push(g, p, v);
}

/// Dropping the last vertex of a longer walk from `s` leaves a walk from
/// `s` to the second-to-last vertex, and the cost splits accordingly.
proof fn lemma_drop_last_path(g: WeightedAdjacencyList, p: Seq<usize>, s: usize, t: usize)
    requires
        connects(g, p, s, t),
        p.len() >= 2,
    ensures
        connects(g, p.drop_last(), s, p[p.len() - 2]),
        path_cost(g, p) == path_cost(g, p.drop_last()) + w_of(g, p[p.len() - 2], t),
{
    let q = p.drop_last();
    assert forall|i: int| 0 <= i < q.len() implies has_v(g, #[trigger] q[i]) by {
        assert(q[i] == p[i]);
    }
    assert forall|i: int| 0 <= i < q.len() - 1 implies has_e(g, #[trigger] q[i], q[i + 1]) by {
        assert(q[i] == p[i]);
        assert(q[i + 1] == p[i + 1]);
    }
    assert(p =~= q.push(p[p.len() - 1]));
    lemma_path_cost_push(g, q, t);
}

/// Along a chain whose recorded distances grow by exactly the edge weights
/// starting from zero, the cost of each prefix equals the recorded distance
/// of its endpoint.
proof fn lemma_chain_costs(g: WeightedAdjacencyList, dists: Seq<u64>, p: Seq<usize>, i: int)
    requires
        p.len() >= 1,
        0 <= i < p.len(),
        forall|j: int| 0 <= j < p.len() ==> (#[trigger] p[j] as int) < dists.len(),
        dists[p[0] as int] == 0,
        forall|j: int|
            0 <= j < p.len() - 1 ==> has_e(g, #[trigger] p[j], p[j + 1]) && dists[p[j + 1] as int]
                as int == dists[p[j] as int] as int + w_of(g, p[j], p[j + 1]),
    ensures
        path_cost(g, p.take(i + 1)) == dists[p[i] as int] as int,
    decreases i,
{
    if i == 0 {
        assert(p.take(1) =~= seq![p[0]]);
    } else {
        lemma_chain_costs(g, dists, p, i - 1);
        assert(p.take(i + 1) =~= p.take(i).push(p[i]));
        lemma_path_cost_push(g, p.take(i), p[i]);
        assert(p.take(i)[i - 1] == p[i - 1]);
    }
}

/// Every walk from `source` to a not-yet-settled vertex costs at least
/// `d`, where `d` bounds the recorded distance of every unsettled vertex
/// whose distance is finite.  This is the key fact behind settling the
/// vertex a pop hands out: walking backward along any such walk, the steps
/// inside the settled region are paid for by their recorded distances, and
/// the first step out of it already costs at least `d`.
proof fn lemma_settle_path(
    g: WeightedAdjacencyList,
    source: usize,
    dists: Seq<u64>,
    settled: Set<usize>,
    d: u64,
    p: Seq<usize>,
    t: usize,
)
    requires
        g.wf(),
        dists.len() == g.id_space(),
        (source as int) < dists.len(),
        dists[source as int] == 0,
        d < u64::MAX,
        forall|v: usize|
            #[trigger] settled.contains(v) ==> (v as int) < dists.len() && lower_bound_ok(
                g,
                source,
                v,
                dists[v as int] as int,
            ),
        frontier_ok(g, dists, settled),
        forall|v: usize|
            (v as int) < dists.len() && !(#[trigger] settled.contains(v)) && dists[v as int]
                < u64::MAX ==> d <= dists[v as int],
        connects(g, p, source, t),
        !settled.contains(t),
    ensures
        path_cost(g, p) >= d,
    decreases p.len(),
{
    if p.len() == 1 {
        assert(t == source);
        assert(d <= dists[source as int]);
    } else {
        let q = p.drop_last();
        let x = p[p.len() - 2];
        lemma_drop_last_path(g, p, source, t);
        proof_vertex_in_bound(g, dists, t);
        if settled.contains(x) {
            assert(path_cost(g, q) >= dists[x as int]);
            assert(dists[t as int] as int <= dists[x as int] as int + w_of(g, x, t));
            if dists[t as int] < u64::MAX {
                assert(d <= dists[t as int]);
            }
        } else {
            lemma_settle_path(g, source, dists, settled, d, q, x);
        }
    }
}

/// When every vertex with a finite recorded distance is settled and all
/// edges out of settled vertices are relaxed, any walk of finite cost
/// certifies that its endpoint's recorded distance is no larger.
proof fn lemma_exhausted(
    g: WeightedAdjacencyList,
    source: usize,
    dists: Seq<u64>,
    settled: Set<usize>,
    p: Seq<usize>,
    t: usize,
)
    requires
        g.wf(),
        dists.len() == g.id_space(),
        (source as int) < dists.len(),
        dists[source as int] == 0,
        frontier_ok(g, dists, settled),
        forall|v: usize|
            (v as int) < dists.len() && dists[v as int] < u64::MAX ==> #[trigger] settled.contains(
                v,
            ),
        connects(g, p, source, t),
        path_cost(g, p) < u64::MAX,
    ensures
        dists[t as int] as int <= path_cost(g, p),
    decreases p.len(),
{
    proof_vertex_in_bound(g, dists, t);
    if p.len() == 1 {
        assert(t == source);
    } else {
        let q = p.drop_last();
        let x = p[p.len() - 2];
        lemma_drop_last_path(g, p, source, t);
        lemma_path_cost_nonneg(g, q);
        lemma_exhausted(g, source, dists, settled, q, x);
        proof_vertex_in_bound(g, dists, x);
        assert(dists[x as int] < u64::MAX);
        assert(settled.contains(x));
        assert(dists[t as int] as int <= dists[x as int] as int + w_of(g, x, t));
    }
}

/// A vertex of the graph indexes into the distance array.
proof fn proof_vertex_in_bound(g: WeightedAdjacencyList, dists: Seq<u64>, v: usize)
    requires
        dists.len() == g.id_space(),
        has_v(g, v),
    ensures
        (v as int) < dists.len(),
{
    g.lemma_contains_vertex_bounds(v as int);
}

/// Every edge out of a settled vertex has been relaxed: the recorded
/// distance of the target is at most the recorded distance of the settled
/// source plus the edge weight.
pub open spec fn frontier_ok(
    g: WeightedAdjacencyList,
    dists: Seq<u64>,
    settled: Set<usize>,
) -> bool {
    forall|u: usize, v: usize|
        #![trigger settled.contains(u), edge_w(g, u, v)]
        settled.contains(u) && has_e(g, u, v) ==> (u as int) < dists.len() && (v as int)
            < dists.len() && dists[v as int] as int <= dists[u as int] as int + w_of(g, u, v)
}

/// The sum of all recorded distances; the outer loop's progress measure.
spec fn sum_dists(s: Seq<u64>) -> int
    decreases s.len(),
{
    if s.len() == 0 {
        0
    } else {
        sum_dists(s.drop_last()) + s.last()
    }
}

proof fn lemma_sum_dists_nonneg(s: Seq<u64>)
    ensures
        sum_dists(s) >= 0,
    decreases s.len(),
{
    if s.len() > 0 {
        lemma_sum_dists_nonneg(s.drop_last());
    }
}

proof fn lemma_sum_dists_update(s: Seq<u64>, i: int, x: u64)
    requires
        0 <= i < s.len(),
    ensures
        sum_dists(s.update(i, x)) == sum_dists(s) + x - s[i],
    decreases s.len(),
{
    let t = s.update(i, x);
    if i == s.len() - 1 {
        assert(t.drop_last() =~= s.drop_last());
    } else {
        assert(t.drop_last() =~= s.drop_last().update(i, x));
        lemma_sum_dists_update(s.drop_last(), i, x);
    }
}

/// The working state of one run: recorded distances and predecessors, the
/// frontier heap, and (as ghost data) the settled set with the order in
/// which its members were settled.
///
/// - `dists[v] == u64::MAX` encodes "no walk of cost below `u64::MAX` is
///   recorded yet"; a finite entry is witnessed by an actual walk.
/// - a settled vertex's recorded distance is a lower bound on every walk
///   to it, hence optimal.
/// - an unsettled vertex with a finite recorded distance always has a
///   matching entry in the heap, so it cannot be overlooked.
/// - `prev` links every finitely-reached non-source vertex to a settled
///   predecessor whose recorded distance plus the edge weight is exact,
///   and settling ranks decrease along `prev`, so the links form no cycle.
spec fn dij_inv(
    g: WeightedAdjacencyList,
    source: usize,
    dists: Seq<u64>,
    prevs: Seq<usize>,
    heap: Seq<(u64, usize)>,
    settled: Set<usize>,
    rank: Map<usize, int>,
    counter: int,
) -> bool {
    &&& g.wf()
    &&& has_v(g, source)
    &&& dists.len() == g.id_space()
    &&& prevs.len() == dists.len()
    &&& (source as int) < dists.len()
    &&& dists[source as int] == 0
    &&& counter >= 0
    &&& forall|i: int|
        0 <= i < heap.len() ==> ((#[trigger] heap[i]).1 as int) < dists.len() && has_v(
            g,
            heap[i].1,
        ) && dists[heap[i].1 as int] <= heap[i].0 && heap[i].0 < u64::MAX
    &&& forall|v: int|
        0 <= v < dists.len() && (#[trigger] dists[v]) < u64::MAX ==> has_v(g, v as usize)
            && reaches(g, source, v as usize, dists[v] as int)
    &&& forall|v: usize|
        #[trigger] settled.contains(v) ==> (v as int) < dists.len() && dists[v as int]
            < u64::MAX && lower_bound_ok(g, source, v, dists[v as int] as int)
    &&& forall|v: usize|
        (v as int) < dists.len() && dists[v as int] < u64::MAX && !(#[trigger] settled.contains(
            v,
        )) ==> heap.to_multiset().contains((dists[v as int], v))
    &&& forall|v: int|
        0 <= v < prevs.len() ==> ((#[trigger] prevs[v]) != usize::MAX <==> (dists[v] < u64::MAX
            && v != source))
    &&& forall|v: int|
        0 <= v < prevs.len() && (#[trigger] prevs[v]) != usize::MAX ==> ((prevs[v] as int)
            < dists.len() && settled.contains(prevs[v]) && has_e(g, prevs[v], v as usize) && dists[v]
            as int == dists[prevs[v] as int] as int + w_of(g, prevs[v], v as usize))
    &&& forall|v: usize|
        #[trigger] settled.contains(v) ==> rank.dom().contains(v) && 0 <= rank[v] < counter
    &&& forall|v: usize|
        #[trigger] settled.contains(v) && v != source ==> rank[prevs[v as int]] < rank[v]
}

/// The chain walked backward out of `prev`, listed sink first: each
/// element follows its successor by one edge, and the recorded distances
/// grow by exactly that edge's weight.
spec fn rev_chain_ok(
    g: WeightedAdjacencyList,
    dists: Seq<u64>,
    c: Seq<usize>,
    settled: Set<usize>,
) -> bool {
    &&& forall|j: int|
        0 <= j < c.len() ==> ((#[trigger] c[j]) as int) < dists.len() && settled.contains(c[j])
            && dists[c[j] as int] < u64::MAX && has_v(g, c[j])
    &&& forall|j: int|
        0 <= j < c.len() - 1 ==> has_e(g, #[trigger] c[j + 1], c[j]) && dists[c[j] as int] as int
            == dists[c[j + 1] as int] as int + w_of(g, c[j + 1], c[j])
}

/// The settling ranks strictly decrease along the chain, so no vertex can
/// appear in it twice.
spec fn ranks_strictly_decrease(c: Seq<usize>, rank: Map<usize, int>) -> bool {
    forall|a: int, b: int|
        #![trigger c[a], c[b]]
        0 <= a < b < c.len() ==> rank[c[b]] < rank[c[a]]
}


/// Computes a minimum-cost route from `source` to `sink` by priority-queue
/// driven relaxation: repeatedly pop the nearest frontier vertex, relax its
/// outgoing edges, and finally walk the predecessor links backward from the
/// sink.
///
/// The result is `Some(path)` exactly when some walk of cost below
/// `u64::MAX` joins the endpoints: `u64::MAX` acts as infinity, so a sink
/// joined only by walks of total weight at least `u64::MAX` also reports
/// absent (a machine limit of the 64-bit weights).  The returned walk
/// runs from `source` to `sink`, visits no vertex twice, and every prefix
/// of it realizes the least possible cost to the vertex it stops at; in
/// particular the total cost is minimal, so repeated runs agree on it.
/// When `source == sink` the result is the one-vertex path.
#[verifier::rlimit(100)]
pub fn dijkstras_shortest_path(source: usize, sink: usize, graph: WeightedAdjacencyList) -> (r:
    Option<Vec<usize>>)
    requires
        graph.wf(),
        graph.contains_vertex(source as int),
    ensures
        match r {
            Some(p) => {
                &&& connects(graph, p@, source, sink)
                &&& path_cost(graph, p@) < u64::MAX
                &&& is_min_cost(graph, source, sink, path_cost(graph, p@))
                &&& forall|i: int|
                    0 <= i < p@.len() ==> is_min_cost(
                        graph,
                        source,
                        #[trigger] p@[i],
                        path_cost(graph, p@.take(i + 1)),
                    )
                &&& forall|i: int, j: int|
                    #![trigger p@[i], p@[j]]
                    0 <= i < j < p@.len() ==> p@[i] != p@[j]
            },
            None => {
                &&& sink != source
                &&& forall|q: Seq<usize>|
                    connects(graph, q, source, sink) ==> path_cost(graph, q) >= u64::MAX
            },
        },
        source == sink ==> (r matches Some(p) && p@ == seq![source]),
        (forall|q: Seq<usize>| !connects(graph, q, source, sink)) ==> r is None,
{
    let n = graph.id_bound();
    proof {
        graph.lemma_contains_vertex_bounds(source as int);
    }
    if graph.get_neighbors(sink).is_none() {
        // an absent sink terminates no walk
        proof {
            assert forall|q: Seq<usize>|
                connects(graph, q, source, sink) implies path_cost(graph, q) >= u64::MAX by {
                assert(has_v(graph, q[q.len() - 1]));
            }
        }
        return None;
    }
    proof {
        graph.lemma_contains_vertex_bounds(sink as int);
    }
    let mut visited: MinHeap<usize> = MinHeap::new();
    let ghost empty_heap = visited@;
    let mut prev: Vec<usize> = vec![usize::MAX; n];
    let mut dists: Vec<u64> = vec![u64::MAX; n];
    dists.set(source, 0);
    visited.push((0, source));
    let ghost mut settled: Set<usize> = Set::empty();
    let ghost mut rank: Map<usize, int> = Map::empty();
    let ghost mut counter: int = 0;
    proof {
        assert(connects(graph, seq![source], source, source));
        assert(path_cost(graph, seq![source]) == 0);
        assert(reaches(graph, source, source, 0));
        lemma_mem_after_insert(empty_heap, visited@, (0u64, source));
        assert(dij_inv(graph, source, dists@, prev@, visited@, settled, rank, counter)) by {
            assert forall|i: int|
                0 <= i < visited@.len() implies ((#[trigger] visited@[i]).1 as int) < dists@.len()
                && has_v(graph, visited@[i].1) && dists@[visited@[i].1 as int] <= visited@[i].0
                && visited@[i].0 < u64::MAX by {
                assert(visited@[i] == (0u64, source));
            }
            assert forall|v: int|
                0 <= v < dists@.len() && (#[trigger] dists@[v]) < u64::MAX implies has_v(
                graph,
                v as usize,
            ) && reaches(graph, source, v as usize, dists@[v] as int) by {
                assert(v == source);
            }
        }
    }
    loop
        invariant_except_break
            n == graph.id_space(),
            has_v(graph, sink),
            visited.wf(),
            frontier_ok(graph, dists@, settled),
            dij_inv(graph, source, dists@, prev@, visited@, settled, rank, counter),
        ensures
            n == graph.id_space(),
            has_v(graph, sink),
            dij_inv(graph, source, dists@, prev@, visited@, settled, rank, counter),
            settled.contains(sink) || (frontier_ok(graph, dists@, settled) && forall|v: usize|
                (v as int) < dists@.len() && dists@[v as int] < u64::MAX ==> settled.contains(v)),
        decreases sum_dists(dists@), visited@.len(),
    {
        proof {
            lemma_sum_dists_nonneg(dists@);
        }
        let ghost h0 = visited@;
        let ghost dists0 = dists@;
        let ghost pre_settled = settled;
        let popped = visited.pop();
        match popped {
            None => {
                proof {
                    assert forall|v: usize|
                        (v as int) < dists@.len() && dists@[v as int] < u64::MAX implies settled
                        .contains(v) by {
                        if !settled.contains(v) {
                            lemma_multiset_index(h0, (dists@[v as int], v));
                        }
                    }
                }
                break ;
            },
            Some(pe) => {
                let d = pe.0;
                let curr = pe.1;
                proof {
                    assert(pe == h0[0]);
                    assert((curr as int) < dists@.len());
                    assert(has_v(graph, curr));
                    assert(dists@[curr as int] <= d);
                    assert(d < u64::MAX);
                    lemma_mem_after_remove(h0, visited@, pe);
                    assert forall|i: int|
                        0 <= i < visited@.len() implies ((#[trigger] visited@[i]).1 as int)
                        < dists@.len() && has_v(graph, visited@[i].1) && dists@[visited@[i].1
                        as int] <= visited@[i].0 && visited@[i].0 < u64::MAX by {
                        assert(h0.contains(visited@[i]));
                        let j = choose|j: int| 0 <= j < h0.len() && h0[j] == visited@[i];
                        assert(h0[j] == visited@[i]);
                    }
                    if !settled.contains(curr) {
                        assert(h0.to_multiset().contains((dists@[curr as int], curr)));
                        lemma_multiset_index(h0, (dists@[curr as int], curr));
                        let j = choose|j: int|
                            0 <= j < h0.len() && h0[j] == (dists@[curr as int], curr);
                        assert(h0[0].0 <= h0[j].0);
                        assert(d == dists@[curr as int]);
                        assert forall|v: usize|
                            (v as int) < dists@.len() && !(#[trigger] settled.contains(v))
                                && dists@[v as int] < u64::MAX implies d <= dists@[v as int] by {
                            assert(h0.to_multiset().contains((dists@[v as int], v)));
                            lemma_multiset_index(h0, (dists@[v as int], v));
                            let jj = choose|jj: int|
                                0 <= jj < h0.len() && h0[jj] == (dists@[v as int], v);
                            assert(h0[0].0 <= h0[jj].0);
                        }
                        assert(lower_bound_ok(graph, source, curr, d as int)) by {
                            assert forall|q: Seq<usize>|
                                connects(graph, q, source, curr) implies path_cost(graph, q)
                                >= d by {
                                lemma_settle_path(graph, source, dists@, settled, d, q, curr);
                            }
                        }
                        settled = settled.insert(curr);
                        rank = rank.insert(curr, counter);
                        counter = counter + 1;
                        assert forall|v: usize|
                            (v as int) < dists@.len() && dists@[v as int] < u64::MAX && !(
                            #[trigger] settled.contains(v)) implies visited@.to_multiset()
                            .contains((dists@[v as int], v)) by {
                            assert(v != curr);
                            assert((dists@[v as int], v) != pe);
                            assert(h0.to_multiset().contains((dists@[v as int], v)));
                        }
                        assert forall|v: usize|
                            #[trigger] settled.contains(v) && v != source implies rank[prev@[v
                            as int]] < rank[v] by {
                            if v == curr {
                                assert(dists@[curr as int] < u64::MAX);
                                assert(prev@[curr as int] != usize::MAX);
                                assert(pre_settled.contains(prev@[curr as int]));
                                assert(prev@[curr as int] != curr);
                                assert(rank[prev@[curr as int]] < counter - 1);
                            } else {
                                assert(pre_settled.contains(v));
                                assert(v != curr);
                                if prev@[v as int] != usize::MAX {
                                    assert(pre_settled.contains(prev@[v as int]));
                                    assert(prev@[v as int] != curr);
                                }
                            }
                        }
                        assert(dij_inv(
                            graph,
                            source,
                            dists@,
                            prev@,
                            visited@,
                            settled,
                            rank,
                            counter,
                        ));
                    } else {
                        assert forall|v: usize|
                            (v as int) < dists@.len() && dists@[v as int] < u64::MAX && !(
                            #[trigger] settled.contains(v)) implies visited@.to_multiset()
                            .contains((dists@[v as int], v)) by {
                            assert(v != curr);
                            assert((dists@[v as int], v) != pe);
                            assert(h0.to_multiset().contains((dists@[v as int], v)));
                        }
                        assert(dij_inv(
                            graph,
                            source,
                            dists@,
                            prev@,
                            visited@,
                            settled,
                            rank,
                            counter,
                        ));
                    }
                }
                if curr == sink {
                    break ;
                }
                let ghost hlen1 = visited@.len();
                let ghost dcurr: u64 = dists@[curr as int];
                proof {
                    assert(settled.contains(curr));
                    assert(dcurr < u64::MAX);
                    assert forall|u: usize, v: usize|
                        #![trigger settled.remove(curr).contains(u), edge_w(graph, u, v)]
                        settled.remove(curr).contains(u) && has_e(graph, u, v) implies (u as int)
                        < dists@.len() && (v as int) < dists@.len() && dists@[v as int] as int
                        <= dists@[u as int] as int + w_of(graph, u, v) by {
                        assert(pre_settled.contains(u));
                    }
                }
                if let Some(adjs) = graph.get_neighbors(curr) {
                    let deg = adjs.len();
                    let mut k: usize = 0;
                    while k < deg
                        invariant
                            k <= deg,
                            n == graph.id_space(),
                            has_v(graph, sink),
                            deg == adjs@.len(),
                            graph.contains_vertex(curr as int),
                            forall|i2: int|
                                0 <= i2 < adjs@.len() ==> edge_w(
                                    graph,
                                    curr,
                                    (#[trigger] adjs@[i2]).0,
                                ) == Some(adjs@[i2].1),
                            forall|i2: int|
                                0 <= i2 < adjs@.len() ==> has_v(graph, (#[trigger] adjs@[i2]).0),
                            forall|v2: int|
                                graph.edge_weight(curr as int, v2) is Some ==> exists|i2: int|
                                    0 <= i2 < adjs@.len() && (#[trigger] adjs@[i2]).0 == v2,
                            visited.wf(),
                            dij_inv(graph, source, dists@, prev@, visited@, settled, rank, counter),
                            settled.contains(curr),
                            crate::data_structures::weighted_adj_list::distinct_targets(adjs@),
                            (curr as int) < dists@.len(),
                            dists@[curr as int] == dcurr,
                            dcurr < u64::MAX,
                            frontier_ok(graph, dists@, settled.remove(curr)),
                            forall|j: int|
                                0 <= j < k ==> dists@[(#[trigger] adjs@[j]).0 as int] as int
                                    <= dcurr as int + adjs@[j].1,
                            dists0.len() == dists@.len(),
                            (dists@ == dists0 && visited@.len() == hlen1) || sum_dists(dists@)
                                < sum_dists(dists0),
                        decreases deg - k,
                    {
                        let to = adjs[k].0;
                        let w = adjs[k].1;
                        let ghost dists_iter = dists@;
                        proof {
                            graph.lemma_contains_vertex_bounds(to as int);
                            assert(edge_w(graph, curr, to) == Some(w));
                        }
                        let dc = dists[curr];
                        if let Some(c) = dc.checked_add(w) {
                            if c < dists[to] {
                                proof {
                                    assert(to != curr);
                                    assert(to != source);
                                    if settled.contains(to) {
                                        assert(reaches(graph, source, curr, dcurr as int));
                                        let pc = choose|p: Seq<usize>|
                                            connects(graph, p, source, curr) && path_cost(graph, p)
                                                == dcurr as int;
                                        lemma_connects_push(graph, pc, source, curr, to);
                                        assert(path_cost(graph, pc.push(to)) == dcurr + w);
                                        assert(lower_bound_ok(
                                            graph,
                                            source,
                                            to,
                                            dists@[to as int] as int,
                                        ));
                                        assert(path_cost(graph, pc.push(to)) >= dists@[to as int]);
                                        assert(false);
                                    }
                                }
                                let ghost dists_p = dists@;
                                let ghost heap_p = visited@;
                                let ghost prev_p = prev@;
                                dists.set(to, c);
                                prev.set(to, curr);
                                visited.push((c, to));
                                proof {
                                    lemma_sum_dists_update(dists_p, to as int, c);
                                    lemma_mem_after_insert(heap_p, visited@, (c, to));
                                    assert(reaches(graph, source, curr, dcurr as int));
                                    let pc = choose|p: Seq<usize>|
                                        connects(graph, p, source, curr) && path_cost(graph, p)
                                            == dcurr as int;
                                    lemma_connects_push(graph, pc, source, curr, to);
                                    assert(w_of(graph, curr, to) == w);
                                    assert(path_cost(graph, pc.push(to)) == dcurr + w);
                                    assert(reaches(graph, source, to, c as int));
                                    assert forall|i: int|
                                        0 <= i < visited@.len() implies ((#[trigger] visited@[i]).1
                                        as int) < dists@.len() && has_v(graph, visited@[i].1)
                                        && dists@[visited@[i].1 as int] <= visited@[i].0
                                        && visited@[i].0 < u64::MAX by {
                                        if visited@[i] == (c, to) {
                                            assert(dists@[to as int] == c);
                                        } else {
                                            assert(heap_p.contains(visited@[i]));
                                            let j = choose|j: int|
                                                0 <= j < heap_p.len() && heap_p[j] == visited@[i];
                                            assert(heap_p[j] == visited@[i]);
                                            if visited@[i].1 == to {
                                                assert(dists_p[to as int] <= visited@[i].0);
                                            }
                                        }
                                    }
                                    assert forall|v: int|
                                        0 <= v < dists@.len() && (#[trigger] dists@[v]) < u64::MAX
                                        implies has_v(graph, v as usize) && reaches(
                                        graph,
                                        source,
                                        v as usize,
                                        dists@[v] as int,
                                    ) by {
                                        if v != to {
                                            assert(dists@[v] == dists_p[v]);
                                        }
                                    }
                                    assert forall|v: usize|
                                        #[trigger] settled.contains(v) implies (v as int)
                                        < dists@.len() && dists@[v as int] < u64::MAX
                                        && lower_bound_ok(
                                        graph,
                                        source,
                                        v,
                                        dists@[v as int] as int,
                                    ) by {
                                        assert(v != to);
                                        assert(dists@[v as int] == dists_p[v as int]);
                                    }
                                    assert forall|v: usize|
                                        (v as int) < dists@.len() && dists@[v as int] < u64::MAX
                                            && !(#[trigger] settled.contains(v)) implies visited@
                                        .to_multiset().contains((dists@[v as int], v)) by {
                                        if v == to {
                                            assert(visited@.to_multiset().contains((c, to)));
                                        } else {
                                            assert(dists@[v as int] == dists_p[v as int]);
                                            assert(heap_p.to_multiset().contains(
                                                (dists_p[v as int], v),
                                            ));
                                        }
                                    }
                                    assert forall|v: int|
                                        0 <= v < prev@.len() implies ((#[trigger] prev@[v])
                                        != usize::MAX <==> (dists@[v] < u64::MAX && v
                                            != source)) by {
                                        if v != to {
                                            assert(prev@[v] == prev_p[v]);
                                            assert(dists@[v] == dists_p[v]);
                                        } else {
                                            assert(prev@[v] == curr);
                                            assert(curr != usize::MAX);
                                        }
                                    }
                                    assert forall|v: int|
                                        0 <= v < prev@.len() && (#[trigger] prev@[v])
                                            != usize::MAX implies ((prev@[v] as int)
                                        < dists@.len() && settled.contains(prev@[v]) && has_e(
                                        graph,
                                        prev@[v],
                                        v as usize,
                                    ) && dists@[v] as int == dists@[prev@[v] as int] as int + w_of(
                                        graph,
                                        prev@[v],
                                        v as usize,
                                    )) by {
                                        if v == to {
                                            assert(prev@[v] == curr);
                                            assert(dists@[curr as int] == dcurr);
                                        } else {
                                            assert(prev@[v] == prev_p[v]);
                                            assert(dists@[v] == dists_p[v]);
                                            assert(prev_p[v] != to);
                                            assert(dists@[prev_p[v] as int] == dists_p[prev_p[v]
                                                as int]);
                                        }
                                    }
                                    assert forall|v: usize|
                                        #[trigger] settled.contains(v) && v != source implies
                                        rank[prev@[v as int]] < rank[v] by {
                                        assert(v != to);
                                        assert(prev@[v as int] == prev_p[v as int]);
                                    }
                                    assert(dij_inv(
                                        graph,
                                        source,
                                        dists@,
                                        prev@,
                                        visited@,
                                        settled,
                                        rank,
                                        counter,
                                    ));
                                    assert forall|u: usize, v: usize|
                                        #![trigger settled.remove(curr).contains(u), edge_w(graph, u, v)]
                                        settled.remove(curr).contains(u) && has_e(graph, u, v)
                                            implies (u as int) < dists@.len() && (v as int)
                                        < dists@.len() && dists@[v as int] as int <= dists@[u
                                        as int] as int + w_of(graph, u, v) by {
                                        assert(u != to);
                                        assert(dists@[u as int] == dists_p[u as int]);
                                        if v != to {
                                            assert(dists@[v as int] == dists_p[v as int]);
                                        }
                                    }
                                    assert(sum_dists(dists@) < sum_dists(dists_p));
                                    assert(dists@[to as int] as int <= dcurr as int + w);
                                    assert forall|v: int|
                                        0 <= v < dists@.len() implies dists@[v]
                                        <= dists_iter[v] by {
                                        if v != to {
                                        }
                                    }
                                }
                            } else {
                                proof {
                                    assert(dists@[to as int] as int <= dcurr as int + w);
                                }
                            }
                        } else {
                            proof {
                                assert(dc as int + w as int > u64::MAX);
                                assert(dists@[to as int] as int <= dcurr as int + w);
                            }
                        }
                        k = k + 1;
                        proof {
                            assert forall|j: int|
                                0 <= j < k implies dists@[(#[trigger] adjs@[j]).0 as int] as int
                                <= dcurr as int + adjs@[j].1 by {
                                if j == k - 1 {
                                    assert(adjs@[j].0 == to);
                                    assert(adjs@[j].1 == w);
                                } else {
                                    assert(has_v(graph, adjs@[j].0));
                                    graph.lemma_contains_vertex_bounds(adjs@[j].0 as int);
                                    assert(dists_iter[adjs@[j].0 as int] as int <= dcurr as int
                                        + adjs@[j].1);
                                    assert(dists@[adjs@[j].0 as int] <= dists_iter[adjs@[j].0
                                        as int]);
                                }
                            }
                        }
                    }
                    proof {
                        assert forall|u: usize, v: usize|
                            #![trigger settled.contains(u), edge_w(graph, u, v)]
                            settled.contains(u) && has_e(graph, u, v) implies (u as int)
                            < dists@.len() && (v as int) < dists@.len() && dists@[v as int] as int
                            <= dists@[u as int] as int + w_of(graph, u, v) by {
                            graph.lemma_edge_endpoints(u as int, v as int);
                            graph.lemma_contains_vertex_bounds(v as int);
                            graph.lemma_contains_vertex_bounds(u as int);
                            if u == curr {
                                let i2 = choose|i2: int|
                                    0 <= i2 < adjs@.len() && adjs@[i2].0 == v as int;
                                assert(adjs@[i2].0 == v);
                                assert(edge_w(graph, curr, v) == Some(adjs@[i2].1));
                                assert(dists@[v as int] as int <= dcurr as int + adjs@[i2].1);
                            } else {
                                assert(settled.remove(curr).contains(u));
                            }
                        }
                        lemma_sum_dists_nonneg(dists@);
                    }
                } else {
                    proof {
                        assert(false);
                    }
                }
            },
        }
    }
    if sink != source && prev[sink] == usize::MAX {
        proof {
            assert(dists@[sink as int] == u64::MAX);
            if settled.contains(sink) {
                assert(false);
            }
            assert forall|q: Seq<usize>|
                connects(graph, q, source, sink) implies path_cost(graph, q) >= u64::MAX by {
                if path_cost(graph, q) < u64::MAX {
                    lemma_exhausted(graph, source, dists@, settled, q, sink);
                }
            }
        }
        return None;
    }
    proof {
        if sink == source {
            assert(dists@[sink as int] == 0);
        }
        assert(dists@[sink as int] < u64::MAX);
        assert(settled.contains(sink));
    }
    let mut path_rev: Vec<usize> = Vec::new();
    let mut curr = sink;
    while curr != usize::MAX
        invariant
            n == graph.id_space(),
            dij_inv(graph, source, dists@, prev@, visited@, settled, rank, counter),
            curr != usize::MAX ==> ((curr as int) < dists@.len() && settled.contains(curr)
                && dists@[curr as int] < u64::MAX),
            curr != usize::MAX ==> rev_chain_ok(graph, dists@, path_rev@.push(curr), settled),
            curr != usize::MAX ==> ranks_strictly_decrease(path_rev@.push(curr), rank),
            curr != usize::MAX ==> path_rev@.push(curr)[0] == sink,
            curr != usize::MAX ==> (forall|j: int|
                0 <= j < path_rev@.len() ==> #[trigger] path_rev@[j] != source),
            curr == usize::MAX ==> (path_rev@.len() >= 1 && rev_chain_ok(
                graph,
                dists@,
                path_rev@,
                settled,
            ) && ranks_strictly_decrease(path_rev@, rank) && path_rev@[0] == sink
                && path_rev@[path_rev@.len() - 1] == source && (forall|j: int|
                0 <= j < path_rev@.len() - 1 ==> #[trigger] path_rev@[j] != source)),
        decreases (if curr != usize::MAX {
            rank[curr] + 1
        } else {
            0
        }),
    {
        let ghost chain0 = path_rev@.push(curr);
        path_rev.push(curr);
        let next = prev[curr];
        proof {
            assert(path_rev@ == chain0);
            if next != usize::MAX {
                assert(settled.contains(next));
                assert(curr != source);
                assert(rank[next] < rank[curr]);
                assert(has_e(graph, next, curr));
                graph.lemma_edge_endpoints(next as int, curr as int);
                assert(rev_chain_ok(graph, dists@, path_rev@.push(next), settled)) by {
                    let c2 = path_rev@.push(next);
                    assert forall|j: int|
                        0 <= j < c2.len() implies ((#[trigger] c2[j]) as int) < dists@.len()
                        && settled.contains(c2[j]) && dists@[c2[j] as int] < u64::MAX && has_v(
                        graph,
                        c2[j],
                    ) by {
                        if j < chain0.len() {
                            assert(c2[j] == chain0[j]);
                        }
                    }
                    assert forall|j: int|
                        0 <= j < c2.len() - 1 implies has_e(graph, #[trigger] c2[j + 1], c2[j])
                        && dists@[c2[j] as int] as int == dists@[c2[j + 1] as int] as int + w_of(
                        graph,
                        c2[j + 1],
                        c2[j],
                    ) by {
                        if j < chain0.len() - 1 {
                            assert(c2[j] == chain0[j]);
                            assert(c2[j + 1] == chain0[j + 1]);
                        } else {
                            assert(c2[j] == curr);
                            assert(c2[j + 1] == next);
                        }
                    }
                }
                assert(ranks_strictly_decrease(path_rev@.push(next), rank)) by {
                    let c2 = path_rev@.push(next);
                    assert forall|a: int, b: int|
                        #![trigger c2[a], c2[b]]
                        0 <= a < b < c2.len() implies rank[c2[b]] < rank[c2[a]] by {
                        if b < chain0.len() {
                            assert(c2[a] == chain0[a]);
                            assert(c2[b] == chain0[b]);
                        } else {
                            assert(c2[b] == next);
                            assert(c2[a] == chain0[a]);
                            assert(chain0[chain0.len() - 1] == curr);
                            if a < chain0.len() - 1 {
                                assert(rank[chain0[chain0.len() - 1]] < rank[chain0[a]]);
                            }
                        }
                    }
                }
            } else {
                assert(curr == source);
            }
        }
        curr = next;
    }
    proof {
        if source == sink {
            assert(path_rev@[0] == sink);
            assert(path_rev@.len() == 1) by {
                if path_rev@.len() >= 2 {
                    assert(path_rev@[0] != source);
                }
            }
        }
    }
    let m = path_rev.len();
    let mut path: Vec<usize> = Vec::new();
    let mut i: usize = 0;
    while i < m
        invariant
            i <= m,
            m == path_rev@.len(),
            path@.len() == i,
            forall|j: int| 0 <= j < i ==> #[trigger] path@[j] == path_rev@[m - 1 - j],
        decreases m - i,
    {
        path.push(path_rev[m - 1 - i]);
        i = i + 1;
    }
    proof {
        let p = path@;
        let c = path_rev@;
        assert(p.len() == m);
        assert(p[0] == c[m - 1]);
        assert(p[0] == source);
        assert(p[m - 1] == c[0]);
        assert(p[m - 1] == sink);
        assert forall|j: int| 0 <= j < p.len() implies (#[trigger] p[j] as int) < dists@.len()
            && settled.contains(p[j]) && dists@[p[j] as int] < u64::MAX && has_v(graph, p[j]) by {
            assert(p[j] == c[m - 1 - j]);
        }
        assert forall|j: int|
            0 <= j < p.len() - 1 implies has_e(graph, #[trigger] p[j], p[j + 1]) && dists@[p[j + 1]
            as int] as int == dists@[p[j] as int] as int + w_of(graph, p[j], p[j + 1]) by {
            assert(p[j] == c[m - 1 - j]);
            assert(p[j + 1] == c[m - 2 - j]);
            assert(has_e(graph, c[(m - 2 - j) + 1], c[m - 2 - j]));
        }
        assert(is_path(graph, p));
        assert(connects(graph, p, source, sink));
        assert forall|i2: int|
            0 <= i2 < p.len() implies path_cost(graph, p.take(i2 + 1)) == dists@[p[i2] as int]
            as int by {
            lemma_chain_costs(graph, dists@, p, i2);
        }
        assert(p.take(p.len() as int) =~= p);
        assert(path_cost(graph, p) == dists@[sink as int] as int);
        assert forall|i2: int|
            0 <= i2 < p.len() implies is_min_cost(
            graph,
            source,
            #[trigger] p[i2],
            path_cost(graph, p.take(i2 + 1)),
        ) by {
            assert(reaches(graph, source, p[i2], dists@[p[i2] as int] as int));
            assert(lower_bound_ok(graph, source, p[i2], dists@[p[i2] as int] as int));
        }
        assert(is_min_cost(graph, source, sink, path_cost(graph, p)));
        // ranks strictly decrease along the chain, so no vertex repeats
        assert forall|a: int, b: int|
            #![trigger c[a], c[b]]
            0 <= a < b < c.len() implies c[a] != c[b] by {
            assert(rank[c[b]] < rank[c[a]]);
        }
        assert forall|a: int, b: int|
            #![trigger p[a], p[b]]
            0 <= a < b < p.len() implies p[a] != p[b] by {
            assert(p[a] == c[m - 1 - a]);
            assert(p[b] == c[m - 1 - b]);
            assert(c[m - 1 - b] != c[m - 1 - a]);
        }
        if source == sink {
            assert(p =~= seq![source]);
        }
    }
    Some(path)
}

} // verus!
