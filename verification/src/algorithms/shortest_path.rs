//! Shortest paths by Dijkstra's algorithm.
//!
//! Costs and weights are single-precision values carried as their bit
//! patterns. The patterns of the non-negative values, infinity included, are
//! ordered as unsigned integers as the values are ordered, and the search
//! compares costs that way. How a weight is added to a cost is handed in by
//! the caller, as a function on bit patterns, and the results are stated
//! relative to it.

use crate::algorithms::queue::CostQueue;
use crate::algorithms::reach::{
    graph_rows, hop, is_walk, lemma_closed_set_covers, lemma_graph_rows_closed, reaches,
    walk_between, Direction,
};
use crate::algorithms::counting::lemma_distinct_bound;
use crate::algorithms::traversal::reachable;
use crate::storage::csr::{CsrGraph, NodeId};
use std::collections::HashMap;
use vstd::multiset::Multiset;
use vstd::prelude::*;

verus! {

/// The greatest bit pattern of a cost: that of positive infinity.
pub const COST_MAX: u32 = 0x7F80_0000;

/// The bit pattern of a non-negative value, infinity included. On these
/// patterns the unsigned order is the order of the values.
pub open spec fn is_cost(bits: u32) -> bool {
    bits <= COST_MAX
}

/// Every weight of the graph is non-negative.
pub open spec fn weights_are_costs(g: CsrGraph) -> bool {
    forall|i: int| 0 <= i < g.weights().len() ==> is_cost(#[trigger] g.weights()[i])
}

/// What a function on bit patterns says of its results: `r` may come
/// back for the arguments `(c, w)`.
pub open spec fn sum_rel<F: Fn(u32, u32) -> u32>(combine: F) -> spec_fn(u32, u32, u32) -> bool {
    |c: u32, w: u32, r: u32| call_ensures(combine, (c, w), r)
}

/// `rel` adds costs as non-negative values are added: the sum of two
/// costs is a cost that is no less than the first, and it grows with the
/// first.
pub open spec fn adds_costs(rel: spec_fn(u32, u32, u32) -> bool) -> bool {
    &&& forall|c: u32, w: u32, r: u32|
        is_cost(c) && is_cost(w) && #[trigger] rel(c, w, r) ==> is_cost(r) && c <= r
    &&& forall|a: u32, b: u32, w: u32, r: u32, q: u32|
        is_cost(a) && is_cost(b) && is_cost(w) && a <= b && #[trigger] rel(a, w, r)
            && #[trigger] rel(b, w, q) ==> r <= q
}

/// The graph has an edge from `u` to `v` with weight `w`.
pub open spec fn has_edge(g: CsrGraph, u: u32, v: u32, w: u32) -> bool {
    u < g.node_count() && g.out_edges(u as int).contains((v, w))
}

/// Step `i` of a walk follows an edge whose weight takes the cost at
/// `p[i]` to the cost at `p[i + 1]`.
pub open spec fn costed_hop(
    g: CsrGraph,
    rel: spec_fn(u32, u32, u32) -> bool,
    p: Seq<u32>,
    costs: Seq<u32>,
    i: int,
) -> bool {
    exists|w: u32| #[trigger] has_edge(g, p[i], p[i + 1], w) && rel(costs[i], w, costs[i + 1])
}

/// A walk with the cost at which each of its nodes is reached: 0 at the
/// start, and from node to node the sum of the cost so far and the weight
/// of the edge taken.
pub open spec fn is_costed_walk(
    g: CsrGraph,
    rel: spec_fn(u32, u32, u32) -> bool,
    p: Seq<u32>,
    costs: Seq<u32>,
) -> bool {
    &&& p.len() >= 1
    &&& costs.len() == p.len()
    &&& costs[0] == 0
    &&& forall|i: int| 0 <= i < p.len() ==> (#[trigger] p[i]) < g.node_count()
    &&& forall|i: int| 0 <= i < p.len() - 1 ==> #[trigger] costed_hop(g, rel, p, costs, i)
}

/// Some walk from `s` reaches `v` at cost `c`.
pub open spec fn realizes(
    g: CsrGraph,
    rel: spec_fn(u32, u32, u32) -> bool,
    s: u32,
    v: u32,
    c: u32,
) -> bool {
    exists|p: Seq<u32>, costs: Seq<u32>| #[trigger]
        is_costed_walk(g, rel, p, costs) && p.first() == s && p.last() == v && costs.last() == c
}

/// `c` is the least cost at which a walk from `s` reaches `v`.
pub open spec fn is_least_cost(
    g: CsrGraph,
    rel: spec_fn(u32, u32, u32) -> bool,
    s: u32,
    v: u32,
    c: u32,
) -> bool {
    &&& realizes(g, rel, s, v, c)
    &&& forall|p: Seq<u32>, costs: Seq<u32>| #[trigger]
        is_costed_walk(g, rel, p, costs) && p.first() == s && p.last() == v ==> c <= costs.last()
}

/// No edge out of `u` improves on the distances: every target has a
/// distance that is no more than a sum of the distance of `u` and the
/// weight of the edge.
pub open spec fn relaxed(
    g: CsrGraph,
    rel: spec_fn(u32, u32, u32) -> bool,
    dist: Map<u32, u32>,
    u: u32,
) -> bool {
    forall|x: u32, w: u32| #[trigger]
        has_edge(g, u, x, w) ==> dist.contains_key(x) && exists|r: u32| #[trigger]
            rel(dist[u], w, r) && dist[x] <= r
}

/// The distances are settled: the source is at 0, every listed node is
/// reached at its distance by some walk, and no edge improves on them.
pub open spec fn settled(
    g: CsrGraph,
    rel: spec_fn(u32, u32, u32) -> bool,
    s: u32,
    dist: Map<u32, u32>,
) -> bool {
    &&& dist.contains_key(s)
    &&& dist[s] == 0
    &&& forall|u: u32| #[trigger]
        dist.contains_key(u) ==> u < g.node_count() && realizes(g, rel, s, u, dist[u]) && relaxed(
            g,
            rel,
            dist,
            u,
        )
}

/// Under non-negative weights every cost along a walk is a cost.
pub proof fn lemma_walk_costs(
    g: CsrGraph,
    rel: spec_fn(u32, u32, u32) -> bool,
    p: Seq<u32>,
    costs: Seq<u32>,
    k: int,
)
    requires
        g.wf(),
        weights_are_costs(g),
        adds_costs(rel),
        is_costed_walk(g, rel, p, costs),
        0 <= k < p.len(),
    ensures
        is_cost(costs[k]),
        k > 0 ==> costs[k - 1] <= costs[k],
    decreases k,
{
    if k > 0 {
        lemma_walk_costs(g, rel, p, costs, k - 1);
        assert(costed_hop(g, rel, p, costs, k - 1));
        let w = choose|w: u32| #[trigger]
            has_edge(g, p[k - 1], p[k], w) && rel(costs[k - 1], w, costs[k]);
        lemma_edge_weight(g, p[k - 1], p[k], w);
    }
}

/// The weight of an edge is a weight of the graph.
pub proof fn lemma_edge_weight(g: CsrGraph, u: u32, v: u32, w: u32)
    requires
        g.wf(),
        weights_are_costs(g),
        has_edge(g, u, v, w),
    ensures
        is_cost(w),
        v < g.node_count(),
{
    let row = g.out_edges(u as int);
    let i = choose|i: int| 0 <= i < row.len() && row[i] == (v, w);
    let n = g.node_count() as int;
    assert(g.row_off()[u as int] <= g.row_off()[u + 1] <= g.row_off()[n]);
    assert(w == g.weights()[g.row_off()[u as int] + i]);
    assert(v == g.col_idx()[g.row_off()[u as int] + i]);
}

/// Settled distances are least: under non-negative weights no walk
/// reaches a node at less than its settled distance.
pub proof fn lemma_settled_least(
    g: CsrGraph,
    rel: spec_fn(u32, u32, u32) -> bool,
    s: u32,
    dist: Map<u32, u32>,
    p: Seq<u32>,
    costs: Seq<u32>,
    k: int,
)
    requires
        g.wf(),
        weights_are_costs(g),
        adds_costs(rel),
        settled(g, rel, s, dist),
        is_costed_walk(g, rel, p, costs),
        p.first() == s,
        0 <= k < p.len(),
    ensures
        dist.contains_key(p[k]),
        dist[p[k]] <= costs[k],
        is_cost(dist[p[k]]),
    decreases k,
{
    if k > 0 {
        lemma_settled_least(g, rel, s, dist, p, costs, k - 1);
        lemma_walk_costs(g, rel, p, costs, k - 1);
        lemma_walk_costs(g, rel, p, costs, k);
        let u = p[k - 1];
        let x = p[k];
        assert(costed_hop(g, rel, p, costs, k - 1));
        let w = choose|w: u32| #[trigger] has_edge(g, u, x, w) && rel(costs[k - 1], w, costs[k]);
        lemma_edge_weight(g, u, x, w);
        assert(relaxed(g, rel, dist, u));
        let r = choose|r: u32| #[trigger] rel(dist[u], w, r) && dist[x] <= r;
        assert(r <= costs[k]);
    }
}

/// A settled distance is the least cost of its node.
pub proof fn lemma_settled_is_least_cost(
    g: CsrGraph,
    rel: spec_fn(u32, u32, u32) -> bool,
    s: u32,
    dist: Map<u32, u32>,
    v: u32,
)
    requires
        g.wf(),
        weights_are_costs(g),
        adds_costs(rel),
        settled(g, rel, s, dist),
        dist.contains_key(v),
    ensures
        is_least_cost(g, rel, s, v, dist[v]),
{
    assert forall|p: Seq<u32>, costs: Seq<u32>| #[trigger]
        is_costed_walk(g, rel, p, costs) && p.first() == s && p.last() == v implies dist[v]
        <= costs.last() by {
        lemma_settled_least(g, rel, s, dist, p, costs, p.len() - 1);
    }
}

/// A node has one least cost.
pub proof fn lemma_least_cost_unique(
    g: CsrGraph,
    rel: spec_fn(u32, u32, u32) -> bool,
    s: u32,
    v: u32,
    a: u32,
    b: u32,
)
    requires
        is_least_cost(g, rel, s, v, a),
        is_least_cost(g, rel, s, v, b),
    ensures
        a == b,
{
    let (p, costs) = choose|p: Seq<u32>, costs: Seq<u32>| #[trigger]
        is_costed_walk(g, rel, p, costs) && p.first() == s && p.last() == v && costs.last() == a;
    let (q, qcosts) = choose|q: Seq<u32>, qcosts: Seq<u32>| #[trigger]
        is_costed_walk(g, rel, q, qcosts) && q.first() == s && q.last() == v && qcosts.last() == b;
    assert(b <= costs.last());
    assert(a <= qcosts.last());
}

/// The distance that the search from `s` gives a node is the cost of the
/// shortest path that is found from `s` to it: under non-negative weights
/// a settled distance and a least cost of the same node are equal.
pub proof fn lemma_distance_is_path_cost(
    g: CsrGraph,
    rel: spec_fn(u32, u32, u32) -> bool,
    s: u32,
    v: u32,
    dist: Map<u32, u32>,
    cost: u32,
)
    requires
        g.wf(),
        weights_are_costs(g),
        adds_costs(rel),
        settled(g, rel, s, dist),
        dist.contains_key(v),
        is_least_cost(g, rel, s, v, cost),
    ensures
        dist[v] == cost,
{
    lemma_settled_is_least_cost(g, rel, s, dist, v);
    lemma_least_cost_unique(g, rel, s, v, dist[v], cost);
}

/// A costed walk is a walk along the edges.
pub proof fn lemma_costed_walk_is_walk(
    g: CsrGraph,
    rel: spec_fn(u32, u32, u32) -> bool,
    p: Seq<u32>,
    costs: Seq<u32>,
)
    requires
        g.wf(),
        is_costed_walk(g, rel, p, costs),
    ensures
        is_walk(graph_rows(g, Direction::Forward), p),
{
    let rows = graph_rows(g, Direction::Forward);
    assert forall|i: int| 0 <= i < p.len() - 1 implies #[trigger] hop(rows, p, i) by {
        assert(costed_hop(g, rel, p, costs, i));
        let w = choose|w: u32| #[trigger]
            has_edge(g, p[i], p[i + 1], w) && rel(costs[i], w, costs[i + 1]);
        lemma_edge_is_hop(g, p[i], p[i + 1], w);
    }
}

/// The target of an edge is listed among the targets of its source.
pub proof fn lemma_edge_is_hop(g: CsrGraph, u: u32, v: u32, w: u32)
    requires
        g.wf(),
        has_edge(g, u, v, w),
    ensures
        g.out_targets(u as int).contains(v),
        v < g.node_count(),
{
    let row = g.out_edges(u as int);
    let i = choose|i: int| 0 <= i < row.len() && row[i] == (v, w);
    let n = g.node_count() as int;
    assert(g.row_off()[u as int] <= g.row_off()[u + 1] <= g.row_off()[n]);
    assert(g.out_targets(u as int)[i] == v);
    assert(v == g.col_idx()[g.row_off()[u as int] + i]);
}

/// A costed walk goes on along an edge.
pub proof fn lemma_costed_walk_push(
    g: CsrGraph,
    rel: spec_fn(u32, u32, u32) -> bool,
    p: Seq<u32>,
    costs: Seq<u32>,
    x: u32,
    w: u32,
    r: u32,
)
    requires
        g.wf(),
        is_costed_walk(g, rel, p, costs),
        has_edge(g, p.last(), x, w),
        rel(costs.last(), w, r),
    ensures
        is_costed_walk(g, rel, p.push(x), costs.push(r)),
{
    let q = p.push(x);
    let qc = costs.push(r);
    lemma_edge_is_hop(g, p.last(), x, w);
    assert forall|i: int| 0 <= i < q.len() - 1 implies #[trigger] costed_hop(g, rel, q, qc, i) by {
        if i < p.len() - 1 {
            assert(costed_hop(g, rel, p, costs, i));
            let w0 = choose|w0: u32| #[trigger]
                has_edge(g, p[i], p[i + 1], w0) && rel(costs[i], w0, costs[i + 1]);
            assert(has_edge(g, q[i], q[i + 1], w0) && rel(qc[i], w0, qc[i + 1]));
        } else {
            assert(has_edge(g, q[i], q[i + 1], w) && rel(qc[i], w, qc[i + 1]));
        }
    }
}

/// What is left to gain: the sum, over the nodes below `n`, of the
/// distance of a node, or of 2^32 for a node without one.
spec fn potential(dist: Map<u32, u32>, n: nat) -> nat
    decreases n,
{
    if n == 0 {
        0
    } else {
        potential(dist, (n - 1) as nat) + if dist.contains_key((n - 1) as u32) {
            dist[(n - 1) as u32] as nat
        } else {
            0x1_0000_0000nat
        }
    }
}

/// A new or smaller distance lowers the potential.
proof fn lemma_potential_lower(dist: Map<u32, u32>, n: nat, v: u32, c: u32)
    requires
        v < n,
        n <= u32::MAX,
        dist.contains_key(v) ==> c < dist[v],
    ensures
        potential(dist.insert(v, c), n) < potential(dist, n),
    decreases n,
{
    let after = dist.insert(v, c);
    if v == n - 1 {
        lemma_potential_same(dist, after, (n - 1) as nat);
    } else {
        lemma_potential_lower(dist, (n - 1) as nat, v, c);
    }
}

/// The potential over the nodes below `n` depends on their distances
/// alone.
proof fn lemma_potential_same(a: Map<u32, u32>, b: Map<u32, u32>, n: nat)
    requires
        n <= u32::MAX,
        forall|v: u32| v < n ==> a.contains_key(v) == b.contains_key(v),
        forall|v: u32| v < n && a.contains_key(v) ==> a[v] == b[v],
    ensures
        potential(a, n) == potential(b, n),
    decreases n,
{
    if n > 0 {
        lemma_potential_same(a, b, (n - 1) as nat);
    }
}

/// `v` has a distance and is not the source: it was reached over an edge.
pub open spec fn linked(dist: Map<u32, u32>, s: u32, v: u32) -> bool {
    dist.contains_key(v) && v != s
}

/// Every node with a distance, but the source, has a predecessor with a
/// distance and an edge from it whose weight, added to a cost that the
/// predecessor had, gave the node its distance.
pub open spec fn pred_ok(
    g: CsrGraph,
    rel: spec_fn(u32, u32, u32) -> bool,
    s: u32,
    dist: Map<u32, u32>,
    pred: Map<u32, u32>,
) -> bool {
    forall|v: u32| #[trigger]
        linked(dist, s, v) ==> pred.contains_key(v) && dist.contains_key(pred[v]) && exists|
            w: u32,
            c: u32,
        | #[trigger]
            has_edge(g, pred[v], v, w) && dist[pred[v]] <= c && #[trigger] rel(c, w, dist[v]) && (
            weights_are_costs(g) && adds_costs(rel) ==> is_cost(c))
}

/// From a node to its predecessor the distance falls, or stays while the
/// time of the last update falls.
spec fn pred_descends(dist: Map<u32, u32>, pred: Map<u32, u32>, stamp: Map<u32, nat>, s: u32) -> bool {
    forall|v: u32| #[trigger]
        linked(dist, s, v) ==> dist[pred[v]] < dist[v] || (dist[pred[v]] == dist[v]
            && stamp[pred[v]] < stamp[v])
}

/// The first `j` edges out of `u` do not improve on the distances when
/// `u` is at cost `c`.
spec fn relaxed_upto(
    g: CsrGraph,
    rel: spec_fn(u32, u32, u32) -> bool,
    dist: Map<u32, u32>,
    u: u32,
    c: u32,
    j: int,
) -> bool {
    forall|k: int|
        0 <= k < j ==> dist.contains_key((#[trigger] g.out_edges(u as int)[k]).0) && exists|
            r: u32,
        | #[trigger]
            rel(c, g.out_edges(u as int)[k].1, r) && dist[g.out_edges(u as int)[k].0] <= r
}

/// The source is at 0 and every listed node is reached at its distance.
spec fn reached_ok(
    g: CsrGraph,
    rel: spec_fn(u32, u32, u32) -> bool,
    s: u32,
    dist: Map<u32, u32>,
) -> bool {
    &&& dist.contains_key(s)
    &&& dist[s] == 0
    &&& forall|u: u32| #[trigger]
        dist.contains_key(u) ==> u < g.node_count() && realizes(g, rel, s, u, dist[u])
}

/// Every entry of the queue names a listed node at no less than its
/// distance.
spec fn queue_ok(dist: Map<u32, u32>, queue: Multiset<(u32, u32)>) -> bool {
    forall|c: u32, v: u32| #[trigger] queue.count((c, v)) > 0 ==> dist.contains_key(v) && dist[v] <= c
}

/// Every listed node, but for the node `busy` that is being expanded, is
/// relaxed or waits in the queue at its distance.
spec fn pending_ok(
    g: CsrGraph,
    rel: spec_fn(u32, u32, u32) -> bool,
    dist: Map<u32, u32>,
    queue: Multiset<(u32, u32)>,
    busy: int,
) -> bool {
    forall|u: u32| #[trigger]
        dist.contains_key(u) && u != busy ==> relaxed(g, rel, dist, u) || queue.count((dist[u], u))
            > 0
}

/// Under non-negative weights the distances are costs, the way back along
/// the predecessors descends, and every update has its time.
spec fn valid_ok(
    g: CsrGraph,
    rel: spec_fn(u32, u32, u32) -> bool,
    s: u32,
    dist: Map<u32, u32>,
    pred: Map<u32, u32>,
    stamp: Map<u32, nat>,
    clock: nat,
) -> bool {
    weights_are_costs(g) && adds_costs(rel) ==> {
        &&& pred_descends(dist, pred, stamp, s)
        &&& forall|u: u32| #[trigger] dist.contains_key(u) ==> is_cost(dist[u]) && stamp[u] < clock
    }
}

/// What holds of the search between two steps.
spec fn search_inv(
    g: CsrGraph,
    rel: spec_fn(u32, u32, u32) -> bool,
    s: u32,
    dist: Map<u32, u32>,
    pred: Map<u32, u32>,
    stamp: Map<u32, nat>,
    clock: nat,
    queue: Multiset<(u32, u32)>,
    busy: int,
) -> bool {
    &&& reached_ok(g, rel, s, dist)
    &&& queue_ok(dist, queue)
    &&& pending_ok(g, rel, dist, queue, busy)
    &&& pred_ok(g, rel, s, dist, pred)
    &&& valid_ok(g, rel, s, dist, pred, stamp, clock)
}

/// A node stays relaxed when another node gets a smaller distance.
proof fn lemma_relaxed_keeps(
    g: CsrGraph,
    rel: spec_fn(u32, u32, u32) -> bool,
    dist: Map<u32, u32>,
    u: u32,
    x: u32,
    next: u32,
)
    requires
        relaxed(g, rel, dist, u),
        dist.contains_key(u),
        u != x,
        dist.contains_key(x) ==> next < dist[x],
    ensures
        relaxed(g, rel, dist.insert(x, next), u),
{
    let d2 = dist.insert(x, next);
    assert forall|y: u32, wy: u32| #[trigger] has_edge(g, u, y, wy) implies d2.contains_key(y)
        && exists|r: u32| #[trigger] rel(d2[u], wy, r) && d2[y] <= r by {
        let r = choose|r: u32| #[trigger] rel(dist[u], wy, r) && dist[y] <= r;
        assert(rel(d2[u], wy, r) && d2[y] <= r);
    }
}

/// Giving `x` the distance `next` over an edge from `node` keeps the
/// distances reached.
proof fn lemma_update_reached(
    g: CsrGraph,
    rel: spec_fn(u32, u32, u32) -> bool,
    s: u32,
    dist: Map<u32, u32>,
    node: u32,
    cost: u32,
    x: u32,
    w: u32,
    next: u32,
)
    requires
        g.wf(),
        reached_ok(g, rel, s, dist),
        realizes(g, rel, s, node, cost),
        has_edge(g, node, x, w),
        rel(cost, w, next),
        dist.contains_key(x) ==> next < dist[x],
    ensures
        reached_ok(g, rel, s, dist.insert(x, next)),
        x != s,
{
    let d2 = dist.insert(x, next);
    let (p, costs) = choose|p: Seq<u32>, costs: Seq<u32>| #[trigger]
        is_costed_walk(g, rel, p, costs) && p.first() == s && p.last() == node && costs.last()
            == cost;
    lemma_costed_walk_push(g, rel, p, costs, x, w, next);
    lemma_edge_is_hop(g, node, x, w);
    assert(is_costed_walk(g, rel, p.push(x), costs.push(next)) && p.push(x).first() == s
        && p.push(x).last() == x && costs.push(next).last() == next);
    assert(realizes(g, rel, s, x, next));
    assert forall|u: u32| #[trigger] d2.contains_key(u) implies u < g.node_count() && realizes(
        g,
        rel,
        s,
        u,
        d2[u],
    ) by {
        if u != x {
            assert(dist.contains_key(u));
        }
    }
}

/// Putting the new entry of an updated node into the queue keeps the
/// queue in step with the distances.
proof fn lemma_update_queue(
    dist: Map<u32, u32>,
    queue: Multiset<(u32, u32)>,
    x: u32,
    next: u32,
)
    requires
        queue_ok(dist, queue),
        dist.contains_key(x) ==> next < dist[x],
    ensures
        queue_ok(dist.insert(x, next), queue.insert((next, x))),
{
    let d2 = dist.insert(x, next);
    let q2 = queue.insert((next, x));
    assert forall|c: u32, v: u32| #[trigger] q2.count((c, v)) > 0 implies d2.contains_key(v)
        && d2[v] <= c by {
        if (c, v) != (next, x) {
            assert(queue.count((c, v)) > 0);
        }
    }
}

/// An update keeps every node relaxed or waiting.
proof fn lemma_update_pending(
    g: CsrGraph,
    rel: spec_fn(u32, u32, u32) -> bool,
    dist: Map<u32, u32>,
    queue: Multiset<(u32, u32)>,
    busy: int,
    x: u32,
    next: u32,
)
    requires
        pending_ok(g, rel, dist, queue, busy),
        dist.contains_key(x) ==> next < dist[x],
    ensures
        pending_ok(g, rel, dist.insert(x, next), queue.insert((next, x)), busy),
{
    let d2 = dist.insert(x, next);
    let q2 = queue.insert((next, x));
    assert forall|u: u32| #[trigger] d2.contains_key(u) && u != busy implies relaxed(
        g,
        rel,
        d2,
        u,
    ) || q2.count((d2[u], u)) > 0 by {
        if u != x {
            assert(dist.contains_key(u));
            if relaxed(g, rel, dist, u) {
                lemma_relaxed_keeps(g, rel, dist, u, x, next);
            } else {
                assert(queue.count((dist[u], u)) > 0);
            }
        }
    }
}

/// An update keeps the predecessors in step with the distances.
proof fn lemma_update_pred(
    g: CsrGraph,
    rel: spec_fn(u32, u32, u32) -> bool,
    s: u32,
    dist: Map<u32, u32>,
    pred: Map<u32, u32>,
    node: u32,
    cost: u32,
    x: u32,
    w: u32,
    next: u32,
)
    requires
        pred_ok(g, rel, s, dist, pred),
        dist.contains_key(node),
        dist[node] <= cost,
        weights_are_costs(g) && adds_costs(rel) ==> is_cost(cost),
        has_edge(g, node, x, w),
        rel(cost, w, next),
        dist.contains_key(x) ==> next < dist[x],
    ensures
        pred_ok(g, rel, s, dist.insert(x, next), pred.insert(x, node)),
{
    let d2 = dist.insert(x, next);
    let p2 = pred.insert(x, node);
    let valid = weights_are_costs(g) && adds_costs(rel);
    assert forall|v: u32| #[trigger] linked(d2, s, v) implies p2.contains_key(v)
        && d2.contains_key(p2[v]) && exists|wv: u32, c: u32| #[trigger]
        has_edge(g, p2[v], v, wv) && d2[p2[v]] <= c && #[trigger] rel(c, wv, d2[v]) && (valid
            ==> is_cost(c)) by {
        if v == x {
            assert(has_edge(g, p2[v], v, w) && d2[p2[v]] <= cost && rel(cost, w, d2[v]) && (valid
                ==> is_cost(cost)));
        } else {
            assert(linked(dist, s, v));
            let (wv, c) = choose|wv: u32, c: u32| #[trigger]
                has_edge(g, pred[v], v, wv) && dist[pred[v]] <= c && #[trigger] rel(
                    c,
                    wv,
                    dist[v],
                ) && (valid ==> is_cost(c));
            assert(has_edge(g, p2[v], v, wv) && d2[p2[v]] <= c && rel(c, wv, d2[v]) && (valid
                ==> is_cost(c)));
        }
    }
}

/// Under non-negative weights an update keeps the distances costs and
/// the way back descending.
proof fn lemma_update_valid(
    g: CsrGraph,
    rel: spec_fn(u32, u32, u32) -> bool,
    s: u32,
    dist: Map<u32, u32>,
    pred: Map<u32, u32>,
    stamp: Map<u32, nat>,
    clock: nat,
    node: u32,
    cost: u32,
    x: u32,
    w: u32,
    next: u32,
)
    requires
        g.wf(),
        valid_ok(g, rel, s, dist, pred, stamp, clock),
        pred_ok(g, rel, s, dist, pred),
        dist.contains_key(node),
        dist[node] <= cost,
        weights_are_costs(g) && adds_costs(rel) ==> is_cost(cost),
        has_edge(g, node, x, w),
        rel(cost, w, next),
        dist.contains_key(x) ==> next < dist[x],
        x != s,
    ensures
        valid_ok(
            g,
            rel,
            s,
            dist.insert(x, next),
            pred.insert(x, node),
            stamp.insert(x, clock),
            clock + 1,
        ),
{
    if weights_are_costs(g) && adds_costs(rel) {
        let d2 = dist.insert(x, next);
        let p2 = pred.insert(x, node);
        let st2 = stamp.insert(x, clock);
        lemma_edge_weight(g, node, x, w);
        assert(is_cost(next) && cost <= next);
        assert(node != x);
        assert forall|u: u32| #[trigger] d2.contains_key(u) implies is_cost(d2[u]) && st2[u]
            < clock + 1 by {
            if u != x {
                assert(dist.contains_key(u));
            }
        }
        assert forall|v: u32| #[trigger] linked(d2, s, v) implies d2[p2[v]] < d2[v] || (d2[p2[v]]
            == d2[v] && st2[p2[v]] < st2[v]) by {
            if v == x {
                assert(dist.contains_key(node));
            } else {
                assert(linked(dist, s, v));
                assert(dist.contains_key(pred[v]));
            }
        }
    }
}

/// Trying one more edge of the node that is expanded, with or without an
/// update, relaxes one more edge.
proof fn lemma_upto_step(
    g: CsrGraph,
    rel: spec_fn(u32, u32, u32) -> bool,
    d1: Map<u32, u32>,
    d2: Map<u32, u32>,
    node: u32,
    cost: u32,
    j: int,
    x: u32,
    w: u32,
    next: u32,
)
    requires
        relaxed_upto(g, rel, d1, node, cost, j),
        0 <= j < g.out_edges(node as int).len(),
        g.out_edges(node as int)[j] == (x, w),
        rel(cost, w, next),
        d2.contains_key(x),
        d2[x] <= next,
        forall|y: u32| #[trigger] d1.contains_key(y) ==> d2.contains_key(y) && d2[y] <= d1[y],
    ensures
        relaxed_upto(g, rel, d2, node, cost, j + 1),
{
    let row = g.out_edges(node as int);
    assert forall|k: int| 0 <= k < j + 1 implies d2.contains_key((#[trigger] row[k]).0)
        && exists|r: u32| #[trigger] rel(cost, row[k].1, r) && d2[row[k].0] <= r by {
        if k < j {
            assert(d1.contains_key(row[k].0));
            let r = choose|r: u32| #[trigger] rel(cost, row[k].1, r) && d1[row[k].0] <= r;
            assert(rel(cost, row[k].1, r) && d2[row[k].0] <= r);
        } else {
            assert(rel(cost, row[k].1, next) && d2[row[k].0] <= next);
        }
    }
}

/// A node all of whose edges are relaxed at its distance is relaxed.
proof fn lemma_upto_all(
    g: CsrGraph,
    rel: spec_fn(u32, u32, u32) -> bool,
    dist: Map<u32, u32>,
    node: u32,
)
    requires
        dist.contains_key(node),
        relaxed_upto(g, rel, dist, node, dist[node], g.out_edges(node as int).len() as int),
    ensures
        relaxed(g, rel, dist, node),
{
    let row = g.out_edges(node as int);
    assert forall|y: u32, wy: u32| #[trigger] has_edge(g, node, y, wy) implies dist.contains_key(
        y,
    ) && exists|r: u32| #[trigger] rel(dist[node], wy, r) && dist[y] <= r by {
        let k = choose|k: int| 0 <= k < row.len() && row[k] == (y, wy);
        assert(dist.contains_key(row[k].0));
        let r = choose|r: u32| #[trigger] rel(dist[node], row[k].1, r) && dist[row[k].0] <= r;
        assert(rel(dist[node], wy, r) && dist[y] <= r);
    }
}

/// Taking an entry out of the queue keeps the queue in step, and keeps
/// every node but the one taken relaxed or waiting; the node taken too, if
/// a smaller distance had overtaken the entry.
proof fn lemma_pop_keeps(
    g: CsrGraph,
    rel: spec_fn(u32, u32, u32) -> bool,
    dist: Map<u32, u32>,
    queue: Multiset<(u32, u32)>,
    cost: u32,
    node: u32,
)
    requires
        queue_ok(dist, queue),
        pending_ok(g, rel, dist, queue, -1),
        queue.count((cost, node)) > 0,
    ensures
        queue_ok(dist, queue.remove((cost, node))),
        pending_ok(g, rel, dist, queue.remove((cost, node)), node as int),
        dist[node] < cost ==> pending_ok(g, rel, dist, queue.remove((cost, node)), -1),
{
    let q2 = queue.remove((cost, node));
    assert forall|c: u32, v: u32| #[trigger] q2.count((c, v)) > 0 implies dist.contains_key(v)
        && dist[v] <= c by {
        assert(queue.count((c, v)) > 0);
    }
    assert forall|u: u32| #[trigger] dist.contains_key(u) && u != node implies relaxed(
        g,
        rel,
        dist,
        u,
    ) || q2.count((dist[u], u)) > 0 by {
        if !relaxed(g, rel, dist, u) {
            assert(queue.count((dist[u], u)) > 0);
        }
    }
    if dist[node] < cost {
        assert forall|u: u32| #[trigger] dist.contains_key(u) implies relaxed(g, rel, dist, u)
            || q2.count((dist[u], u)) > 0 by {
            if !relaxed(g, rel, dist, u) {
                assert(queue.count((dist[u], u)) > 0);
            }
        }
    }
}

/// Once the queue is empty the distances are settled and list exactly
/// what the source reaches.
proof fn lemma_search_done(
    g: CsrGraph,
    rel: spec_fn(u32, u32, u32) -> bool,
    s: u32,
    dist: Map<u32, u32>,
    queue: Multiset<(u32, u32)>,
)
    requires
        g.wf(),
        reached_ok(g, rel, s, dist),
        pending_ok(g, rel, dist, queue, -1),
        queue.len() == 0,
    ensures
        settled(g, rel, s, dist),
        forall|v: u32| dist.contains_key(v) <==> reachable(g, s, v),
{
    let rows = graph_rows(g, Direction::Forward);
    let n = g.node_count() as int;
    lemma_graph_rows_closed(g, Direction::Forward);
    vstd::multiset::lemma_multiset_empty_len(queue);
    assert forall|u: u32| #[trigger] dist.contains_key(u) implies relaxed(g, rel, dist, u) by {
        assert(queue.count((dist[u], u)) == 0);
    }
    assert forall|v: u32| dist.contains_key(v) <==> reachable(g, s, v) by {
        if dist.contains_key(v) {
            let (p, costs) = choose|p: Seq<u32>, costs: Seq<u32>| #[trigger]
                is_costed_walk(g, rel, p, costs) && p.first() == s && p.last() == v
                    && costs.last() == dist[v];
            lemma_costed_walk_is_walk(g, rel, p, costs);
            assert(walk_between(rows, p, s, v));
        }
        if reachable(g, s, v) {
            let inside = Set::new(|u: u32| dist.contains_key(u));
            assert forall|u: u32, i: int|
                inside.contains(u) && u < rows.len() && 0 <= i
                    < rows[u as int].len() implies inside.contains(#[trigger] rows[u as int][i]) by {
                let y = rows[u as int][i];
                let wy = g.out_edges(u as int)[i].1;
                assert(g.row_off()[u as int] <= g.row_off()[u + 1] <= g.row_off()[n]);
                assert(g.out_edges(u as int)[i] == (y, wy));
                assert(has_edge(g, u, y, wy));
                assert(relaxed(g, rel, dist, u));
            }
            lemma_closed_set_covers(rows, inside, s, v);
        }
    }
}

/// The distance of a node, if it has one.
fn lookup(map: &HashMap<u32, u32>, key: u32) -> (r: Option<u32>)
    ensures
        r == if map@.contains_key(key) {
            Some(map@[key])
        } else {
            None::<u32>
        },
{
    broadcast use vstd::std_specs::hash::group_hash_axioms;

    match map.get(&key) {
        Some(v) => Some(*v),
        None => None,
    }
}

/// The search itself: distances and predecessors of everything that
/// `source` reaches.
///
/// A least entry is taken from the queue and, unless a smaller distance
/// has overtaken it, the edges of its node are tried: where the cost of the
/// node and the weight of an edge sum to less than the distance of the
/// target, the target gets the sum as its distance and the node as its
/// predecessor, and is put into the queue.
fn search<F: Fn(u32, u32) -> u32>(graph: &CsrGraph, source: u32, combine: F) -> (r: (
    HashMap<u32, u32>,
    HashMap<u32, u32>,
    Ghost<Map<u32, nat>>,
))
    requires
        graph.wf(),
        source < graph.node_count(),
        forall|c: u32, w: u32| call_requires(combine, (c, w)),
    ensures
        settled(*graph, sum_rel(combine), source, r.0@),
        forall|v: u32| r.0@.contains_key(v) <==> reachable(*graph, source, v),
        pred_ok(*graph, sum_rel(combine), source, r.0@, r.1@),
        weights_are_costs(*graph) && adds_costs(sum_rel(combine)) ==> pred_descends(
            r.0@,
            r.1@,
            r.2@,
            source,
        ) && forall|u: u32| #[trigger] r.0@.contains_key(u) ==> is_cost(r.0@[u]),
{
    broadcast use vstd::std_specs::hash::group_hash_axioms;

    let ghost g = *graph;
    let ghost rel = sum_rel(combine);
    let n = graph.num_nodes();
    let mut dist: HashMap<u32, u32> = HashMap::new();
    let mut pred: HashMap<u32, u32> = HashMap::new();
    let mut queue = CostQueue::new();
    let ghost mut stamp: Map<u32, nat> = Map::empty();
    let ghost mut clock: nat = 1;
    dist.insert(source, 0);
    queue.push((0, source));
    proof {
        stamp = stamp.insert(source, 0);
        let p = seq![source];
        let costs = seq![0u32];
        assert(is_costed_walk(g, rel, p, costs) && p.first() == source && p.last() == source
            && costs.last() == 0);
        assert(dist@.contains_key(source));
        assert forall|c: u32, v: u32| #[trigger]
            queue.contents().count((c, v)) > 0 implies dist@.contains_key(v) && dist@[v] <= c by {
            assert((c, v) == (0u32, source));
        }
    }
    loop
        invariant
            graph.wf(),
            g == *graph,
            rel == sum_rel(combine),
            n == g.node_count(),
            n <= u32::MAX,
            source < n,
            forall|c: u32, w: u32| call_requires(combine, (c, w)),
            queue.wf(),
            search_inv(g, rel, source, dist@, pred@, stamp, clock, queue.contents(), -1),
        ensures
            queue.size() == 0,
            search_inv(g, rel, source, dist@, pred@, stamp, clock, queue.contents(), -1),
        decreases potential(dist@, n as nat), queue.size(),
    {
        let ghost p0 = potential(dist@, n as nat);
        let ghost l0 = queue.size();
        let ghost q0 = queue.contents();
        let (cost, node) = match queue.pop() {
            Some(entry) => entry,
            None => {
                break ;
            },
        };
        proof {
            assert(q0.count((cost, node)) > 0);
            assert(dist@.contains_key(node) && dist@[node] <= cost);
            lemma_pop_keeps(g, rel, dist@, q0, cost, node);
        }
        let current = match lookup(&dist, node) {
            Some(d) => d,
            None => cost,
        };
        if cost > current {
            // A smaller distance has overtaken this entry.
            continue ;
        }
        let (targets, weights) = graph.adjacency(NodeId(node));
        let ghost row = g.out_edges(node as int);
        let mut j: usize = 0;
        while j < targets.len()
            invariant
                graph.wf(),
                g == *graph,
                rel == sum_rel(combine),
                n == g.node_count(),
                n <= u32::MAX,
                source < n,
                node < n,
                forall|c: u32, w: u32| call_requires(combine, (c, w)),
                row == g.out_edges(node as int),
                targets@.len() == weights@.len(),
                targets@.zip_with(weights@) == row,
                j <= targets@.len(),
                queue.wf(),
                realizes(g, rel, source, node, cost),
                weights_are_costs(g) && adds_costs(rel) ==> is_cost(cost),
                dist@.contains_key(node),
                dist@[node] <= cost,
                dist@[node] == cost ==> relaxed_upto(g, rel, dist@, node, cost, j as int),
                dist@[node] < cost ==> queue.contents().count((dist@[node], node)) > 0,
                search_inv(
                    g,
                    rel,
                    source,
                    dist@,
                    pred@,
                    stamp,
                    clock,
                    queue.contents(),
                    node as int,
                ),
                potential(dist@, n as nat) <= p0,
                potential(dist@, n as nat) == p0 ==> queue.size() == l0 - 1,
            decreases targets@.len() - j,
        {
            let x = targets[j];
            let w = weights[j];
            proof {
                assert(row.len() == targets@.len());
                assert(row[j as int] == (x, w));
                assert(has_edge(g, node, x, w));
                lemma_edge_is_hop(g, node, x, w);
            }
            let next = combine(cost, w);
            assert(rel(cost, w, next));
            let shorter = match lookup(&dist, x) {
                Some(d) => next < d,
                None => true,
            };
            let ghost d1 = dist@;
            if shorter {
                proof {
                    lemma_potential_lower(d1, n as nat, x, next);
                    lemma_update_reached(g, rel, source, d1, node, cost, x, w, next);
                    lemma_update_queue(d1, queue.contents(), x, next);
                    lemma_update_pending(g, rel, d1, queue.contents(), node as int, x, next);
                    lemma_update_pred(g, rel, source, d1, pred@, node, cost, x, w, next);
                    lemma_update_valid(
                        g,
                        rel,
                        source,
                        d1,
                        pred@,
                        stamp,
                        clock,
                        node,
                        cost,
                        x,
                        w,
                        next,
                    );
                    stamp = stamp.insert(x, clock);
                    clock = clock + 1;
                }
                dist.insert(x, next);
                pred.insert(x, node);
                queue.push((next, x));
                proof {
                    if dist@[node] == cost {
                        lemma_upto_step(g, rel, d1, dist@, node, cost, j as int, x, w, next);
                    }
                }
            } else {
                proof {
                    if d1[node] == cost {
                        lemma_upto_step(g, rel, d1, d1, node, cost, j as int, x, w, next);
                    }
                }
            }
            j += 1;
        }
        proof {
            let d = dist@;
            assert(pending_ok(g, rel, d, queue.contents(), -1)) by {
                if d[node] == cost {
                    lemma_upto_all(g, rel, d, node);
                }
                assert forall|u: u32| #[trigger] d.contains_key(u) implies relaxed(g, rel, d, u)
                    || queue.contents().count((d[u], u)) > 0 by {
                    if u != node {
                        assert(d.contains_key(u) && u != node as int);
                    }
                }
            }
        }
    }
    proof {
        queue.lemma_size();
        lemma_search_done(g, rel, source, dist@, queue.contents());
    }
    (dist, pred, Ghost(stamp))
}

/// The ids of a list of nodes.
pub open spec fn node_ids(path: Seq<NodeId>) -> Seq<u32> {
    Seq::new(path.len(), |i: int| path[i].0)
}

/// The distance of every node that `source` reaches, by node id.
///
/// `combine(c, w)` is the cost of a walk that has cost `c` so far and
/// goes on along an edge of weight `w`; costs are compared as unsigned
/// integers. A source that is no node reaches nothing.
///
/// The distances are settled: the source is at 0, every listed node is
/// reached at its distance by some walk, and no edge improves on them.
/// With non-negative weights, and a `combine` that adds as non-negative
/// values are added, each distance is the least cost of its node.
pub fn dijkstra<F: Fn(u32, u32) -> u32>(graph: &CsrGraph, source: NodeId, combine: F) -> (dist:
    HashMap<u32, u32>)
    requires
        graph.wf(),
        forall|c: u32, w: u32| call_requires(combine, (c, w)),
    ensures
        source.0 >= graph.node_count() ==> dist@ == Map::<u32, u32>::empty(),
        source.0 < graph.node_count() ==> settled(*graph, sum_rel(combine), source.0, dist@),
        source.0 < graph.node_count() ==> forall|v: u32|
            dist@.contains_key(v) <==> reachable(*graph, source.0, v),
        source.0 < graph.node_count() && weights_are_costs(*graph) && adds_costs(
            sum_rel(combine),
        ) ==> forall|v: u32| #[trigger]
            dist@.contains_key(v) ==> is_least_cost(
                *graph,
                sum_rel(combine),
                source.0,
                v,
                dist@[v],
            ),
{
    broadcast use vstd::std_specs::hash::group_hash_axioms;

    let n = graph.num_nodes();
    if source.0 as usize >= n {
        let dist: HashMap<u32, u32> = HashMap::new();
        assert(dist@ =~= Map::<u32, u32>::empty());
        return dist;
    }
    let (dist, _pred, _stamp) = search(graph, source.0, combine);
    proof {
        let rel = sum_rel(combine);
        if weights_are_costs(*graph) && adds_costs(rel) {
            assert forall|v: u32| #[trigger] dist@.contains_key(v) implies is_least_cost(
                *graph,
                rel,
                source.0,
                v,
                dist@[v],
            ) by {
                lemma_settled_is_least_cost(*graph, rel, source.0, dist@, v);
            }
        }
    }
    dist
}

/// `a` comes before `b` on the way back along the predecessors.
spec fn below(dist: Map<u32, u32>, stamp: Map<u32, nat>, a: u32, b: u32) -> bool {
    dist[a] < dist[b] || (dist[a] == dist[b] && stamp[a] < stamp[b])
}

/// `back` leads from `t` back to its last node along the predecessors.
spec fn is_chain(dist: Map<u32, u32>, pred: Map<u32, u32>, s: u32, t: u32, back: Seq<u32>) -> bool {
    &&& back.len() >= 1
    &&& back[0] == t
    &&& forall|i: int| 0 <= i < back.len() ==> dist.contains_key(#[trigger] back[i])
    &&& forall|i: int|
        0 <= i < back.len() - 1 ==> (#[trigger] back[i]) != s && back[i + 1] == pred[back[i]]
}

/// Along `back` the distance falls, or stays while the time of the last
/// update falls.
spec fn descending(dist: Map<u32, u32>, stamp: Map<u32, nat>, back: Seq<u32>) -> bool {
    forall|i: int, j: int|
        0 <= i < j < back.len() ==> below(dist, stamp, #[trigger] back[j], #[trigger] back[i])
}

/// A chain goes on to the predecessor of its last node.
proof fn lemma_chain_push(
    dist: Map<u32, u32>,
    pred: Map<u32, u32>,
    s: u32,
    t: u32,
    back: Seq<u32>,
    prev: u32,
)
    requires
        is_chain(dist, pred, s, t, back),
        back.last() != s,
        prev == pred[back.last()],
        dist.contains_key(prev),
    ensures
        is_chain(dist, pred, s, t, back.push(prev)),
{
    let after = back.push(prev);
    assert forall|i: int| 0 <= i < after.len() implies dist.contains_key(#[trigger] after[i]) by {
        if i < back.len() {
            assert(dist.contains_key(back[i]));
        }
    }
    assert forall|i: int| 0 <= i < after.len() - 1 implies (#[trigger] after[i]) != s && after[i
        + 1] == pred[after[i]] by {
        if i < back.len() - 1 {
            assert(back[i] != s && back[i + 1] == pred[back[i]]);
        }
    }
}

/// A descending chain repeats no node.
proof fn lemma_descending_distinct(dist: Map<u32, u32>, stamp: Map<u32, nat>, back: Seq<u32>)
    requires
        descending(dist, stamp, back),
    ensures
        back.no_duplicates(),
        back.reverse().no_duplicates(),
{
    let turned = back.reverse();
    assert forall|i: int, j: int|
        0 <= i < back.len() && 0 <= j < back.len() && i != j implies back[i] != back[j] by {
        if i < j {
            assert(below(dist, stamp, back[j], back[i]));
        } else {
            assert(below(dist, stamp, back[i], back[j]));
        }
    }
    assert forall|i: int, j: int|
        0 <= i < turned.len() && 0 <= j < turned.len() && i != j implies turned[i]
        != turned[j] by {
        assert(turned[i] == back[back.len() - 1 - i]);
        assert(turned[j] == back[back.len() - 1 - j]);
    }
}

/// A descending chain that goes on below its last node is descending,
/// repeats no node, and so is no longer than there are nodes.
proof fn lemma_descending_push(
    g: CsrGraph,
    dist: Map<u32, u32>,
    stamp: Map<u32, nat>,
    back: Seq<u32>,
    prev: u32,
)
    requires
        back.len() >= 1,
        descending(dist, stamp, back),
        below(dist, stamp, prev, back.last()),
        forall|i: int| 0 <= i < back.len() ==> (#[trigger] back[i]) < g.node_count(),
        prev < g.node_count(),
        g.node_count() <= u32::MAX,
    ensures
        descending(dist, stamp, back.push(prev)),
        back.push(prev).len() <= g.node_count(),
{
    let after = back.push(prev);
    let last = back.len() - 1;
    assert forall|i: int, j: int| 0 <= i < j < after.len() implies below(
        dist,
        stamp,
        #[trigger] after[j],
        #[trigger] after[i],
    ) by {
        if j == back.len() {
            if i < last {
                assert(below(dist, stamp, back[last], back[i]));
            }
        } else {
            assert(below(dist, stamp, back[j], back[i]));
        }
    }
    assert forall|i: int, j: int|
        0 <= i < after.len() && 0 <= j < after.len() && i != j implies after[i] != after[j] by {
        if i < j {
            assert(below(dist, stamp, after[j], after[i]));
        } else {
            assert(below(dist, stamp, after[i], after[j]));
        }
    }
    assert forall|i: int| 0 <= i < after.len() implies (#[trigger] after[i]) < g.node_count() by {
        if i < back.len() {
            assert(back[i] < g.node_count());
        }
    }
    lemma_distinct_bound(after, g.node_count());
}

/// The way back from `t` to `s` along the predecessors, `t` first. The
/// walk is given up after as many steps as there are nodes, which happens
/// only where a weight is negative.
fn trace_back(
    n: usize,
    s: u32,
    t: u32,
    dist: &HashMap<u32, u32>,
    pred: &HashMap<u32, u32>,
    Ghost(g): Ghost<CsrGraph>,
    Ghost(rel): Ghost<spec_fn(u32, u32, u32) -> bool>,
    Ghost(stamp): Ghost<Map<u32, nat>>,
) -> (r: Option<Vec<u32>>)
    requires
        g.wf(),
        n == g.node_count(),
        settled(g, rel, s, dist@),
        pred_ok(g, rel, s, dist@, pred@),
        weights_are_costs(g) && adds_costs(rel) ==> pred_descends(dist@, pred@, stamp, s),
        dist@.contains_key(t),
    ensures
        r is Some ==> is_chain(dist@, pred@, s, t, r->Some_0@) && r->Some_0@.last() == s,
        weights_are_costs(g) && adds_costs(rel) ==> r is Some && descending(
            dist@,
            stamp,
            r->Some_0@,
        ),
{
    let ghost valid = weights_are_costs(g) && adds_costs(rel);
    let mut back: Vec<u32> = Vec::new();
    back.push(t);
    let mut cur = t;
    while cur != s && back.len() <= n
        invariant
            n == g.node_count(),
            n <= u32::MAX,
            valid == (weights_are_costs(g) && adds_costs(rel)),
            settled(g, rel, s, dist@),
            pred_ok(g, rel, s, dist@, pred@),
            valid ==> pred_descends(dist@, pred@, stamp, s),
            is_chain(dist@, pred@, s, t, back@),
            back@.last() == cur,
            valid ==> descending(dist@, stamp, back@),
            valid ==> back@.len() <= n,
        decreases n + 1 - back@.len(),
    {
        let ghost before = back@;
        assert(linked(dist@, s, cur));
        let prev = match lookup(pred, cur) {
            Some(u) => u,
            None => {
                return None;
            },
        };
        back.push(prev);
        proof {
            lemma_chain_push(dist@, pred@, s, t, before, prev);
            if valid {
                lemma_descending_push(g, dist@, stamp, before, prev);
            }
        }
        cur = prev;
    }
    if cur != s {
        return None;
    }
    Some(back)
}

/// A chain from `t` back to `s`, read from its end, is a walk from `s`
/// to `t`.
proof fn lemma_chain_is_walk(
    g: CsrGraph,
    rel: spec_fn(u32, u32, u32) -> bool,
    s: u32,
    t: u32,
    dist: Map<u32, u32>,
    pred: Map<u32, u32>,
    back: Seq<u32>,
)
    requires
        g.wf(),
        settled(g, rel, s, dist),
        pred_ok(g, rel, s, dist, pred),
        is_chain(dist, pred, s, t, back),
        back.last() == s,
    ensures
        walk_between(graph_rows(g, Direction::Forward), back.reverse(), s, t),
{
    let rows = graph_rows(g, Direction::Forward);
    let ids = back.reverse();
    let len = back.len() as int;
    lemma_graph_rows_closed(g, Direction::Forward);
    assert forall|k: int| 0 <= k < ids.len() implies (#[trigger] ids[k]) < rows.len() by {
        assert(dist.contains_key(back[len - 1 - k]));
    }
    assert forall|k: int| 0 <= k < ids.len() - 1 implies #[trigger] hop(rows, ids, k) by {
        let v = back[len - 2 - k];
        assert(ids[k + 1] == v);
        assert(v != s && back[(len - 2 - k) + 1] == pred[v]);
        assert(ids[k] == pred[v]);
        assert(linked(dist, s, v));
        let (w, c) = choose|w: u32, c: u32| #[trigger]
            has_edge(g, pred[v], v, w) && dist[pred[v]] <= c && #[trigger] rel(c, w, dist[v]) && (
            weights_are_costs(g) && adds_costs(rel) ==> is_cost(c));
        lemma_edge_is_hop(g, pred[v], v, w);
    }
}

/// Under non-negative weights every settled distance is a cost.
proof fn lemma_settled_costs(
    g: CsrGraph,
    rel: spec_fn(u32, u32, u32) -> bool,
    s: u32,
    dist: Map<u32, u32>,
    u: u32,
)
    requires
        g.wf(),
        weights_are_costs(g),
        adds_costs(rel),
        settled(g, rel, s, dist),
        dist.contains_key(u),
    ensures
        is_cost(dist[u]),
{
    let (p, pc) = choose|p: Seq<u32>, pc: Seq<u32>| #[trigger]
        is_costed_walk(g, rel, p, pc) && p.first() == s && p.last() == u && pc.last() == dist[u];
    lemma_walk_costs(g, rel, p, pc, p.len() - 1);
}

/// Under non-negative weights the edge from the predecessor of a node
/// takes the settled distance of the predecessor to that of the node.
proof fn lemma_pred_hop(
    g: CsrGraph,
    rel: spec_fn(u32, u32, u32) -> bool,
    s: u32,
    dist: Map<u32, u32>,
    pred: Map<u32, u32>,
    v: u32,
)
    requires
        g.wf(),
        weights_are_costs(g),
        adds_costs(rel),
        settled(g, rel, s, dist),
        pred_ok(g, rel, s, dist, pred),
        dist.contains_key(v),
        v != s,
    ensures
        dist.contains_key(pred[v]),
        exists|w: u32| #[trigger] has_edge(g, pred[v], v, w) && rel(dist[pred[v]], w, dist[v]),
{
    let u = pred[v];
    assert(linked(dist, s, v));
    let (w, c) = choose|w: u32, c: u32| #[trigger]
        has_edge(g, u, v, w) && dist[u] <= c && #[trigger] rel(c, w, dist[v]) && (
        weights_are_costs(g) && adds_costs(rel) ==> is_cost(c));
    lemma_edge_weight(g, u, v, w);
    lemma_settled_costs(g, rel, s, dist, u);
    assert(relaxed(g, rel, dist, u));
    let r = choose|r: u32| #[trigger] rel(dist[u], w, r) && dist[v] <= r;
    assert(r <= dist[v]);
    assert(has_edge(g, u, v, w) && rel(dist[u], w, dist[v]));
}

/// Under non-negative weights a chain from `t` back to `s`, read from its
/// end, is a walk that reaches each of its nodes at the distance of the
/// node.
proof fn lemma_chain_costs(
    g: CsrGraph,
    rel: spec_fn(u32, u32, u32) -> bool,
    s: u32,
    t: u32,
    dist: Map<u32, u32>,
    pred: Map<u32, u32>,
    back: Seq<u32>,
)
    requires
        g.wf(),
        weights_are_costs(g),
        adds_costs(rel),
        settled(g, rel, s, dist),
        pred_ok(g, rel, s, dist, pred),
        is_chain(dist, pred, s, t, back),
        back.last() == s,
    ensures
        is_costed_walk(
            g,
            rel,
            back.reverse(),
            Seq::new(back.len(), |k: int| dist[back.reverse()[k]]),
        ),
{
    let ids = back.reverse();
    let len = back.len() as int;
    let costs = Seq::new(back.len(), |k: int| dist[ids[k]]);
    assert forall|k: int| 0 <= k < ids.len() implies (#[trigger] ids[k]) < g.node_count() by {
        assert(dist.contains_key(back[len - 1 - k]));
    }
    assert forall|k: int| 0 <= k < ids.len() - 1 implies #[trigger] costed_hop(
        g,
        rel,
        ids,
        costs,
        k,
    ) by {
        let v = back[len - 2 - k];
        assert(ids[k + 1] == v);
        assert(v != s && back[(len - 2 - k) + 1] == pred[v]);
        assert(ids[k] == pred[v]);
        assert(dist.contains_key(v));
        lemma_pred_hop(g, rel, s, dist, pred, v);
        let w = choose|w: u32| #[trigger]
            has_edge(g, pred[v], v, w) && rel(dist[pred[v]], w, dist[v]);
        assert(has_edge(g, ids[k], ids[k + 1], w) && rel(costs[k], w, costs[k + 1]));
    }
    assert(ids[0] == back[len - 1]);
    assert(costs[0] == 0);
}

/// A shortest path from `source` to `target` and its cost.
///
/// `combine` is as for `dijkstra`. There is no path when either end is no
/// node or `target` cannot be reached. A node reaches itself at cost 0 on
/// the path that holds only itself.
///
/// What comes back is a walk from `source` to `target`. With non-negative
/// weights, and a `combine` that adds as non-negative values are added, a
/// path is found whenever `target` can be reached, its cost is the least
/// cost of `target`, that is the cost of walking the path, and the path
/// passes no node twice.
pub fn dijkstra_path<F: Fn(u32, u32) -> u32>(
    graph: &CsrGraph,
    source: NodeId,
    target: NodeId,
    combine: F,
) -> (r: Option<(u32, Vec<NodeId>)>)
    requires
        graph.wf(),
        forall|c: u32, w: u32| call_requires(combine, (c, w)),
    ensures
        source.0 >= graph.node_count() || target.0 >= graph.node_count() || !reachable(
            *graph,
            source.0,
            target.0,
        ) ==> r is None,
        r is Some ==> walk_between(
            graph_rows(*graph, Direction::Forward),
            node_ids(r->Some_0.1@),
            source.0,
            target.0,
        ),
        source == target && source.0 < graph.node_count() ==> r is Some && r->Some_0.0 == 0
            && r->Some_0.1@ == seq![source],
        weights_are_costs(*graph) && adds_costs(sum_rel(combine)) && source.0
            < graph.node_count() && target.0 < graph.node_count() && reachable(
            *graph,
            source.0,
            target.0,
        ) ==> r is Some,
        weights_are_costs(*graph) && adds_costs(sum_rel(combine)) && r is Some ==> is_least_cost(
            *graph,
            sum_rel(combine),
            source.0,
            target.0,
            r->Some_0.0,
        ) && path_costs(*graph, sum_rel(combine), node_ids(r->Some_0.1@), r->Some_0.0)
            && node_ids(r->Some_0.1@).no_duplicates(),
{
    let ghost g = *graph;
    let ghost rel = sum_rel(combine);
    let ghost rows = graph_rows(g, Direction::Forward);
    let n = graph.num_nodes();
    let s = source.0;
    let t = target.0;
    proof {
        lemma_graph_rows_closed(g, Direction::Forward);
        if reachable(g, s, t) {
            crate::algorithms::reach::lemma_reaches_nodes(rows, s, t);
        }
    }
    if s as usize >= n || t as usize >= n {
        return None;
    }
    if s == t {
        let mut path: Vec<NodeId> = Vec::new();
        path.push(source);
        proof {
            let ids = node_ids(path@);
            assert(ids =~= seq![s]);
            crate::algorithms::reach::lemma_walk_single(rows, s);
            let costs = seq![0u32];
            assert(is_costed_walk(g, rel, ids, costs) && ids.first() == s && ids.last() == t
                && costs.last() == 0);
            assert(path@ =~= seq![source]);
            assert(ids.no_duplicates());
        }
        return Some((0, path));
    }
    let (dist, pred, Ghost(stamp)) = search(graph, s, combine);
    let cost = match lookup(&dist, t) {
        Some(d) => d,
        None => {
            return None;
        },
    };
    let back = match trace_back(n, s, t, &dist, &pred, Ghost(g), Ghost(rel), Ghost(stamp)) {
        Some(b) => b,
        None => {
            return None;
        },
    };
    let len = back.len();
    let mut path: Vec<NodeId> = Vec::new();
    let mut i: usize = 0;
    while i < len
        invariant
            i <= len,
            len == back@.len(),
            path@.len() == i,
            forall|k: int| 0 <= k < i ==> (#[trigger] path@[k]).0 == back@[len - 1 - k],
        decreases len - i,
    {
        path.push(NodeId(back[len - 1 - i]));
        i += 1;
    }
    proof {
        let ids = node_ids(path@);
        assert(ids =~= back@.reverse());
        lemma_chain_is_walk(g, rel, s, t, dist@, pred@, back@);
        if weights_are_costs(g) && adds_costs(rel) {
            lemma_chain_costs(g, rel, s, t, dist@, pred@, back@);
            lemma_descending_distinct(dist@, stamp, back@);
            let costs = Seq::new(back@.len(), |k: int| dist@[back@.reverse()[k]]);
            assert(costs.last() == cost);
            assert(is_costed_walk(g, rel, ids, costs) && costs.last() == cost);
            lemma_settled_is_least_cost(g, rel, s, dist@, t);
        }
    }
    Some((cost, path))
}

/// Walking `p` costs `c`: `p` is a walk that reaches its last node at
/// cost `c`.
pub open spec fn path_costs(
    g: CsrGraph,
    rel: spec_fn(u32, u32, u32) -> bool,
    p: Seq<u32>,
    c: u32,
) -> bool {
    exists|costs: Seq<u32>| #[trigger] is_costed_walk(g, rel, p, costs) && costs.last() == c
}

} // verus!
