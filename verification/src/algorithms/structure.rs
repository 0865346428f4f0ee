//! Weakly connected components and strongly connected components.

use crate::algorithms::counting::{
    all_false, false_count, lemma_false_count_set, lemma_full_order_len,
};
use crate::algorithms::reach::{
    graph_rows, hop, is_walk, lemma_closed_set_covers, lemma_graph_rows_closed,
    lemma_reaches_step, lemma_reaches_transitive, lemma_walk_single, reaches, rows_closed,
    walk_between, Adjacency, Direction, GraphView,
};
use crate::storage::csr::{CsrGraph, NodeId};
use vstd::prelude::*;

verus! {

/// What one search adds: `found` grows by the newly visited nodes, once
/// each, all reached from `root`; nothing is unvisited again.
spec fn search_adds(
    rows: Seq<Seq<u32>>,
    root: u32,
    before: Seq<bool>,
    after: Seq<bool>,
    found0: Seq<u32>,
    found: Seq<u32>,
) -> bool {
    &&& before.len() == rows.len()
    &&& after.len() == rows.len()
    &&& forall|v: int| 0 <= v < before.len() && before[v] ==> after[v]
    &&& found0.len() <= found.len()
    &&& found.take(found0.len() as int) == found0
    &&& forall|j: int|
        found0.len() <= j < found.len() ==> (#[trigger] found[j]) < rows.len()
            && !before[found[j] as int] && after[found[j] as int] && reaches(rows, root, found[j])
    &&& forall|v: u32|
        v < rows.len() && (#[trigger] after[v as int]) && !before[v as int] ==> exists|j: int|
            found0.len() <= j < found.len() && found[j] == v
    &&& forall|a: int, b: int| found0.len() <= a < b < found.len() ==> found[a] != found[b]
}

/// The newly visited nodes, but for `skip`, have all their neighbours
/// visited.
spec fn new_nodes_closed(rows: Seq<Seq<u32>>, before: Seq<bool>, after: Seq<bool>, skip: int) -> bool {
    forall|v: int, k: int|
        0 <= v < rows.len() && after[v] && !before[v] && v != skip && 0 <= k < rows[v].len()
            ==> after[(#[trigger] rows[v][k]) as int]
}

/// Visits `node` and every node that can be reached from it through
/// unvisited nodes, and appends them to `found` as they are met.
fn mark_from<A: Adjacency>(adj: &A, node: usize, visited: &mut Vec<bool>, found: &mut Vec<u32>)
    requires
        adj.valid(),
        node < adj.rows().len(),
        old(visited)@.len() == adj.rows().len(),
        !old(visited)@[node as int],
    ensures
        search_adds(
            adj.rows(),
            node as u32,
            old(visited)@,
            final(visited)@,
            old(found)@,
            final(found)@,
        ),
        final(found)@.len() > old(found)@.len(),
        final(found)@[old(found)@.len() as int] == node,
        new_nodes_closed(adj.rows(), old(visited)@, final(visited)@, -1),
        false_count(final(visited)@) < false_count(old(visited)@),
    decreases false_count(old(visited)@),
{
    let ghost rows = adj.rows();
    let ghost v0 = visited@;
    let ghost f0 = found@;
    let ghost base = f0.len() as int;
    proof {
        adj.lemma_valid();
        lemma_false_count_set(v0, node as int);
        lemma_walk_single(rows, node as u32);
    }
    visited.set(node, true);
    found.push(node as u32);
    proof {
        assert(found@.take(base) =~= f0);
        assert(found@[base] == node as u32);
    }
    let deg = adj.degree(node);
    let mut j: u64 = 0;
    while j < deg
        invariant
            adj.valid(),
            rows == adj.rows(),
            rows_closed(rows),
            rows.len() <= u32::MAX,
            node < rows.len(),
            deg == rows[node as int].len(),
            j <= deg,
            v0 == old(visited)@,
            f0 == old(found)@,
            base == f0.len(),
            !v0[node as int],
            search_adds(rows, node as u32, v0, visited@, f0, found@),
            found@.len() > base,
            found@[base] == node,
            visited@[node as int],
            new_nodes_closed(rows, v0, visited@, node as int),
            forall|k: int| 0 <= k < j ==> visited@[(#[trigger] rows[node as int][k]) as int],
            false_count(visited@) < false_count(v0),
        decreases deg - j,
    {
        let x = adj.neighbor(node, j);
        assert(x == rows[node as int][j as int]);
        assert(x < rows.len());
        let ghost v1 = visited@;
        let ghost f1 = found@;
        if !visited[x as usize] {
            mark_from(adj, x as usize, visited, found);
            proof {
                let v2 = visited@;
                let f2 = found@;
                assert(rows[node as int].contains(x));
                assert(f2.take(base) =~= f1.take(f1.len() as int).take(base));
                assert(f1.take(f1.len() as int) =~= f1);
                assert forall|i: int| base <= i < f2.len() implies (#[trigger] f2[i]) < rows.len()
                    && !v0[f2[i] as int] && v2[f2[i] as int] && reaches(
                    rows,
                    node as u32,
                    f2[i],
                ) by {
                    if i < f1.len() {
                        assert(f2.take(f1.len() as int)[i] == f1[i]);
                        assert(f1[i] < rows.len() && v1[f1[i] as int]);
                    } else {
                        assert(reaches(rows, x, f2[i]));
                        lemma_reaches_step(rows, node as u32, node as u32, x);
                        lemma_reaches_transitive(rows, node as u32, x, f2[i]);
                    }
                }
                assert forall|v: u32|
                    v < rows.len() && (#[trigger] v2[v as int]) && !v0[v as int] implies exists|
                    i: int,
                | base <= i < f2.len() && f2[i] == v by {
                    if v1[v as int] {
                        let i = choose|i: int| base <= i < f1.len() && f1[i] == v;
                        assert(f2.take(f1.len() as int)[i] == f1[i]);
                    } else {
                        let i = choose|i: int| f1.len() <= i < f2.len() && f2[i] == v;
                        assert(base <= i < f2.len() && f2[i] == v);
                    }
                }
                assert forall|a: int, b: int| base <= a < b < f2.len() implies f2[a] != f2[b] by {
                    if b < f1.len() {
                        assert(f2.take(f1.len() as int)[a] == f1[a]);
                        assert(f2.take(f1.len() as int)[b] == f1[b]);
                    } else if a < f1.len() {
                        assert(f2.take(f1.len() as int)[a] == f1[a]);
                        assert(v1[f1[a] as int]);
                        assert(!v1[f2[b] as int]);
                    }
                }
                assert(f2[base] == f2.take(f1.len() as int)[base]);
                assert forall|v: int, k: int|
                    0 <= v < rows.len() && v2[v] && !v0[v] && v != node && 0 <= k
                        < rows[v].len() implies v2[(#[trigger] rows[v][k]) as int] by {
                    if v1[v] {
                        assert(v1[rows[v][k] as int]);
                    }
                }
                assert forall|k: int| 0 <= k < j + 1 implies v2[(
                #[trigger] rows[node as int][k]) as int] by {
                    if k < j {
                        assert(v1[rows[node as int][k] as int]);
                    }
                }
            }
        }
        j += 1;
    }
}

/// `u` and `v` are joined by a walk that may follow edges either way.
pub open spec fn connected(g: CsrGraph, u: u32, v: u32) -> bool {
    reaches(graph_rows(g, Direction::Both), u, v)
}

/// `v` is the least node of its weakly connected component: no smaller
/// node is connected to it.
pub open spec fn is_component_root(g: CsrGraph, v: u32) -> bool {
    v < g.node_count() && forall|u: u32| u < v ==> !#[trigger] connected(g, u, v)
}

/// How many of the nodes below `k` are the least of their component.
pub open spec fn roots_below(g: CsrGraph, k: nat) -> nat
    decreases k,
{
    if k == 0 {
        0
    } else {
        roots_below(g, (k - 1) as nat) + if is_component_root(g, (k - 1) as u32) {
            1nat
        } else {
            0nat
        }
    }
}

/// The number of weakly connected components: every component is counted
/// at its least node.
pub open spec fn component_count(g: CsrGraph) -> nat {
    roots_below(g, g.node_count())
}

/// Some node below `k` is connected to `v`.
spec fn covered(g: CsrGraph, k: int, v: u32) -> bool {
    exists|u: u32| u < k && #[trigger] connected(g, u, v)
}

/// There are no more roots below `k` than nodes.
proof fn lemma_roots_below_bound(g: CsrGraph, k: nat)
    ensures
        roots_below(g, k) <= k,
    decreases k,
{
    if k > 0 {
        lemma_roots_below_bound(g, (k - 1) as nat);
    }
}

/// In the undirected reading, neighbourhood is mutual.
pub proof fn lemma_both_symmetric(g: CsrGraph, u: u32, v: u32)
    requires
        g.wf(),
        u < g.node_count(),
        v < g.node_count(),
        graph_rows(g, Direction::Both)[u as int].contains(v),
    ensures
        graph_rows(g, Direction::Both)[v as int].contains(u),
{
    let out_u = g.out_targets(u as int);
    let in_u = g.in_sources(u as int);
    let out_v = g.out_targets(v as int);
    let in_v = g.in_sources(v as int);
    let row = out_u + in_u;
    let i = choose|i: int| 0 <= i < row.len() && row[i] == v;
    if i < out_u.len() {
        assert(out_u[i] == v);
        g.lemma_edge_symmetry(u, v);
        let j = choose|j: int| 0 <= j < in_v.len() && in_v[j] == u;
        assert((out_v + in_v)[out_v.len() + j] == u);
    } else {
        assert(in_u[i - out_u.len()] == v);
        g.lemma_edge_symmetry(v, u);
        let j = choose|j: int| 0 <= j < out_v.len() && out_v[j] == u;
        assert((out_v + in_v)[j] == u);
    }
}

/// Being connected is mutual.
pub proof fn lemma_connected_symmetric(g: CsrGraph, u: u32, v: u32)
    requires
        g.wf(),
        connected(g, u, v),
    ensures
        connected(g, v, u),
{
    let rows = graph_rows(g, Direction::Both);
    let p = choose|p: Seq<u32>| walk_between(rows, p, u, v);
    let q = p.reverse();
    assert forall|i: int| 0 <= i < q.len() implies (#[trigger] q[i]) < rows.len() by {
        assert(p[p.len() - 1 - i] < rows.len());
    }
    assert forall|i: int| 0 <= i < q.len() - 1 implies #[trigger] hop(rows, q, i) by {
        let k = p.len() - 2 - i;
        assert(hop(rows, p, k));
        assert(p[k] < rows.len());
        assert(p[k + 1] < rows.len());
        lemma_both_symmetric(g, p[k], p[k + 1]);
        assert(q[i] == p[k + 1]);
        assert(q[i + 1] == p[k]);
    }
    assert(is_walk(rows, q));
    assert(walk_between(rows, q, v, u));
}

/// What a node reaches along the edges lies in its own component: a
/// breadth-first search never leaves the component of its source.
pub proof fn lemma_reachable_is_connected(g: CsrGraph, s: u32, v: u32)
    requires
        g.wf(),
        reaches(graph_rows(g, Direction::Forward), s, v),
    ensures
        connected(g, s, v),
{
    let fwd = graph_rows(g, Direction::Forward);
    let both = graph_rows(g, Direction::Both);
    let p = choose|p: Seq<u32>| walk_between(fwd, p, s, v);
    assert forall|i: int| 0 <= i < p.len() - 1 implies #[trigger] hop(both, p, i) by {
        assert(hop(fwd, p, i));
        assert(p[i] < fwd.len());
        let out = g.out_targets(p[i] as int);
        let k = choose|k: int| 0 <= k < out.len() && out[k] == p[i + 1];
        assert((out + g.in_sources(p[i] as int))[k] == p[i + 1]);
    }
    assert(walk_between(both, p, s, v));
}

/// The number of weakly connected components of the graph: the classes of
/// nodes joined by walks that ignore the direction of the edges. The empty
/// graph has none.
pub fn connected_components(graph: &CsrGraph) -> (count: usize)
    requires
        graph.wf(),
    ensures
        count == component_count(*graph),
{
    let ghost g = *graph;
    let ghost rows = graph_rows(g, Direction::Both);
    let n = graph.num_nodes();
    let view = GraphView { graph, dir: Direction::Both };
    let mut visited = all_false(n);
    let mut found: Vec<u32> = Vec::new();
    let mut count: usize = 0;
    let mut start: usize = 0;
    proof {
        lemma_graph_rows_closed(g, Direction::Both);
        assert forall|v: u32| v < n implies (visited@[v as int] <==> covered(g, 0, v)) by {}
    }
    while start < n
        invariant
            graph.wf(),
            g == *graph,
            view.graph == graph,
            view.dir == Direction::Both,
            rows == graph_rows(g, Direction::Both),
            rows_closed(rows),
            rows.len() == n,
            n == g.node_count(),
            start <= n,
            visited@.len() == n,
            count == roots_below(g, start as nat),
            forall|v: u32| v < n ==> (#[trigger] visited@[v as int] <==> covered(g, start as int, v)),
        decreases n - start,
    {
        let ghost v0 = visited@;
        proof {
            lemma_roots_below_bound(g, start as nat);
            lemma_walk_single(rows, start as u32);
            assert(connected(g, start as u32, start as u32));
        }
        if !visited[start] {
            mark_from(&view, start, &mut visited, &mut found);
            count += 1;
            proof {
                let v1 = visited@;
                // No smaller node is connected to `start`.
                assert(is_component_root(g, start as u32)) by {
                    assert forall|u: u32| u < start implies !#[trigger] connected(
                        g,
                        u,
                        start as u32,
                    ) by {
                        if connected(g, u, start as u32) {
                            assert(covered(g, start as int, start as u32));
                        }
                    }
                }
                let inside = Set::new(|v: u32| v < n && v1[v as int]);
                assert forall|u: u32, i: int|
                    inside.contains(u) && u < rows.len() && 0 <= i
                        < rows[u as int].len() implies inside.contains(
                    #[trigger] rows[u as int][i],
                ) by {
                    let x = rows[u as int][i];
                    assert(x < rows.len());
                    if v0[u as int] {
                        let w = choose|w: u32| w < start && #[trigger] connected(g, w, u);
                        assert(rows[u as int].contains(x));
                        lemma_reaches_step(rows, w, u, x);
                        assert(w < start && connected(g, w, x));
                        assert(covered(g, start as int, x));
                        assert(v0[x as int]);
                    }
                }
                assert forall|v: u32| v < n implies (#[trigger] v1[v as int] <==> covered(
                    g,
                    start + 1,
                    v,
                )) by {
                    if v1[v as int] {
                        if v0[v as int] {
                            let w = choose|w: u32| w < start && #[trigger] connected(g, w, v);
                            assert(w < start + 1 && connected(g, w, v));
                        } else {
                            assert((start as u32) < start + 1 && connected(g, start as u32, v));
                        }
                    }
                    if covered(g, start + 1, v) {
                        let w = choose|w: u32| w < start + 1 && #[trigger] connected(g, w, v);
                        if w < start {
                            assert(covered(g, start as int, v));
                        } else {
                            assert(inside.contains(start as u32));
                            lemma_closed_set_covers(rows, inside, start as u32, v);
                        }
                    }
                }
            }
        } else {
            proof {
                let w0 = choose|w: u32| w < start && #[trigger] connected(g, w, start as u32);
                assert(!is_component_root(g, start as u32));
                assert forall|v: u32| v < n implies (#[trigger] visited@[v as int] <==> covered(
                    g,
                    start + 1,
                    v,
                )) by {
                    if visited@[v as int] {
                        let w = choose|w: u32| w < start && #[trigger] connected(g, w, v);
                        assert(w < start + 1 && connected(g, w, v));
                    }
                    if covered(g, start + 1, v) {
                        let w = choose|w: u32| w < start + 1 && #[trigger] connected(g, w, v);
                        if w == start {
                            lemma_reaches_transitive(rows, w0, start as u32, v);
                            assert(w0 < start && connected(g, w0, v));
                        } else {
                            assert(w < start && connected(g, w, v));
                        }
                        assert(covered(g, start as int, v));
                    }
                }
            }
        }
        start += 1;
    }
    count
}

/// `j` lies in the span of position `i`: between the length the order had
/// when `order[i]` was met and `i` itself.
spec fn in_span(order: Seq<u32>, disc: Seq<nat>, i: int, j: int) -> bool {
    0 <= j <= i < order.len() && disc[order[i] as int] <= j
}

/// What holds of a depth-first search that lists nodes as it leaves them.
///
/// `disc[v]` is the length `order` had when `v` was met. A node reaches
/// everything in its span, spans nest, and every edge leads to a node that
/// was left earlier or whose span holds the source.
spec fn finish_inv(rows: Seq<Seq<u32>>, visited: Seq<bool>, order: Seq<u32>, disc: Seq<nat>) -> bool {
    &&& visited.len() == rows.len()
    &&& disc.len() == rows.len()
    &&& order.no_duplicates()
    &&& forall|i: int|
        0 <= i < order.len() ==> (#[trigger] order[i]) < rows.len() && visited[order[i] as int]
            && disc[order[i] as int] <= i
    &&& forall|v: int| 0 <= v < rows.len() && visited[v] ==> #[trigger] disc[v] <= order.len()
    &&& forall|i: int, j: int| #[trigger]
        in_span(order, disc, i, j) ==> reaches(rows, order[i], order[j]) && disc[order[j] as int]
            >= disc[order[i] as int]
    &&& forall|i: int, k: int|
        0 <= i < order.len() && 0 <= k < rows[order[i] as int].len() ==> {
            let y = #[trigger] rows[order[i] as int][k];
            visited[y as int] && (order.take(i).contains(y) || disc[y as int] <= i)
        }
}

/// Visits `node` and everything unvisited below it, and appends each node
/// to `order` as it is left, `node` last.
fn finish_from(
    graph: &CsrGraph,
    node: usize,
    visited: &mut Vec<bool>,
    order: &mut Vec<u32>,
    Ghost(disc): Ghost<Seq<nat>>,
) -> (out: Ghost<Seq<nat>>)
    requires
        graph.wf(),
        node < graph.node_count(),
        finish_inv(graph_rows(*graph, Direction::Forward), old(visited)@, old(order)@, disc),
        !old(visited)@[node as int],
    ensures
        finish_inv(graph_rows(*graph, Direction::Forward), final(visited)@, final(order)@, out@),
        forall|v: int| 0 <= v < old(visited)@.len() && old(visited)@[v] ==> final(visited)@[v],
        forall|v: int| 0 <= v < old(visited)@.len() && old(visited)@[v] ==> out@[v] == disc[v],
        final(order)@.len() > old(order)@.len(),
        final(order)@.take(old(order)@.len() as int) == old(order)@,
        final(order)@.last() == node,
        out@[node as int] == old(order)@.len(),
        forall|j: int|
            old(order)@.len() <= j < final(order)@.len() ==> !old(visited)@[(
            #[trigger] final(order)@[j]) as int],
        forall|v: u32|
            v < old(visited)@.len() && (#[trigger] final(visited)@[v as int]) && !old(
                visited,
            )@[v as int] ==> final(order)@.contains(v),
        false_count(final(visited)@) < false_count(old(visited)@),
    decreases false_count(old(visited)@),
{
    let ghost rows = graph_rows(*graph, Direction::Forward);
    let ghost v0 = visited@;
    let ghost o0 = order@;
    let ghost d0 = o0.len();
    let ghost mut cur = disc.update(node as int, d0);
    proof {
        lemma_graph_rows_closed(*graph, Direction::Forward);
        lemma_false_count_set(v0, node as int);
        lemma_walk_single(rows, node as u32);
    }
    visited.set(node, true);
    proof {
        assert(!o0.contains(node as u32)) by {
            if o0.contains(node as u32) {
                let i = choose|i: int| 0 <= i < o0.len() && o0[i] == node as u32;
                assert(v0[o0[i] as int]);
            }
        }
        assert forall|i: int, j: int| #[trigger] in_span(o0, cur, i, j) implies reaches(
            rows,
            o0[i],
            o0[j],
        ) && cur[o0[j] as int] >= cur[o0[i] as int] by {
            assert(o0.contains(o0[i]) && o0.contains(o0[j]));
            assert(in_span(o0, disc, i, j));
        }
        assert forall|i: int, k: int|
            0 <= i < o0.len() && 0 <= k < rows[o0[i] as int].len() implies {
            let y = #[trigger] rows[o0[i] as int][k];
            visited@[y as int] && (o0.take(i).contains(y) || cur[y as int] <= i)
        } by {
            let y = rows[o0[i] as int][k];
            assert(v0[y as int]);
        }
        assert forall|i: int| 0 <= i < o0.len() implies (#[trigger] o0[i]) < rows.len()
            && visited@[o0[i] as int] && cur[o0[i] as int] <= i by {
            assert(o0.contains(o0[i]));
        }
        assert(finish_inv(rows, visited@, o0, cur));
        assert(o0.take(d0 as int) =~= o0);
    }
    let nbrs = graph.out_slice(node);
    assert(nbrs@ == rows[node as int]);
    let mut j: usize = 0;
    while j < nbrs.len()
        invariant
            graph.wf(),
            rows == graph_rows(*graph, Direction::Forward),
            rows_closed(rows),
            rows.len() == graph.node_count(),
            node < rows.len(),
            nbrs@ == rows[node as int],
            j <= nbrs@.len(),
            v0 == old(visited)@,
            o0 == old(order)@,
            d0 == o0.len(),
            v0.len() == rows.len(),
            !v0[node as int],
            visited@[node as int],
            cur[node as int] == d0,
            !order@.contains(node as u32),
            finish_inv(rows, visited@, order@, cur),
            forall|v: int| 0 <= v < v0.len() && v0[v] ==> visited@[v],
            forall|v: int| 0 <= v < v0.len() && v0[v] ==> cur[v] == disc[v],
            order@.len() >= d0,
            order@.take(d0 as int) == o0,
            forall|i: int|
                d0 <= i < order@.len() ==> !v0[(#[trigger] order@[i]) as int] && reaches(
                    rows,
                    node as u32,
                    order@[i],
                ) && cur[order@[i] as int] >= d0,
            forall|v: u32|
                v < v0.len() && (#[trigger] visited@[v as int]) && !v0[v as int] && v != node
                    ==> order@.contains(v),
            forall|k: int| 0 <= k < j ==> visited@[(#[trigger] nbrs@[k]) as int],
            false_count(visited@) < false_count(v0),
        decreases nbrs@.len() - j,
    {
        let x = nbrs[j] as usize;
        assert(rows[node as int][j as int] < rows.len());
        let ghost v1 = visited@;
        let ghost o1 = order@;
        if !visited[x] {
            let next = finish_from(graph, x, visited, order, Ghost(cur));
            proof {
                cur = next@;
                let o2 = order@;
                let v2 = visited@;
                assert(rows[node as int].contains(x as u32));
                assert(o2.take(d0 as int) =~= o2.take(o1.len() as int).take(d0 as int));
                assert forall|i: int| d0 <= i < o2.len() implies !v0[(#[trigger] o2[i]) as int]
                    && reaches(rows, node as u32, o2[i]) && cur[o2[i] as int] >= d0 by {
                    if i < o1.len() {
                        assert(o2.take(o1.len() as int)[i] == o1[i]);
                        assert(v1[o1[i] as int]);
                    } else {
                        assert(!v1[o2[i] as int]);
                        // The span of `x` starts where the order stood.
                        let last = o2.len() - 1;
                        assert(o2[last] == x as u32);
                        assert(cur[x as int] <= last);
                        assert(in_span(o2, cur, last, last));
                        assert(cur[x as int] == o1.len());
                        assert(in_span(o2, cur, last, i));
                        lemma_walk_single(rows, node as u32);
                        lemma_reaches_step(rows, node as u32, node as u32, x as u32);
                        lemma_reaches_transitive(rows, node as u32, x as u32, o2[i]);
                    }
                }
                assert(!o2.contains(node as u32)) by {
                    if o2.contains(node as u32) {
                        let i = choose|i: int| 0 <= i < o2.len() && o2[i] == node as u32;
                        if i < o1.len() {
                            assert(o2.take(o1.len() as int)[i] == o1[i]);
                            assert(o1.contains(node as u32));
                        } else {
                            assert(!v1[o2[i] as int]);
                        }
                    }
                }
                assert forall|v: u32|
                    v < v0.len() && (#[trigger] v2[v as int]) && !v0[v as int] && v
                        != node implies o2.contains(v) by {
                    if v1[v as int] {
                        let i = choose|i: int| 0 <= i < o1.len() && o1[i] == v;
                        assert(o2.take(o1.len() as int)[i] == o1[i]);
                    }
                }
                assert forall|k: int| 0 <= k < j + 1 implies v2[(#[trigger] nbrs@[k]) as int] by {
                    if k < j {
                        assert(v1[nbrs@[k] as int]);
                    }
                }
            }
        }
        j += 1;
    }
    let ghost o3 = order@;
    order.push(node as u32);
    proof {
        let o4 = order@;
        let last = o3.len() as int;
        assert(o4[last] == node as u32);
        assert(o4.take(d0 as int) =~= o3.take(d0 as int));
        assert(o4.no_duplicates()) by {
            assert forall|a: int, b: int| 0 <= a < o4.len() && 0 <= b < o4.len() && a
                != b implies o4[a] != o4[b] by {
                if a == last {
                    assert(o3[b] == o4[b]);
                    assert(o3.contains(o3[b]));
                } else if b == last {
                    assert(o3[a] == o4[a]);
                    assert(o3.contains(o3[a]));
                }
            }
        }
        assert forall|i: int| 0 <= i < o4.len() implies (#[trigger] o4[i]) < rows.len()
            && visited@[o4[i] as int] && cur[o4[i] as int] <= i by {
            if i < last {
                assert(o3[i] == o4[i]);
            }
        }
        assert forall|i: int, k: int| #[trigger] in_span(o4, cur, i, k) implies reaches(
            rows,
            o4[i],
            o4[k],
        ) && cur[o4[k] as int] >= cur[o4[i] as int] by {
            if i < last {
                assert(o3[i] == o4[i] && o3[k] == o4[k]);
                assert(in_span(o3, cur, i, k));
            } else if k < last {
                assert(o3[k] == o4[k]);
            }
        }
        assert forall|i: int, k: int|
            0 <= i < o4.len() && 0 <= k < rows[o4[i] as int].len() implies {
            let y = #[trigger] rows[o4[i] as int][k];
            visited@[y as int] && (o4.take(i).contains(y) || cur[y as int] <= i)
        } by {
            let y = rows[o4[i] as int][k];
            if i < last {
                assert(o3[i] == o4[i]);
                assert(o4.take(i) =~= o3.take(i));
            } else {
                assert(visited@[nbrs@[k] as int]);
                assert(o4.take(i) =~= o3);
                if y != node && !v0[y as int] {
                    assert(o3.contains(y));
                }
                if v0[y as int] && !o3.contains(y) {
                    assert(cur[y as int] <= o3.len());
                }
            }
        }
        assert forall|i: int| d0 <= i < o4.len() implies !v0[(#[trigger] o4[i]) as int] by {
            if i < last {
                assert(o3[i] == o4[i]);
            }
        }
        assert forall|v: u32|
            v < v0.len() && (#[trigger] visited@[v as int]) && !v0[v as int] implies o4.contains(
            v,
        ) by {
            if v == node {
                assert(o4[last] == v);
            } else {
                let i = choose|i: int| 0 <= i < o3.len() && o3[i] == v;
                assert(o4[i] == v);
            }
        }
    }
    Ghost(cur)
}

/// Through a set that is closed under the rows, a walk that enters the
/// set stays in it.
proof fn lemma_walk_stays(rows: Seq<Seq<u32>>, seen: Seq<bool>, w: Seq<u32>, l: int, m: int)
    requires
        is_walk(rows, w),
        seen.len() == rows.len(),
        forall|v: int, k: int|
            0 <= v < rows.len() && seen[v] && 0 <= k < rows[v].len() ==> seen[(
            #[trigger] rows[v][k]) as int],
        0 <= l <= m < w.len(),
        seen[w[l] as int],
    ensures
        seen[w[m] as int],
    decreases m - l,
{
    if l < m {
        assert(hop(rows, w, l));
        assert(w[l] < rows.len());
        let k = choose|k: int| 0 <= k < rows[w[l] as int].len() && rows[w[l] as int][k] == w[l + 1];
        assert(seen[rows[w[l] as int][k] as int]);
        lemma_walk_stays(rows, seen, w, l + 1, m);
    }
}

/// Along a walk against the edges from `order[t]` through nodes that are
/// listed no later than `t`, every node lies in the span of `order[t]`.
proof fn lemma_walk_in_span(
    g: CsrGraph,
    visited: Seq<bool>,
    order: Seq<u32>,
    disc: Seq<nat>,
    t: int,
    w: Seq<u32>,
    l: int,
)
    requires
        g.wf(),
        finish_inv(graph_rows(g, Direction::Forward), visited, order, disc),
        forall|v: u32| v < g.node_count() ==> order.contains(v),
        0 <= t < order.len(),
        is_walk(graph_rows(g, Direction::Reverse), w),
        w.first() == order[t],
        forall|i: int| 0 <= i < w.len() ==> order.index_of(#[trigger] w[i]) <= t,
        0 <= l < w.len(),
    ensures
        in_span(order, disc, t, order.index_of(w[l])),
    decreases l,
{
    let fwd = graph_rows(g, Direction::Forward);
    let rev = graph_rows(g, Direction::Reverse);
    assert(order.contains(order[t]));
    assert(order[order.index_of(order[t])] == order[t]);
    assert(order.index_of(order[t]) == t);
    if l > 0 {
        lemma_walk_in_span(g, visited, order, disc, t, w, l - 1);
        let y = w[l - 1];
        let x = w[l];
        assert(hop(rev, w, l - 1));
        assert(x < rev.len() && y < rev.len());
        g.lemma_edge_symmetry(x, y);
        assert(order.contains(x) && order.contains(y));
        let i = order.index_of(x);
        let py = order.index_of(y);
        assert(order[i] == x && order[py] == y);
        let k = choose|k: int| 0 <= k < fwd[x as int].len() && fwd[x as int][k] == y;
        assert(fwd[order[i] as int][k] == y);
        assert(order.index_of(w[l]) <= t);
        if order.take(i).contains(y) {
            let c = choose|c: int| 0 <= c < order.take(i).len() && order.take(i)[c] == y;
            assert(order[c] == order[py]);
        } else {
            assert(disc[y as int] <= i);
            assert(in_span(order, disc, t, py));
        }
    }
}

/// In the second pass of Kosaraju's algorithm the root of a search reaches
/// every node that the search finds.
///
/// `seen` is what earlier searches visited: a set closed against the edges
/// that holds every node listed after position `t`. A node outside it that
/// reaches `order[t]` was met, in the first pass, while `order[t]` was on the
/// stack.
proof fn lemma_root_reaches(
    g: CsrGraph,
    visited: Seq<bool>,
    order: Seq<u32>,
    disc: Seq<nat>,
    seen: Seq<bool>,
    t: int,
    b: u32,
)
    requires
        g.wf(),
        finish_inv(graph_rows(g, Direction::Forward), visited, order, disc),
        forall|v: u32| v < g.node_count() ==> order.contains(v),
        seen.len() == g.node_count(),
        forall|v: int, k: int|
            0 <= v < g.node_count() && seen[v] && 0 <= k < graph_rows(
                g,
                Direction::Reverse,
            )[v].len() ==> seen[(#[trigger] graph_rows(g, Direction::Reverse)[v][k]) as int],
        0 <= t < order.len(),
        forall|j: int| t < j < order.len() ==> seen[(#[trigger] order[j]) as int],
        b < g.node_count(),
        !seen[b as int],
        reaches(graph_rows(g, Direction::Reverse), order[t], b),
    ensures
        reaches(graph_rows(g, Direction::Forward), order[t], b),
{
    let rev = graph_rows(g, Direction::Reverse);
    let w = choose|w: Seq<u32>| walk_between(rev, w, order[t], b);
    assert forall|i: int| 0 <= i < w.len() implies order.index_of(#[trigger] w[i]) <= t by {
        assert(w[i] < rev.len());
        if seen[w[i] as int] {
            lemma_walk_stays(rev, seen, w, i, w.len() - 1);
        }
        assert(order.contains(w[i]));
        let p = order.index_of(w[i]);
        assert(order[p] == w[i]);
        if p > t {
            assert(seen[order[p] as int]);
        }
    }
    lemma_walk_in_span(g, visited, order, disc, t, w, w.len() - 1);
    assert(order.contains(b));
    assert(order[order.index_of(b)] == b);
}

/// The nodes of `g` in the order in which a depth-first search along the
/// edges leaves them.
fn finish_order(graph: &CsrGraph) -> (r: (Vec<u32>, Ghost<Seq<bool>>, Ghost<Seq<nat>>))
    requires
        graph.wf(),
    ensures
        finish_inv(graph_rows(*graph, Direction::Forward), r.1@, r.0@, r.2@),
        forall|v: u32| v < graph.node_count() ==> r.0@.contains(v),
{
    let ghost rows = graph_rows(*graph, Direction::Forward);
    let n = graph.num_nodes();
    let mut visited = all_false(n);
    let mut order: Vec<u32> = Vec::new();
    let ghost mut disc: Seq<nat> = Seq::new(n as nat, |i: int| 0nat);
    let mut start: usize = 0;
    proof {
        lemma_graph_rows_closed(*graph, Direction::Forward);
    }
    while start < n
        invariant
            graph.wf(),
            rows == graph_rows(*graph, Direction::Forward),
            rows.len() == n,
            n == graph.node_count(),
            start <= n,
            finish_inv(rows, visited@, order@, disc),
            forall|v: u32| v < n && (#[trigger] visited@[v as int]) ==> order@.contains(v),
            forall|v: int| 0 <= v < start ==> visited@[v],
        decreases n - start,
    {
        if !visited[start] {
            let ghost v0 = visited@;
            let ghost o0 = order@;
            let next = finish_from(graph, start, &mut visited, &mut order, Ghost(disc));
            proof {
                disc = next@;
                assert forall|v: u32| v < n && (#[trigger] visited@[v as int]) implies order@.contains(
                    v,
                ) by {
                    if v0[v as int] {
                        let i = choose|i: int| 0 <= i < o0.len() && o0[i] == v;
                        assert(order@.take(o0.len() as int)[i] == o0[i]);
                    }
                }
            }
        }
        start += 1;
    }
    proof {
        assert forall|v: u32| v < n implies order@.contains(v) by {
            assert(visited@[v as int]);
        }
    }
    (order, Ghost(visited@), Ghost(disc))
}

/// `a` and `b` reach each other along the edges.
pub open spec fn strongly_connected(g: CsrGraph, a: u32, b: u32) -> bool {
    reaches(graph_rows(g, Direction::Forward), a, b) && reaches(
        graph_rows(g, Direction::Forward),
        b,
        a,
    )
}

/// `comps` splits the nodes that `seen` marks: each of them is listed in
/// exactly one place, and nothing else is listed.
pub open spec fn splits(comps: Seq<Vec<NodeId>>, seen: Seq<bool>) -> bool {
    &&& forall|i: int, j: int|
        0 <= i < comps.len() && 0 <= j < comps[i]@.len() ==> (#[trigger] comps[i]@[j]).0
            < seen.len() && seen[comps[i]@[j].0 as int]
    &&& forall|v: u32|
        v < seen.len() && (#[trigger] seen[v as int]) ==> exists|i: int, j: int|
            0 <= i < comps.len() && 0 <= j < comps[i]@.len() && comps[i]@[j].0 == v
    &&& forall|i1: int, j1: int, i2: int, j2: int|
        0 <= i1 < comps.len() && 0 <= j1 < comps[i1]@.len() && 0 <= i2 < comps.len() && 0 <= j2
            < comps[i2]@.len() && (i1 != i2 || j1 != j2) ==> #[trigger] comps[i1]@[j1]
            != #[trigger] comps[i2]@[j2]
}

/// Every listed set is non-empty, and its nodes and its first node reach
/// each other.
pub open spec fn mutually_reaching(g: CsrGraph, comps: Seq<Vec<NodeId>>) -> bool {
    &&& forall|i: int| 0 <= i < comps.len() ==> (#[trigger] comps[i])@.len() > 0
    &&& forall|i: int, j: int|
        0 <= i < comps.len() && 0 <= j < comps[i]@.len() ==> strongly_connected(
            g,
            comps[i]@[0].0,
            (#[trigger] comps[i]@[j]).0,
        )
}

/// Every listed set is non-empty and strongly connected, and no node of an
/// earlier set reaches a node of a later one: the sets that nothing leaves
/// come first.
pub open spec fn strong_components(g: CsrGraph, comps: Seq<Vec<NodeId>>) -> bool {
    &&& mutually_reaching(g, comps)
    &&& forall|i1: int, j1: int, i2: int, j2: int|
        0 <= i1 < i2 < comps.len() && 0 <= j1 < comps[i1]@.len() && 0 <= j2 < comps[i2]@.len()
            ==> !reaches(
            graph_rows(g, Direction::Forward),
            (#[trigger] comps[i1]@[j1]).0,
            (#[trigger] comps[i2]@[j2]).0,
        )
}

/// The order in which the second pass finds the sets: no node of a later
/// set reaches a node of an earlier one.
spec fn found_in_order(g: CsrGraph, comps: Seq<Vec<NodeId>>) -> bool {
    &&& mutually_reaching(g, comps)
    &&& forall|i1: int, j1: int, i2: int, j2: int|
        0 <= i1 < i2 < comps.len() && 0 <= j1 < comps[i1]@.len() && 0 <= j2 < comps[i2]@.len()
            ==> !reaches(
            graph_rows(g, Direction::Forward),
            (#[trigger] comps[i2]@[j2]).0,
            (#[trigger] comps[i1]@[j1]).0,
        )
}

/// Read from the back, the sets as the second pass finds them are the
/// strong components with the sets that nothing leaves first, and they
/// split the same nodes.
proof fn lemma_turned_round(g: CsrGraph, comps: Seq<Vec<NodeId>>, seen: Seq<bool>)
    requires
        splits(comps, seen),
        found_in_order(g, comps),
    ensures
        splits(comps.reverse(), seen),
        strong_components(g, comps.reverse()),
{
    let r = comps.reverse();
    let m = comps.len() as int;
    assert forall|i: int| 0 <= i < m implies #[trigger] r[i] == comps[m - 1 - i] by {}
    assert forall|i: int, j: int| 0 <= i < r.len() && 0 <= j < r[i]@.len() implies (
    #[trigger] r[i]@[j]).0 < seen.len() && seen[r[i]@[j].0 as int] by {
        assert(r[i] == comps[m - 1 - i]);
    }
    assert forall|v: u32| v < seen.len() && (#[trigger] seen[v as int]) implies exists|
        i: int,
        j: int,
    | 0 <= i < r.len() && 0 <= j < r[i]@.len() && r[i]@[j].0 == v by {
        let (i, j) = choose|i: int, j: int|
            0 <= i < comps.len() && 0 <= j < comps[i]@.len() && comps[i]@[j].0 == v;
        assert(r[m - 1 - i] == comps[i]);
        assert(r[m - 1 - i]@[j].0 == v);
    }
    assert forall|i1: int, j1: int, i2: int, j2: int|
        0 <= i1 < r.len() && 0 <= j1 < r[i1]@.len() && 0 <= i2 < r.len() && 0 <= j2
            < r[i2]@.len() && (i1 != i2 || j1 != j2) implies #[trigger] r[i1]@[j1]
        != #[trigger] r[i2]@[j2] by {
        assert(r[i1] == comps[m - 1 - i1]);
        assert(r[i2] == comps[m - 1 - i2]);
        assert(comps[m - 1 - i1]@[j1] != comps[m - 1 - i2]@[j2]);
    }
    assert forall|i: int| 0 <= i < r.len() implies (#[trigger] r[i])@.len() > 0 by {
        assert(r[i] == comps[m - 1 - i]);
    }
    assert forall|i: int, j: int| 0 <= i < r.len() && 0 <= j < r[i]@.len() implies
        strongly_connected(g, r[i]@[0].0, (#[trigger] r[i]@[j]).0) by {
        assert(r[i] == comps[m - 1 - i]);
        assert(strongly_connected(g, comps[m - 1 - i]@[0].0, comps[m - 1 - i]@[j].0));
    }
    assert forall|i1: int, j1: int, i2: int, j2: int|
        0 <= i1 < i2 < r.len() && 0 <= j1 < r[i1]@.len() && 0 <= j2 < r[i2]@.len() implies !reaches(
        graph_rows(g, Direction::Forward),
        (#[trigger] r[i1]@[j1]).0,
        (#[trigger] r[i2]@[j2]).0,
    ) by {
        assert(r[i1] == comps[m - 1 - i1]);
        assert(r[i2] == comps[m - 1 - i2]);
        assert(!reaches(
            graph_rows(g, Direction::Forward),
            comps[m - 1 - i1]@[j1].0,
            comps[m - 1 - i2]@[j2].0,
        ));
    }
}

/// The same sets, the last one first.
fn last_first(comps: Vec<Vec<NodeId>>) -> (out: Vec<Vec<NodeId>>)
    ensures
        out@ == comps@.reverse(),
{
    let ghost all = comps@;
    let mut rest = comps;
    let mut out: Vec<Vec<NodeId>> = Vec::new();
    while rest.len() > 0
        invariant
            rest@.len() + out@.len() == all.len(),
            forall|k: int| 0 <= k < rest@.len() ==> rest@[k] == all[k],
            forall|k: int| 0 <= k < out@.len() ==> out@[k] == all[all.len() - 1 - k],
        decreases rest@.len(),
    {
        let last = rest.pop();
        if let Some(c) = last {
            out.push(c);
        }
    }
    assert(out@ =~= all.reverse());
    out
}

/// The strongly connected components of the graph, by Kosaraju's two
/// passes: a search along the edges fixes the order in which the nodes are
/// left; searches against the edges, started from the nodes in the reverse
/// of that order, each collect one component.
///
/// Every node is in exactly one component. The nodes of a component reach
/// each other, and no node reaches a node of a later component: the
/// components come in an order in which every edge between two of them
/// leads from the later to the earlier, so a component that no edge leaves
/// comes before the components that lead into it.
pub fn kosaraju_scc(graph: &CsrGraph) -> (comps: Vec<Vec<NodeId>>)
    requires
        graph.wf(),
    ensures
        splits(comps@, Seq::new(graph.node_count(), |v: int| true)),
        strong_components(*graph, comps@),
{
    let ghost g = *graph;
    let ghost fwd = graph_rows(g, Direction::Forward);
    let ghost rev = graph_rows(g, Direction::Reverse);
    let n = graph.num_nodes();
    let (order, Ghost(all), Ghost(disc)) = finish_order(graph);
    let view = GraphView { graph, dir: Direction::Reverse };
    let mut seen = all_false(n);
    let mut comps: Vec<Vec<NodeId>> = Vec::new();
    proof {
        lemma_graph_rows_closed(g, Direction::Reverse);
        lemma_graph_rows_closed(g, Direction::Forward);
        lemma_full_order_len(order@, n as nat);
    }
    let mut t: usize = n;
    while t > 0
        invariant
            graph.wf(),
            g == *graph,
            view.graph == graph,
            view.dir == Direction::Reverse,
            fwd == graph_rows(g, Direction::Forward),
            rev == graph_rows(g, Direction::Reverse),
            rows_closed(rev),
            rev.len() == n,
            fwd.len() == n,
            n == g.node_count(),
            order@.len() == n,
            t <= n,
            finish_inv(fwd, all, order@, disc),
            forall|v: u32| v < n ==> order@.contains(v),
            seen@.len() == n,
            forall|v: int, k: int|
                0 <= v < n && seen@[v] && 0 <= k < rev[v].len() ==> seen@[(
                #[trigger] rev[v][k]) as int],
            forall|j: int| t <= j < n ==> seen@[(#[trigger] order@[j]) as int],
            splits(comps@, seen@),
            found_in_order(g, comps@),
        decreases t,
    {
        t -= 1;
        let root = order[t] as usize;
        assert(order@[t as int] < n);
        if !seen[root] {
            let ghost s0 = seen@;
            let ghost c0 = comps@;
            let mut raw: Vec<u32> = Vec::new();
            mark_from(&view, root, &mut seen, &mut raw);
            let mut comp: Vec<NodeId> = Vec::new();
            let mut i: usize = 0;
            while i < raw.len()
                invariant
                    i <= raw@.len(),
                    comp@.len() == i,
                    forall|k: int| 0 <= k < i ==> (#[trigger] comp@[k]).0 == raw@[k],
                decreases raw@.len() - i,
            {
                comp.push(NodeId(raw[i]));
                i += 1;
            }
            comps.push(comp);
            proof {
                let s1 = seen@;
                let c1 = comps@;
                let last = c0.len() as int;
                assert(c1[last]@.len() == raw@.len());
                // The new component holds exactly the newly seen nodes.
                assert forall|i: int, j: int|
                    0 <= i < c1.len() && 0 <= j < c1[i]@.len() implies (#[trigger] c1[i]@[j]).0
                    < s1.len() && s1[c1[i]@[j].0 as int] by {
                    if i < last {
                        assert(c1[i] == c0[i]);
                        assert(s0[c0[i]@[j].0 as int]);
                    } else {
                        assert(c1[i]@[j].0 == raw@[j]);
                    }
                }
                assert forall|v: u32| v < s1.len() && (#[trigger] s1[v as int]) implies exists|
                    i: int,
                    j: int,
                | 0 <= i < c1.len() && 0 <= j < c1[i]@.len() && c1[i]@[j].0 == v by {
                    if s0[v as int] {
                        let (i, j) = choose|i: int, j: int|
                            0 <= i < c0.len() && 0 <= j < c0[i]@.len() && c0[i]@[j].0 == v;
                        assert(c1[i] == c0[i]);
                    } else {
                        let j = choose|j: int| 0 <= j < raw@.len() && raw@[j] == v;
                        assert(c1[last]@[j].0 == v);
                    }
                }
                assert forall|i1: int, j1: int, i2: int, j2: int|
                    0 <= i1 < c1.len() && 0 <= j1 < c1[i1]@.len() && 0 <= i2 < c1.len() && 0 <= j2
                        < c1[i2]@.len() && (i1 != i2 || j1 != j2) implies #[trigger] c1[i1]@[j1]
                    != #[trigger] c1[i2]@[j2] by {
                    if i1 < last && i2 < last {
                        assert(c1[i1] == c0[i1] && c1[i2] == c0[i2]);
                    } else if i1 < last {
                        assert(c1[i1] == c0[i1]);
                        assert(s0[c0[i1]@[j1].0 as int]);
                        assert(c1[i2]@[j2].0 == raw@[j2]);
                    } else if i2 < last {
                        assert(c1[i2] == c0[i2]);
                        assert(s0[c0[i2]@[j2].0 as int]);
                        assert(c1[i1]@[j1].0 == raw@[j1]);
                    } else {
                        assert(c1[i1]@[j1].0 == raw@[j1]);
                        assert(c1[i2]@[j2].0 == raw@[j2]);
                        if j1 < j2 {
                            assert(raw@[j1] != raw@[j2]);
                        } else {
                            assert(raw@[j2] != raw@[j1]);
                        }
                    }
                }
                // The nodes of the new component and its root reach each other.
                assert forall|i: int, j: int|
                    0 <= i < c1.len() && 0 <= j < c1[i]@.len() implies strongly_connected(
                    g,
                    c1[i]@[0].0,
                    (#[trigger] c1[i]@[j]).0,
                ) by {
                    if i < last {
                        assert(c1[i] == c0[i]);
                        assert(strongly_connected(g, c0[i]@[0].0, c0[i]@[j].0));
                    } else {
                        let b = raw@[j];
                        assert(c1[i]@[j].0 == b);
                        assert(c1[i]@[0].0 == raw@[0]);
                        assert(raw@[0] == root);
                        assert(reaches(rev, root as u32, b));
                        crate::algorithms::traversal::lemma_forward_reverse(g, b, root as u32);
                        lemma_root_reaches(g, all, order@, disc, s0, t as int, b);
                    }
                }
                // No new node reaches an earlier component.
                assert forall|i1: int, j1: int, i2: int, j2: int|
                    0 <= i1 < i2 < c1.len() && 0 <= j1 < c1[i1]@.len() && 0 <= j2
                        < c1[i2]@.len() implies !reaches(
                    fwd,
                    (#[trigger] c1[i2]@[j2]).0,
                    (#[trigger] c1[i1]@[j1]).0,
                ) by {
                    assert(c1[i1] == c0[i1]);
                    if i2 < last {
                        assert(c1[i2] == c0[i2]);
                    } else {
                        let a = c0[i1]@[j1].0;
                        let b = raw@[j2];
                        assert(c1[i2]@[j2].0 == b);
                        assert(s0[a as int]);
                        if reaches(fwd, b, a) {
                            crate::algorithms::traversal::lemma_forward_reverse(g, b, a);
                            let inside = Set::new(|v: u32| v < n && s0[v as int]);
                            assert forall|u: u32, k: int|
                                inside.contains(u) && u < rev.len() && 0 <= k
                                    < rev[u as int].len() implies inside.contains(
                                #[trigger] rev[u as int][k],
                            ) by {
                                assert(rev[u as int][k] < rev.len());
                                assert(s0[rev[u as int][k] as int]);
                            }
                            lemma_closed_set_covers(rev, inside, a, b);
                            assert(false);
                        }
                    }
                }
                assert forall|i: int| 0 <= i < c1.len() implies (#[trigger] c1[i])@.len() > 0 by {
                    if i < last {
                        assert(c1[i] == c0[i]);
                    }
                }
                assert forall|v: int, k: int|
                    0 <= v < n && s1[v] && 0 <= k < rev[v].len() implies s1[(
                #[trigger] rev[v][k]) as int] by {
                    if s0[v] {
                        assert(s0[rev[v][k] as int]);
                    }
                }
                assert forall|j: int| t <= j < n implies s1[(#[trigger] order@[j]) as int] by {
                    if j > t {
                        assert(s0[order@[j] as int]);
                    }
                }
            }
        }
    }
    proof {
        let full = Seq::new(graph.node_count(), |v: int| true);
        assert forall|v: int| 0 <= v < n implies seen@[v] by {
            assert(order@.contains(v as u32));
            let j = choose|j: int| 0 <= j < order@.len() && order@[j] == v as u32;
            assert(seen@[order@[j] as int]);
        }
        assert(seen@ =~= full);
        lemma_turned_round(g, comps@, full);
    }
    last_first(comps)
}

} // verus!
