//! Breadth-first traversal: what a node reaches, and who reaches it.

use crate::algorithms::levels::{bfs_levels, UNREACHED};
use crate::algorithms::reach::{
    graph_rows, hop, is_walk, lemma_reaches_nodes, lemma_within_weaken, lemma_within_zero,
    reaches, walk_between, within, Direction, GraphView,
};
use crate::error::GraphError;
use crate::storage::csr::{CsrGraph, NodeId};
use vstd::prelude::*;

verus! {

/// `t` can be reached from `s` along the edges of `g`.
pub open spec fn reachable(g: CsrGraph, s: u32, t: u32) -> bool {
    reaches(graph_rows(g, Direction::Forward), s, t)
}

/// `u` reaches `t` along at most `d` edges of `g`: `u` is a caller of `t`
/// at depth `d` or less. Stated on the reverse layout, from `t` back to `u`.
pub open spec fn calls_within(g: CsrGraph, u: u32, t: u32, d: nat) -> bool {
    within(graph_rows(g, Direction::Reverse), t, u, d)
}

/// Strictly increasing.
pub open spec fn ascending(s: Seq<u32>) -> bool {
    forall|i: int, j: int| 0 <= i < j < s.len() ==> s[i] < s[j]
}

/// The reached nodes of a distance array in increasing order, without
/// `skip`.
fn collect_reached(dist: &Vec<u32>, skip: Option<u32>) -> (out: Vec<u32>)
    requires
        dist@.len() <= u32::MAX,
    ensures
        ascending(out@),
        forall|v: u32|
            out@.contains(v) <==> v < dist@.len() && dist@[v as int] != UNREACHED && skip != Some(
                v,
            ),
{
    let mut out: Vec<u32> = Vec::new();
    let mut i: usize = 0;
    while i < dist.len()
        invariant
            i <= dist@.len(),
            dist@.len() <= u32::MAX,
            ascending(out@),
            forall|k: int| 0 <= k < out@.len() ==> out@[k] < i,
            forall|v: u32|
                out@.contains(v) <==> v < i && dist@[v as int] != UNREACHED && skip != Some(v),
        decreases dist@.len() - i,
    {
        let v = i as u32;
        let keep = dist[i] != UNREACHED && match skip {
            Some(s) => s != v,
            None => true,
        };
        if keep {
            let ghost before = out@;
            out.push(v);
            proof {
                assert(out@[out@.len() - 1] == v);
                assert forall|x: u32|
                    out@.contains(x) <==> x < i + 1 && dist@[x as int] != UNREACHED && skip
                        != Some(x) by {
                    if out@.contains(x) {
                        let k = choose|k: int| 0 <= k < out@.len() && out@[k] == x;
                        if k < before.len() {
                            assert(before[k] == x);
                            assert(before.contains(x));
                        }
                    }
                    if x < i && dist@[x as int] != UNREACHED && skip != Some(x) {
                        assert(before.contains(x));
                        let k = choose|k: int| 0 <= k < before.len() && before[k] == x;
                        assert(out@[k] == x);
                    }
                }
            }
        }
        i += 1;
    }
    out
}

/// The nodes reachable from `source` along the edges, the source among
/// them, in increasing order.
///
/// On the empty graph the result is empty. On any other graph a source
/// that is no node is refused with `NodeOutOfRange`.
pub fn bfs(graph: &CsrGraph, source: NodeId) -> (r: Result<Vec<u32>, GraphError>)
    requires
        graph.wf(),
    ensures
        graph.node_count() == 0 ==> r is Ok && r->Ok_0@.len() == 0,
        graph.node_count() > 0 && source.0 >= graph.node_count() ==> r == Err::<
            Vec<u32>,
            GraphError,
        >(GraphError::NodeOutOfRange),
        source.0 < graph.node_count() ==> r is Ok && ascending(r->Ok_0@) && forall|v: u32|
            r->Ok_0@.contains(v) <==> reachable(*graph, source.0, v),
{
    let n = graph.num_nodes();
    if n == 0 {
        return Ok(Vec::new());
    }
    if source.0 as usize >= n {
        return Err(GraphError::NodeOutOfRange);
    }
    let view = GraphView { graph, dir: Direction::Forward };
    let dist = bfs_levels(&view, source.0, n);
    let out = collect_reached(&dist, None);
    proof {
        let rows = graph_rows(*graph, Direction::Forward);
        assert forall|v: u32| out@.contains(v) <==> reachable(*graph, source.0, v) by {
            if out@.contains(v) {
                assert(dist@[v as int] != UNREACHED);
                lemma_within_weaken(rows, source.0, v, n as nat, n as nat);
            }
            if reachable(*graph, source.0, v) {
                lemma_reaches_nodes(rows, source.0, v);
                assert(dist@[v as int] != UNREACHED);
            }
        }
    }
    Ok(out)
}

/// The nodes, other than `target`, from which `target` is reached along
/// at most `max_depth` edges, in increasing order.
///
/// Depth 0 asks for nothing and gives the empty result. At any other
/// depth a target that is no node is refused with `NodeOutOfRange`. With a
/// depth of at least the node count the result holds every node that
/// reaches the target.
pub fn find_callers(graph: &CsrGraph, target: NodeId, max_depth: usize) -> (r: Result<
    Vec<u32>,
    GraphError,
>)
    requires
        graph.wf(),
    ensures
        max_depth == 0 ==> r is Ok && r->Ok_0@.len() == 0,
        max_depth > 0 && target.0 >= graph.node_count() ==> r == Err::<Vec<u32>, GraphError>(
            GraphError::NodeOutOfRange,
        ),
        target.0 < graph.node_count() ==> r is Ok && ascending(r->Ok_0@) && forall|u: u32|
            r->Ok_0@.contains(u) <==> u != target.0 && calls_within(
                *graph,
                u,
                target.0,
                max_depth as nat,
            ),
        target.0 < graph.node_count() && max_depth >= graph.node_count() ==> forall|u: u32|
            r->Ok_0@.contains(u) <==> u != target.0 && reachable(*graph, u, target.0),
{
    if max_depth == 0 {
        proof {
            if target.0 < graph.node_count() {
                let rows = graph_rows(*graph, Direction::Reverse);
                assert forall|u: u32| u != target.0 implies !calls_within(
                    *graph,
                    u,
                    target.0,
                    0,
                ) by {
                    if calls_within(*graph, u, target.0, 0) {
                        lemma_within_zero(rows, target.0, u);
                    }
                }
            }
        }
        let out: Vec<u32> = Vec::new();
        assert(forall|u: u32| !out@.contains(u));
        return Ok(out);
    }
    let n = graph.num_nodes();
    if target.0 as usize >= n {
        return Err(GraphError::NodeOutOfRange);
    }
    let view = GraphView { graph, dir: Direction::Reverse };
    let dist = bfs_levels(&view, target.0, max_depth);
    let out = collect_reached(&dist, Some(target.0));
    proof {
        let rows = graph_rows(*graph, Direction::Reverse);
        assert forall|u: u32|
            out@.contains(u) <==> u != target.0 && calls_within(
                *graph,
                u,
                target.0,
                max_depth as nat,
            ) by {
            if u != target.0 && calls_within(*graph, u, target.0, max_depth as nat) {
                lemma_within_weaken(rows, target.0, u, max_depth as nat, max_depth as nat);
                lemma_reaches_nodes(rows, target.0, u);
            }
        }
        if max_depth >= n {
            assert forall|u: u32|
                out@.contains(u) <==> u != target.0 && reachable(*graph, u, target.0) by {
                lemma_forward_reverse(*graph, u, target.0);
                if out@.contains(u) {
                    lemma_within_weaken(rows, target.0, u, max_depth as nat, max_depth as nat);
                }
                if u != target.0 && reachable(*graph, u, target.0) {
                    lemma_reaches_nodes(rows, target.0, u);
                }
            }
        }
    }
    Ok(out)
}

/// A walk of the forward layout, read backwards, is a walk of the reverse
/// layout, and the other way round.
pub proof fn lemma_walk_reversed(g: CsrGraph, p: Seq<u32>, from: Direction)
    requires
        g.wf(),
        from != Direction::Both,
        is_walk(graph_rows(g, from), p),
    ensures
        is_walk(
            graph_rows(
                g,
                if from == Direction::Forward {
                    Direction::Reverse
                } else {
                    Direction::Forward
                },
            ),
            p.reverse(),
        ),
        p.reverse().first() == p.last(),
        p.reverse().last() == p.first(),
        p.reverse().len() == p.len(),
{
    let to = if from == Direction::Forward {
        Direction::Reverse
    } else {
        Direction::Forward
    };
    let a = graph_rows(g, from);
    let b = graph_rows(g, to);
    let q = p.reverse();
    assert forall|i: int| 0 <= i < q.len() implies (#[trigger] q[i]) < b.len() by {
        assert(p[p.len() - 1 - i] < a.len());
    }
    assert forall|i: int| 0 <= i < q.len() - 1 implies #[trigger] hop(b, q, i) by {
        let k = p.len() - 2 - i;
        assert(hop(a, p, k));
        assert(p[k] < a.len());
        assert(p[k + 1] < a.len());
        if from == Direction::Forward {
            g.lemma_edge_symmetry(p[k], p[k + 1]);
        } else {
            g.lemma_edge_symmetry(p[k + 1], p[k]);
        }
        assert(q[i] == p[k + 1]);
        assert(q[i + 1] == p[k]);
    }
}

/// Forward search and reverse search agree: `v` is reached from `s`
/// along the edges exactly when `s` is reached from `v` against them, and
/// in as many steps.
pub proof fn lemma_forward_reverse(g: CsrGraph, s: u32, v: u32)
    requires
        g.wf(),
    ensures
        reachable(g, s, v) <==> reaches(graph_rows(g, Direction::Reverse), v, s),
        forall|d: nat|
            within(graph_rows(g, Direction::Forward), s, v, d) <==> #[trigger] calls_within(
                g,
                s,
                v,
                d,
            ),
{
    let fwd = graph_rows(g, Direction::Forward);
    let rev = graph_rows(g, Direction::Reverse);
    if reachable(g, s, v) {
        let p = choose|p: Seq<u32>| walk_between(fwd, p, s, v);
        lemma_walk_reversed(g, p, Direction::Forward);
        assert(walk_between(rev, p.reverse(), v, s));
    }
    if reaches(rev, v, s) {
        let p = choose|p: Seq<u32>| walk_between(rev, p, v, s);
        lemma_walk_reversed(g, p, Direction::Reverse);
        assert(walk_between(fwd, p.reverse(), s, v));
    }
    assert forall|d: nat| within(fwd, s, v, d) <==> #[trigger] calls_within(g, s, v, d) by {
        if within(fwd, s, v, d) {
            let p = choose|p: Seq<u32>| #[trigger] walk_between(fwd, p, s, v) && p.len() <= d + 1;
            lemma_walk_reversed(g, p, Direction::Forward);
            assert(walk_between(rev, p.reverse(), v, s) && p.reverse().len() <= d + 1);
        }
        if within(rev, v, s, d) {
            let p = choose|p: Seq<u32>| #[trigger] walk_between(rev, p, v, s) && p.len() <= d + 1;
            lemma_walk_reversed(g, p, Direction::Reverse);
            assert(walk_between(fwd, p.reverse(), s, v) && p.reverse().len() <= d + 1);
        }
    }
}

} // verus!
