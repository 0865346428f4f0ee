//! Cycle detection and topological order by three-colour depth-first
//! search.
//!
//! A node is unvisited, on the stack of the search, or finished. An edge
//! into a node on the stack closes a cycle. Without such an edge every node
//! finishes after all its successors, so the finishing order, reversed, is a
//! topological order.

use crate::algorithms::reach::{
    graph_rows, has_cycle, hop, is_walk, lemma_graph_rows_closed, lemma_walk_push,
    lemma_walk_stretch, rows_closed, Direction,
};
use crate::algorithms::counting::lemma_full_order_len;
use crate::error::GraphError;
use crate::storage::csr::{CsrGraph, NodeId};
use vstd::prelude::*;

verus! {

/// Colour of a node during the search.
#[derive(Clone, Copy, PartialEq, Eq, Structural)]
enum NodeState {
    /// Not seen yet.
    Unvisited,
    /// On the stack of the search.
    InStack,
    /// Left behind with all its successors.
    Finished,
}

/// The edges of `g`, as rows of targets.
pub open spec fn forward_rows(g: CsrGraph) -> Seq<Seq<u32>> {
    graph_rows(g, Direction::Forward)
}

/// How many nodes are unvisited.
spec fn unvisited_count(state: Seq<NodeState>) -> nat
    decreases state.len(),
{
    if state.len() == 0 {
        0
    } else {
        unvisited_count(state.drop_last()) + if state.last() == NodeState::Unvisited {
            1nat
        } else {
            0nat
        }
    }
}

/// Colouring an unvisited node lowers the count by one.
proof fn lemma_unvisited_count_mark(state: Seq<NodeState>, i: int, c: NodeState)
    requires
        0 <= i < state.len(),
        state[i] == NodeState::Unvisited,
        c != NodeState::Unvisited,
    ensures
        unvisited_count(state.update(i, c)) + 1 == unvisited_count(state),
    decreases state.len(),
{
    let upd = state.update(i, c);
    if i == state.len() - 1 {
        assert(upd.drop_last() =~= state.drop_last());
    } else {
        assert(upd.drop_last() =~= state.drop_last().update(i, c));
        lemma_unvisited_count_mark(state.drop_last(), i, c);
    }
}

/// Recolouring a visited node leaves the count alone.
proof fn lemma_unvisited_count_recolour(state: Seq<NodeState>, i: int, c: NodeState)
    requires
        0 <= i < state.len(),
        state[i] != NodeState::Unvisited,
        c != NodeState::Unvisited,
    ensures
        unvisited_count(state.update(i, c)) == unvisited_count(state),
    decreases state.len(),
{
    let upd = state.update(i, c);
    if i == state.len() - 1 {
        assert(upd.drop_last() =~= state.drop_last());
    } else {
        assert(upd.drop_last() =~= state.drop_last().update(i, c));
        lemma_unvisited_count_recolour(state.drop_last(), i, c);
    }
}

/// Every successor of the node at position `i` of `order` stands before it.
pub open spec fn successors_earlier(rows: Seq<Seq<u32>>, order: Seq<u32>) -> bool {
    forall|i: int, k: int|
        0 <= i < order.len() && 0 <= k < rows[order[i] as int].len() ==> order.take(i).contains(
            #[trigger] rows[order[i] as int][k],
        )
}

/// What holds between two steps of the search: the finished nodes are
/// those in `order`, each after all its successors; the nodes on the stack
/// form a walk.
spec fn search_inv(
    rows: Seq<Seq<u32>>,
    state: Seq<NodeState>,
    order: Seq<u32>,
    stack: Seq<u32>,
) -> bool {
    &&& state.len() == rows.len()
    &&& order.no_duplicates()
    &&& forall|i: int|
        0 <= i < order.len() ==> (#[trigger] order[i]) < rows.len() && state[order[i] as int]
            == NodeState::Finished
    &&& forall|v: u32|
        v < rows.len() && (#[trigger] state[v as int]) == NodeState::Finished ==> order.contains(v)
    &&& forall|i: int|
        0 <= i < stack.len() ==> (#[trigger] stack[i]) < rows.len() && state[stack[i] as int]
            == NodeState::InStack
    &&& forall|v: u32|
        v < rows.len() && (#[trigger] state[v as int]) == NodeState::InStack ==> stack.contains(v)
    &&& forall|i: int| 0 <= i < stack.len() - 1 ==> #[trigger] hop(rows, stack, i)
    &&& successors_earlier(rows, order)
}

/// An order in which every node stands after its successors leaves no
/// room for a cycle.
pub proof fn lemma_ranked_acyclic(rows: Seq<Seq<u32>>, order: Seq<u32>)
    requires
        order.no_duplicates(),
        forall|v: u32| v < rows.len() ==> order.contains(v),
        successors_earlier(rows, order),
    ensures
        !has_cycle(rows),
{
    if has_cycle(rows) {
        let p = choose|p: Seq<u32>| #[trigger]
            is_walk(rows, p) && p.len() >= 2 && p.first() == p.last();
        lemma_walk_descends(rows, order, p, p.len() - 1);
        assert(false);
    }
}

/// Along a walk the position in such an order falls with every step.
proof fn lemma_walk_descends(rows: Seq<Seq<u32>>, order: Seq<u32>, p: Seq<u32>, m: int)
    requires
        order.no_duplicates(),
        forall|v: u32| v < rows.len() ==> order.contains(v),
        successors_earlier(rows, order),
        is_walk(rows, p),
        0 <= m < p.len(),
    ensures
        order.index_of(p[m]) + m <= order.index_of(p[0]),
    decreases m,
{
    if m > 0 {
        lemma_walk_descends(rows, order, p, m - 1);
        let a = p[m - 1];
        let b = p[m];
        assert(a < rows.len() && b < rows.len());
        assert(hop(rows, p, m - 1));
        assert(order.contains(a));
        assert(order.contains(b));
        let i = order.index_of(a);
        let k = choose|k: int| 0 <= k < rows[a as int].len() && rows[a as int][k] == b;
        assert(order.take(i).contains(rows[order[i] as int][k]));
        let j = choose|j: int| 0 <= j < order.take(i).len() && order.take(i)[j] == b;
        assert(order[j] == b);
        assert(order[order.index_of(b)] == b);
    }
}

/// Visits `node` and everything unvisited below it. Returns `true` as soon
/// as an edge into the stack is met.
fn visit(
    graph: &CsrGraph,
    node: usize,
    state: &mut Vec<NodeState>,
    order: &mut Vec<u32>,
    Ghost(stack): Ghost<Seq<u32>>,
) -> (cyclic: bool)
    requires
        graph.wf(),
        node < graph.node_count(),
        search_inv(forward_rows(*graph), old(state)@, old(order)@, stack),
        old(state)@[node as int] == NodeState::Unvisited,
        stack.len() > 0 ==> forward_rows(*graph)[stack.last() as int].contains(node as u32),
    ensures
        cyclic ==> has_cycle(forward_rows(*graph)),
        !cyclic ==> search_inv(forward_rows(*graph), final(state)@, final(order)@, stack),
        !cyclic ==> final(state)@[node as int] == NodeState::Finished,
        !cyclic ==> forall|v: int|
            0 <= v < old(state)@.len() && old(state)@[v] != NodeState::Unvisited
                ==> final(state)@[v] == old(state)@[v],
        !cyclic ==> unvisited_count(final(state)@) < unvisited_count(old(state)@),
    decreases unvisited_count(old(state)@),
{
    let ghost rows = forward_rows(*graph);
    let ghost state0 = state@;
    let ghost stack2 = stack.push(node as u32);
    proof {
        lemma_graph_rows_closed(*graph, Direction::Forward);
        lemma_unvisited_count_mark(state0, node as int, NodeState::InStack);
    }
    state.set(node, NodeState::InStack);
    proof {
        assert forall|i: int| 0 <= i < stack2.len() - 1 implies #[trigger] hop(rows, stack2, i) by {
            if i < stack.len() - 1 {
                assert(hop(rows, stack, i));
            }
        }
        assert forall|v: u32|
            v < rows.len() && (#[trigger] state@[v as int])
                == NodeState::InStack implies stack2.contains(v) by {
            if v == node {
                assert(stack2[stack2.len() - 1] == v);
            } else {
                assert(state0[v as int] == NodeState::InStack);
                assert(stack.contains(v));
                let i = choose|i: int| 0 <= i < stack.len() && stack[i] == v;
                assert(stack2[i] == v);
            }
        }
        assert forall|i: int| 0 <= i < order@.len() implies (#[trigger] order@[i]) < rows.len()
            && state@[order@[i] as int] == NodeState::Finished by {
            assert(state0[order@[i] as int] == NodeState::Finished);
        }
        assert(search_inv(rows, state@, order@, stack2));
    }
    let nbrs = graph.out_slice(node);
    assert(nbrs@ == rows[node as int]);
    let mut j: usize = 0;
    while j < nbrs.len()
        invariant
            graph.wf(),
            rows == forward_rows(*graph),
            rows_closed(rows),
            node < rows.len(),
            rows.len() == graph.node_count(),
            nbrs@ == rows[node as int],
            j <= nbrs@.len(),
            stack2 == stack.push(node as u32),
            state0 == old(state)@,
            state0.len() == rows.len(),
            search_inv(rows, state@, order@, stack2),
            state@[node as int] == NodeState::InStack,
            forall|k: int| 0 <= k < j ==> state@[(#[trigger] nbrs@[k]) as int] == NodeState::Finished,
            unvisited_count(state@) < unvisited_count(state0),
            forall|v: int|
                0 <= v < state0.len() && state0[v] != NodeState::Unvisited ==> state@[v]
                    == state0[v],
        decreases nbrs@.len() - j,
    {
        let x = nbrs[j] as usize;
        assert(rows[node as int][j as int] < rows.len());
        let ghost before = state@;
        match state[x] {
            NodeState::InStack => {
                proof {
                    assert(stack2.contains(x as u32));
                    let i = choose|i: int| 0 <= i < stack2.len() && stack2[i] == x as u32;
                    assert(is_walk(rows, stack2));
                    lemma_walk_stretch(rows, stack2, i, stack2.len() as int);
                    let tail = stack2.subrange(i, stack2.len() as int);
                    assert(tail.last() == node as u32);
                    assert(rows[node as int].contains(nbrs@[j as int]));
                    lemma_walk_push(rows, tail, x as u32);
                    let cycle = tail.push(x as u32);
                    assert(is_walk(rows, cycle) && cycle.len() >= 2 && cycle.first()
                        == cycle.last());
                }
                return true;
            },
            NodeState::Unvisited => {
                proof {
                    assert(rows[stack2.last() as int].contains(nbrs@[j as int]));
                }
                if visit(graph, x, state, order, Ghost(stack2)) {
                    return true;
                }
            },
            NodeState::Finished => {},
        }
        proof {
            assert forall|k: int| 0 <= k < j + 1 implies state@[(#[trigger] nbrs@[k]) as int]
                == NodeState::Finished by {
                if k < j {
                    assert(before[nbrs@[k] as int] == NodeState::Finished);
                }
            }
        }
        j += 1;
    }
    let ghost state1 = state@;
    let ghost order1 = order@;
    proof {
        lemma_unvisited_count_recolour(state1, node as int, NodeState::Finished);
        assert(!order1.contains(node as u32)) by {
            if order1.contains(node as u32) {
                let i = choose|i: int| 0 <= i < order1.len() && order1[i] == node as u32;
                assert(state1[order1[i] as int] == NodeState::Finished);
            }
        }
    }
    state.set(node, NodeState::Finished);
    order.push(node as u32);
    proof {
        let last = order1.len() as int;
        assert(order@[last] == node as u32);
        assert(order@.no_duplicates()) by {
            assert forall|a: int, b: int| 0 <= a < order@.len() && 0 <= b < order@.len() && a
                != b implies order@[a] != order@[b] by {
                if a == last {
                    assert(order1[b] == order@[b]);
                    assert(order1.contains(order1[b]));
                } else if b == last {
                    assert(order1[a] == order@[a]);
                    assert(order1.contains(order1[a]));
                }
            }
        }
        assert forall|i: int| 0 <= i < order@.len() implies (#[trigger] order@[i]) < rows.len()
            && state@[order@[i] as int] == NodeState::Finished by {
            if i < last {
                assert(order1[i] == order@[i]);
                assert(state1[order1[i] as int] == NodeState::Finished);
            }
        }
        assert forall|v: u32|
            v < rows.len() && (#[trigger] state@[v as int])
                == NodeState::Finished implies order@.contains(v) by {
            if v == node {
                assert(order@[last] == v);
            } else {
                assert(state1[v as int] == NodeState::Finished);
                assert(order1.contains(v));
                let i = choose|i: int| 0 <= i < order1.len() && order1[i] == v;
                assert(order@[i] == v);
            }
        }
        assert forall|i: int| 0 <= i < stack.len() implies (#[trigger] stack[i]) < rows.len()
            && state@[stack[i] as int] == NodeState::InStack by {
            assert(stack2[i] == stack[i]);
            assert(state0[stack[i] as int] == NodeState::InStack);
        }
        assert forall|v: u32|
            v < rows.len() && (#[trigger] state@[v as int])
                == NodeState::InStack implies stack.contains(v) by {
            assert(state1[v as int] == NodeState::InStack);
            assert(stack2.contains(v));
            let i = choose|i: int| 0 <= i < stack2.len() && stack2[i] == v;
            assert(i < stack.len());
            assert(stack[i] == v);
        }
        assert forall|i: int| 0 <= i < stack.len() - 1 implies #[trigger] hop(rows, stack, i) by {
            assert(hop(rows, stack2, i));
        }
        assert forall|i: int, k: int|
            0 <= i < order@.len() && 0 <= k < rows[order@[i] as int].len() implies order@.take(
            i,
        ).contains(#[trigger] rows[order@[i] as int][k]) by {
            if i < last {
                assert(order@[i] == order1[i]);
                assert(order1.take(i).contains(rows[order1[i] as int][k]));
                assert(order@.take(i) =~= order1.take(i));
            } else {
                assert(state1[nbrs@[k] as int] == NodeState::Finished);
                assert(order1.contains(nbrs@[k]));
                assert(order@.take(i) =~= order1);
            }
        }
    }
    false
}

/// Searches from every unvisited node in turn. Gives the finishing order,
/// or nothing when an edge into the stack was met.
fn finishing_order(graph: &CsrGraph) -> (r: Option<Vec<u32>>)
    requires
        graph.wf(),
    ensures
        r is None ==> has_cycle(forward_rows(*graph)),
        r is Some ==> !has_cycle(forward_rows(*graph)),
        r is Some ==> {
            let order = r->Some_0@;
            &&& order.len() == graph.node_count()
            &&& order.no_duplicates()
            &&& forall|i: int| 0 <= i < order.len() ==> (#[trigger] order[i]) < graph.node_count()
            &&& forall|v: u32| v < graph.node_count() ==> order.contains(v)
            &&& successors_earlier(forward_rows(*graph), order)
        },
{
    let ghost rows = forward_rows(*graph);
    let n = graph.num_nodes();
    let mut state: Vec<NodeState> = Vec::new();
    let mut i: usize = 0;
    while i < n
        invariant
            i <= n,
            state@.len() == i,
            forall|k: int| 0 <= k < i ==> state@[k] == NodeState::Unvisited,
        decreases n - i,
    {
        state.push(NodeState::Unvisited);
        i += 1;
    }
    let mut order: Vec<u32> = Vec::new();
    let mut start: usize = 0;
    proof {
        lemma_graph_rows_closed(*graph, Direction::Forward);
    }
    while start < n
        invariant
            graph.wf(),
            rows == forward_rows(*graph),
            n == graph.node_count(),
            rows.len() == n,
            start <= n,
            search_inv(rows, state@, order@, Seq::<u32>::empty()),
            forall|v: int| 0 <= v < start ==> state@[v] == NodeState::Finished,
        decreases n - start,
    {
        let ghost before = state@;
        if state[start] == NodeState::Unvisited {
            if visit(graph, start, &mut state, &mut order, Ghost(Seq::<u32>::empty())) {
                return None;
            }
        } else {
            proof {
                if state@[start as int] == NodeState::InStack {
                    assert(Seq::<u32>::empty().contains(start as u32));
                }
            }
        }
        proof {
            assert forall|v: int| 0 <= v < start + 1 implies state@[v] == NodeState::Finished by {
                if v < start {
                    assert(before[v] == NodeState::Finished);
                }
            }
        }
        start += 1;
    }
    proof {
        assert forall|v: u32| v < n implies order@.contains(v) by {
            assert(state@[v as int] == NodeState::Finished);
        }
        lemma_ranked_acyclic(rows, order@);
        lemma_full_order_len(order@, n as nat);
    }
    Some(order)
}

/// Whether the graph has a cycle. A self-loop counts.
pub fn is_cyclic(graph: &CsrGraph) -> (cyclic: bool)
    requires
        graph.wf(),
    ensures
        cyclic == has_cycle(forward_rows(*graph)),
{
    finishing_order(graph).is_none()
}

/// `order` lists every node of `g` once, and every edge goes from an
/// earlier position to a later one.
pub open spec fn is_topological_order(g: CsrGraph, order: Seq<NodeId>) -> bool {
    &&& order.len() == g.node_count()
    &&& forall|i: int| 0 <= i < order.len() ==> (#[trigger] order[i]).0 < g.node_count()
    &&& forall|i: int, j: int| 0 <= i < j < order.len() ==> order[i] != order[j]
    &&& forall|i: int, j: int|
        0 <= i < order.len() && 0 <= j < order.len() && forward_rows(g)[order[i].0 as int].contains(
            order[j].0,
        ) ==> i < j
}

/// A topological order of the graph: every node once, every edge from an
/// earlier to a later position. A graph with a cycle has no such order and
/// is refused with `CycleDetected`.
pub fn toposort(graph: &CsrGraph) -> (r: Result<Vec<NodeId>, GraphError>)
    requires
        graph.wf(),
    ensures
        has_cycle(forward_rows(*graph)) ==> r == Err::<Vec<NodeId>, GraphError>(
            GraphError::CycleDetected,
        ),
        !has_cycle(forward_rows(*graph)) ==> r is Ok && is_topological_order(*graph, r->Ok_0@),
{
    let ghost rows = forward_rows(*graph);
    match finishing_order(graph) {
        None => Err(GraphError::CycleDetected),
        Some(order) => {
            let n = order.len();
            let mut out: Vec<NodeId> = Vec::new();
            let mut i: usize = 0;
            while i < n
                invariant
                    i <= n,
                    n == order@.len(),
                    out@.len() == i,
                    forall|k: int| 0 <= k < i ==> (#[trigger] out@[k]).0 == order@[n - 1 - k],
                decreases n - i,
            {
                out.push(NodeId(order[n - 1 - i]));
                i += 1;
            }
            proof {
                assert forall|i: int, j: int|
                    0 <= i < out@.len() && 0 <= j < out@.len() && rows[out@[i].0 as int].contains(
                        out@[j].0,
                    ) implies i < j by {
                    let a = n - 1 - i;
                    let b = n - 1 - j;
                    let x = out@[j].0;
                    let k = choose|k: int|
                        0 <= k < rows[order@[a] as int].len() && rows[order@[a] as int][k] == x;
                    assert(order@.take(a).contains(rows[order@[a] as int][k]));
                    let c = choose|c: int| 0 <= c < order@.take(a).len() && order@.take(a)[c] == x;
                    assert(order@[c] == order@[b]);
                }
                assert forall|i: int, j: int| 0 <= i < j < out@.len() implies out@[i]
                    != out@[j] by {
                    assert(order@[n - 1 - i] != order@[n - 1 - j]);
                }
                assert forall|i: int| 0 <= i < out@.len() implies (#[trigger] out@[i]).0
                    < graph.node_count() by {
                    assert(order@[n - 1 - i] < graph.node_count());
                }
            }
            Ok(out)
        },
    }
}

} // verus!
