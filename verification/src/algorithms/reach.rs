//! Walks and reachability over neighbour lists, and the views under which
//! the algorithms read a graph.
//!
//! A graph is read as a sequence of rows: row `u` lists the neighbours of
//! node `u`. The same algorithm then serves the forward layout, the reverse
//! layout, and the undirected reading that follows both.

use crate::storage::csr::CsrGraph;
use vstd::prelude::*;

verus! {

/// Every listed neighbour is a node.
pub open spec fn rows_closed(rows: Seq<Seq<u32>>) -> bool {
    forall|u: int, i: int|
        0 <= u < rows.len() && 0 <= i < rows[u].len() ==> (#[trigger] rows[u][i]) < rows.len()
}

/// `p[i + 1]` is a neighbour of `p[i]`.
pub open spec fn hop(rows: Seq<Seq<u32>>, p: Seq<u32>, i: int) -> bool {
    rows[p[i] as int].contains(p[i + 1])
}

/// A walk: at least one node, every node in the graph, every step an edge.
pub open spec fn is_walk(rows: Seq<Seq<u32>>, p: Seq<u32>) -> bool {
    &&& p.len() >= 1
    &&& forall|i: int| 0 <= i < p.len() ==> (#[trigger] p[i]) < rows.len()
    &&& forall|i: int| 0 <= i < p.len() - 1 ==> #[trigger] hop(rows, p, i)
}

/// A walk from `s` to `t`.
pub open spec fn walk_between(rows: Seq<Seq<u32>>, p: Seq<u32>, s: u32, t: u32) -> bool {
    is_walk(rows, p) && p.first() == s && p.last() == t
}

/// `t` can be reached from `s`. Every node reaches itself.
pub open spec fn reaches(rows: Seq<Seq<u32>>, s: u32, t: u32) -> bool {
    exists|p: Seq<u32>| walk_between(rows, p, s, t)
}

/// `t` can be reached from `s` in at most `d` steps.
pub open spec fn within(rows: Seq<Seq<u32>>, s: u32, t: u32, d: nat) -> bool {
    exists|p: Seq<u32>| #[trigger] walk_between(rows, p, s, t) && p.len() <= d + 1
}

/// `t` is exactly `d` steps from `s`: within `d`, and not within less.
pub open spec fn at_distance(rows: Seq<Seq<u32>>, s: u32, t: u32, d: nat) -> bool {
    within(rows, s, t, d) && (d > 0 ==> !within(rows, s, t, (d - 1) as nat))
}

/// The graph has a cycle: a walk of at least one step that ends where it
/// began. A self-loop is a cycle.
pub open spec fn has_cycle(rows: Seq<Seq<u32>>) -> bool {
    exists|p: Seq<u32>| #[trigger] is_walk(rows, p) && p.len() >= 2 && p.first() == p.last()
}

/// A node alone is a walk.
pub proof fn lemma_walk_single(rows: Seq<Seq<u32>>, s: u32)
    requires
        s < rows.len(),
    ensures
        walk_between(rows, seq![s], s, s),
        within(rows, s, s, 0),
        reaches(rows, s, s),
{
    assert(walk_between(rows, seq![s], s, s));
}

/// A walk goes on along an edge.
pub proof fn lemma_walk_push(rows: Seq<Seq<u32>>, p: Seq<u32>, x: u32)
    requires
        is_walk(rows, p),
        x < rows.len(),
        rows[p.last() as int].contains(x),
    ensures
        is_walk(rows, p.push(x)),
        p.push(x).first() == p.first(),
        p.push(x).last() == x,
{
    let q = p.push(x);
    assert forall|i: int| 0 <= i < q.len() - 1 implies #[trigger] hop(rows, q, i) by {
        if i < p.len() - 1 {
            assert(hop(rows, p, i));
        }
    }
}

/// A walk of several nodes without its last node is a walk, and its last
/// step is an edge.
pub proof fn lemma_walk_drop_last(rows: Seq<Seq<u32>>, p: Seq<u32>)
    requires
        is_walk(rows, p),
        p.len() >= 2,
    ensures
        is_walk(rows, p.drop_last()),
        p.drop_last().first() == p.first(),
        rows[p.drop_last().last() as int].contains(p.last()),
{
    let q = p.drop_last();
    assert forall|i: int| 0 <= i < q.len() - 1 implies #[trigger] hop(rows, q, i) by {
        assert(hop(rows, p, i));
    }
    assert(hop(rows, p, p.len() - 2));
}

/// Any stretch of a walk is a walk.
pub proof fn lemma_walk_stretch(rows: Seq<Seq<u32>>, p: Seq<u32>, a: int, b: int)
    requires
        is_walk(rows, p),
        0 <= a < b <= p.len(),
    ensures
        is_walk(rows, p.subrange(a, b)),
{
    let q = p.subrange(a, b);
    assert forall|i: int| 0 <= i < q.len() - 1 implies #[trigger] hop(rows, q, i) by {
        assert(hop(rows, p, a + i));
    }
}

/// Two walks that meet end to start join into one.
pub proof fn lemma_walk_join(rows: Seq<Seq<u32>>, p: Seq<u32>, q: Seq<u32>)
    requires
        is_walk(rows, p),
        is_walk(rows, q),
        p.last() == q.first(),
    ensures
        is_walk(rows, p + q.drop_first()),
        (p + q.drop_first()).first() == p.first(),
        (p + q.drop_first()).last() == q.last(),
        (p + q.drop_first()).len() == p.len() + q.len() - 1,
{
    let r = p + q.drop_first();
    assert forall|i: int| 0 <= i < r.len() - 1 implies #[trigger] hop(rows, r, i) by {
        if i < p.len() - 1 {
            assert(hop(rows, p, i));
        } else {
            assert(hop(rows, q, i - (p.len() - 1)));
        }
    }
}

/// Reachability is transitive.
pub proof fn lemma_reaches_transitive(rows: Seq<Seq<u32>>, a: u32, b: u32, c: u32)
    requires
        reaches(rows, a, b),
        reaches(rows, b, c),
    ensures
        reaches(rows, a, c),
{
    let p = choose|p: Seq<u32>| walk_between(rows, p, a, b);
    let q = choose|q: Seq<u32>| walk_between(rows, q, b, c);
    lemma_walk_join(rows, p, q);
    assert(walk_between(rows, p + q.drop_first(), a, c));
}

/// One more step reaches the neighbours.
pub proof fn lemma_reaches_step(rows: Seq<Seq<u32>>, s: u32, m: u32, t: u32)
    requires
        reaches(rows, s, m),
        t < rows.len(),
        rows[m as int].contains(t),
    ensures
        reaches(rows, s, t),
{
    let p = choose|p: Seq<u32>| walk_between(rows, p, s, m);
    lemma_walk_push(rows, p, t);
    assert(walk_between(rows, p.push(t), s, t));
}

/// One more step reaches the neighbours, counting steps.
pub proof fn lemma_within_step(rows: Seq<Seq<u32>>, s: u32, m: u32, t: u32, d: nat)
    requires
        within(rows, s, m, d),
        t < rows.len(),
        rows[m as int].contains(t),
    ensures
        within(rows, s, t, d + 1),
{
    let p = choose|p: Seq<u32>| #[trigger] walk_between(rows, p, s, m) && p.len() <= d + 1;
    lemma_walk_push(rows, p, t);
    assert(walk_between(rows, p.push(t), s, t));
}

/// What is within `d` steps is within any larger number of steps, and
/// reachable.
pub proof fn lemma_within_weaken(rows: Seq<Seq<u32>>, s: u32, t: u32, d: nat, e: nat)
    requires
        within(rows, s, t, d),
        d <= e,
    ensures
        within(rows, s, t, e),
        reaches(rows, s, t),
{
    let p = choose|p: Seq<u32>| #[trigger] walk_between(rows, p, s, t) && p.len() <= d + 1;
    assert(walk_between(rows, p, s, t) && p.len() <= e + 1);
}

/// What is reachable is within some number of steps.
pub proof fn lemma_reaches_within(rows: Seq<Seq<u32>>, s: u32, t: u32) -> (d: nat)
    requires
        reaches(rows, s, t),
    ensures
        within(rows, s, t, d),
{
    let p = choose|p: Seq<u32>| walk_between(rows, p, s, t);
    assert(walk_between(rows, p, s, t) && p.len() <= (p.len() - 1) as nat + 1);
    (p.len() - 1) as nat
}

/// A node within `d + 1` steps is within `d` steps or the neighbour of a
/// node that is.
pub proof fn lemma_within_unstep(rows: Seq<Seq<u32>>, s: u32, t: u32, d: nat)
    requires
        within(rows, s, t, d + 1),
    ensures
        within(rows, s, t, d) || exists|m: u32|
            #![trigger within(rows, s, m, d)]
            m < rows.len() && within(rows, s, m, d) && rows[m as int].contains(t),
{
    let p = choose|p: Seq<u32>| #[trigger] walk_between(rows, p, s, t) && p.len() <= d + 2;
    if p.len() <= d + 1 {
        assert(within(rows, s, t, d));
    } else {
        lemma_walk_drop_last(rows, p);
        let q = p.drop_last();
        let m = q.last();
        assert(walk_between(rows, q, s, m) && q.len() <= d + 1);
        assert(q[q.len() - 1] < rows.len());
        assert(m < rows.len() && within(rows, s, m, d) && rows[m as int].contains(t));
    }
}

/// Only the start is within 0 steps.
pub proof fn lemma_within_zero(rows: Seq<Seq<u32>>, s: u32, t: u32)
    requires
        within(rows, s, t, 0),
    ensures
        s == t,
        s < rows.len(),
{
    let p = choose|p: Seq<u32>| #[trigger] walk_between(rows, p, s, t) && p.len() <= 1;
    assert(p[0] < rows.len());
}

/// The ends of a walk are nodes.
pub proof fn lemma_reaches_nodes(rows: Seq<Seq<u32>>, s: u32, t: u32)
    requires
        reaches(rows, s, t),
    ensures
        s < rows.len(),
        t < rows.len(),
{
    let p = choose|p: Seq<u32>| walk_between(rows, p, s, t);
    assert(p[0] < rows.len());
    assert(p[p.len() - 1] < rows.len());
}

/// A set of nodes that holds `s` and, with every node, its neighbours,
/// holds everything that `s` reaches.
pub proof fn lemma_closed_set_covers(rows: Seq<Seq<u32>>, inside: Set<u32>, s: u32, t: u32)
    requires
        inside.contains(s),
        forall|u: u32, i: int|
            inside.contains(u) && u < rows.len() && 0 <= i < rows[u as int].len()
                ==> inside.contains(#[trigger] rows[u as int][i]),
        reaches(rows, s, t),
    ensures
        inside.contains(t),
{
    let p = choose|p: Seq<u32>| walk_between(rows, p, s, t);
    lemma_closed_set_covers_walk(rows, inside, p, p.len() - 1);
}

/// Induction behind `lemma_closed_set_covers`, along the walk.
proof fn lemma_closed_set_covers_walk(rows: Seq<Seq<u32>>, inside: Set<u32>, p: Seq<u32>, k: int)
    requires
        is_walk(rows, p),
        inside.contains(p.first()),
        forall|u: u32, i: int|
            inside.contains(u) && u < rows.len() && 0 <= i < rows[u as int].len()
                ==> inside.contains(#[trigger] rows[u as int][i]),
        0 <= k < p.len(),
    ensures
        inside.contains(p[k]),
    decreases k,
{
    if k > 0 {
        lemma_closed_set_covers_walk(rows, inside, p, k - 1);
        assert(hop(rows, p, k - 1));
        let u = p[k - 1];
        assert(u < rows.len());
        let i = choose|i: int| 0 <= i < rows[u as int].len() && rows[u as int][i] == p[k];
        assert(inside.contains(rows[u as int][i]));
    }
}

/// How a graph is read.
#[derive(Debug, Clone, Copy, PartialEq, Eq, Structural)]
pub enum Direction {
    /// Along the edges: the neighbours of a node are its targets.
    Forward,
    /// Against the edges: the neighbours of a node are its sources.
    Reverse,
    /// Both ways: targets first, then sources.
    Both,
}

/// The rows of a graph under a direction.
pub open spec fn graph_rows(g: CsrGraph, dir: Direction) -> Seq<Seq<u32>> {
    Seq::new(
        g.node_count(),
        |u: int|
            match dir {
                Direction::Forward => g.out_targets(u),
                Direction::Reverse => g.in_sources(u),
                Direction::Both => g.out_targets(u) + g.in_sources(u),
            },
    )
}

/// The neighbour lists of a well-formed graph list nodes only.
pub proof fn lemma_graph_rows_closed(g: CsrGraph, dir: Direction)
    requires
        g.wf(),
    ensures
        rows_closed(graph_rows(g, dir)),
        graph_rows(g, dir).len() == g.node_count(),
{
    let rows = graph_rows(g, dir);
    let n = g.node_count() as int;
    assert forall|u: int, i: int| 0 <= u < rows.len() && 0 <= i < rows[u].len() implies (
    #[trigger] rows[u][i]) < rows.len() by {
        assert(g.row_off()[u] <= g.row_off()[u + 1] <= g.row_off()[n]);
        assert(g.rrow_off()[u] <= g.rrow_off()[u + 1] <= g.rrow_off()[n]);
        let a = g.row_off()[u] as int;
        let b = g.rrow_off()[u] as int;
        match dir {
            Direction::Forward => {
                assert(rows[u][i] == g.col_idx()[a + i]);
            },
            Direction::Reverse => {
                assert(rows[u][i] == g.rcol_idx()[b + i]);
            },
            Direction::Both => {
                if i < g.out_targets(u).len() {
                    assert(rows[u][i] == g.col_idx()[a + i]);
                } else {
                    assert(rows[u][i] == g.rcol_idx()[b + (i - g.out_targets(u).len())]);
                }
            },
        }
    }
}

/// A source of neighbour lists that a traversal can read.
pub trait Adjacency {
    /// The neighbour list of every node.
    spec fn rows(&self) -> Seq<Seq<u32>>;

    /// What the reader relies on.
    spec fn valid(&self) -> bool;

    /// A valid source lists nodes only, and no more than `u32::MAX` of them.
    proof fn lemma_valid(&self)
        requires
            self.valid(),
        ensures
            rows_closed(self.rows()),
            self.rows().len() <= u32::MAX,
    ;

    /// Number of nodes.
    fn node_total(&self) -> (n: usize)
        requires
            self.valid(),
        ensures
            n == self.rows().len(),
    ;

    /// Number of neighbours of `u`.
    fn degree(&self, u: usize) -> (d: u64)
        requires
            self.valid(),
            u < self.rows().len(),
        ensures
            d == self.rows()[u as int].len(),
    ;

    /// The `i`-th neighbour of `u`.
    fn neighbor(&self, u: usize, i: u64) -> (v: u32)
        requires
            self.valid(),
            u < self.rows().len(),
            i < self.rows()[u as int].len(),
        ensures
            v == self.rows()[u as int][i as int],
    ;
}

/// A graph read in one direction.
pub struct GraphView<'a> {
    /// The graph that is read.
    pub graph: &'a CsrGraph,
    /// The direction it is read in.
    pub dir: Direction,
}

impl<'a> Adjacency for GraphView<'a> {
    open spec fn rows(&self) -> Seq<Seq<u32>> {
        graph_rows(*self.graph, self.dir)
    }

    open spec fn valid(&self) -> bool {
        self.graph.wf()
    }

    proof fn lemma_valid(&self) {
        lemma_graph_rows_closed(*self.graph, self.dir);
    }

    fn node_total(&self) -> (n: usize) {
        self.graph.num_nodes()
    }

    fn degree(&self, u: usize) -> (d: u64) {
        proof {
            self.graph.lemma_offsets_monotone();
            let n = self.graph.node_count() as int;
            assert(self.graph.row_off()[u as int] <= self.graph.row_off()[u + 1]
                <= self.graph.row_off()[n]);
            assert(self.graph.rrow_off()[u as int] <= self.graph.rrow_off()[u + 1]
                <= self.graph.rrow_off()[n]);
        }
        match self.dir {
            Direction::Forward => self.graph.out_slice(u).len() as u64,
            Direction::Reverse => self.graph.in_slice(u).len() as u64,
            Direction::Both => {
                let a = self.graph.out_slice(u).len() as u64;
                let b = self.graph.in_slice(u).len() as u64;
                a + b
            },
        }
    }

    fn neighbor(&self, u: usize, i: u64) -> (v: u32) {
        match self.dir {
            Direction::Forward => self.graph.out_slice(u)[i as usize],
            Direction::Reverse => self.graph.in_slice(u)[i as usize],
            Direction::Both => {
                let out = self.graph.out_slice(u);
                if i < out.len() as u64 {
                    out[i as usize]
                } else {
                    self.graph.in_slice(u)[(i - out.len() as u64) as usize]
                }
            },
        }
    }
}

} // verus!
