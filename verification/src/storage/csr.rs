//! Compressed-sparse-row graph with a reverse index.
//!
//! For the graph `0 -> 1, 0 -> 2, 1 -> 2` the forward layout is
//!
//! ```text
//! row_off = [0, 2, 3, 3]
//! col_idx = [1, 2, 2]
//! ```
//!
//! and the reverse layout lists, per target, the sources of its incoming
//! edges. Both layouts are kept in step by every mutation.

use crate::error::GraphError;
use crate::storage::edge_list::{
    build_layout, in_list, lemma_bucket_has, lemma_buckets_match, lemma_span_bounds, lemma_span_witness,
    node_span, out_list, span_of,
};
use std::collections::HashMap;
use vstd::prelude::*;

verus! {

/// Node identifier (zero-indexed).
#[derive(Debug, Clone, Copy, PartialEq, Eq, Structural, Hash, PartialOrd, Ord)]
pub struct NodeId(pub u32);

/// Row `u` of a CSR layout: the `(column, weight)` pairs stored between
/// offset `u` and offset `u + 1`, in storage order.
pub open spec fn csr_row(off: Seq<u32>, col: Seq<u32>, w: Seq<u32>, u: int) -> Seq<(u32, u32)> {
    Seq::new((off[u + 1] - off[u]) as nat, |i: int| (col[off[u] + i], w[off[u] + i]))
}

/// The shape every CSR layout over `n` nodes has: `n + 1` non-decreasing
/// offsets from 0 to the entry count, as many weights as columns, and
/// every column a node.
pub open spec fn csr_layout(off: Seq<u32>, col: Seq<u32>, w: Seq<u32>, n: nat) -> bool {
    &&& off.len() == n + 1
    &&& off[0] == 0
    &&& off[n as int] == col.len()
    &&& w.len() == col.len()
    &&& forall|i: int, j: int| 0 <= i <= j <= n ==> off[i] <= off[j]
    &&& forall|i: int| 0 <= i < col.len() ==> (#[trigger] col[i]) < n
}

/// Appends empty rows to a layout until it has `n_new` of them: the last
/// offset is repeated.
fn widen(off: &mut Vec<u32>, n_new: usize)
    requires
        1 <= old(off)@.len() <= n_new + 1,
    ensures
        final(off)@.len() == n_new + 1,
        forall|i: int| 0 <= i < old(off)@.len() ==> final(off)@[i] == old(off)@[i],
        forall|i: int| old(off)@.len() <= i <= n_new ==> final(off)@[i] == old(off)@.last(),
{
    let last = off[off.len() - 1];
    while off.len() <= n_new
        invariant
            old(off)@.len() <= off@.len() <= n_new + 1,
            last == old(off)@.last(),
            forall|i: int| 0 <= i < old(off)@.len() ==> off@[i] == old(off)@[i],
            forall|i: int| old(off)@.len() <= i < off@.len() ==> off@[i] == last,
        decreases n_new + 1 - off@.len(),
    {
        off.push(last);
    }
}

/// Appends the entry `(c, x)` to row `u` of a layout: the entry goes in at
/// the end of the row, and every later offset moves up by one.
fn insert_entry(
    off: &mut Vec<u32>,
    col: &mut Vec<u32>,
    w: &mut Vec<u32>,
    n: usize,
    u: usize,
    c: u32,
    x: u32,
)
    requires
        csr_layout(old(off)@, old(col)@, old(w)@, n as nat),
        u < n,
        c < n,
        old(col)@.len() < u32::MAX,
    ensures
        csr_layout(final(off)@, final(col)@, final(w)@, n as nat),
        final(col)@.len() == old(col)@.len() + 1,
        forall|r: int|
            0 <= r < n ==> #[trigger] csr_row(final(off)@, final(col)@, final(w)@, r) == if r == u {
                csr_row(old(off)@, old(col)@, old(w)@, r).push((c, x))
            } else {
                csr_row(old(off)@, old(col)@, old(w)@, r)
            },
{
    let ghost off0 = off@;
    let ghost col0 = col@;
    let ghost w0 = w@;
    let end = off[u + 1] as usize;
    assert(off0[u + 1] <= off0[n as int]);
    col.insert(end, c);
    w.insert(end, x);
    let len = off.len();
    let mut i: usize = u + 1;
    while i < len
        invariant
            u + 1 <= i <= n + 1,
            len == n + 1,
            off@.len() == n + 1,
            off0.len() == n + 1,
            off0[n as int] < u32::MAX,
            forall|a: int, b: int| 0 <= a <= b <= n ==> off0[a] <= off0[b],
            forall|j: int| 0 <= j <= u ==> off@[j] == off0[j],
            forall|j: int| u < j < i ==> off@[j] == off0[j] + 1,
            forall|j: int| i <= j <= n ==> off@[j] == off0[j],
        decreases n + 1 - i,
    {
        assert(off0[i as int] <= off0[n as int]);
        let o = off[i];
        off.set(i, o + 1);
        i += 1;
    }
    proof {
        assert forall|a: int, b: int| 0 <= a <= b <= n implies off@[a] <= off@[b] by {
            assert(off0[a] <= off0[b]);
        }
        assert forall|j: int| 0 <= j < col@.len() implies (#[trigger] col@[j]) < n by {
            if j < end {
                assert(col@[j] == col0[j]);
            } else if j > end {
                assert(col@[j] == col0[j - 1]);
            }
        }
        assert forall|r: int| 0 <= r < n implies #[trigger] csr_row(off@, col@, w@, r) == if r
            == u {
            csr_row(off0, col0, w0, r).push((c, x))
        } else {
            csr_row(off0, col0, w0, r)
        } by {
            assert(off0[r] <= off0[r + 1]);
            assert(off0[r + 1] <= off0[n as int]);
            if r < u {
                assert(off0[r + 1] <= off0[u + 1]);
                assert(csr_row(off@, col@, w@, r) =~= csr_row(off0, col0, w0, r));
            } else if r == u {
                assert(csr_row(off@, col@, w@, r) =~= csr_row(off0, col0, w0, r).push((c, x)));
            } else {
                assert(off0[u + 1] <= off0[r]);
                assert(csr_row(off@, col@, w@, r) =~= csr_row(off0, col0, w0, r));
            }
        }
    }
}

/// Directed graph in CSR form with a reverse CSR beside it.
///
/// Weights are IEEE-754 single-precision bit patterns.
#[derive(Debug, Clone)]
pub struct CsrGraph {
    row_offsets: Vec<u32>,
    col_indices: Vec<u32>,
    edge_weights: Vec<u32>,
    rev_row_offsets: Vec<u32>,
    rev_col_indices: Vec<u32>,
    rev_edge_weights: Vec<u32>,
    node_names: HashMap<u32, String>,
    num_nodes: usize,
}

impl CsrGraph {
    /// Number of nodes, N.
    pub closed spec fn node_count(&self) -> nat {
        self.num_nodes as nat
    }

    /// Forward offsets, `N + 1` of them.
    pub closed spec fn row_off(&self) -> Seq<u32> {
        self.row_offsets@
    }

    /// Target of each forward entry.
    pub closed spec fn col_idx(&self) -> Seq<u32> {
        self.col_indices@
    }

    /// Weight of each forward entry.
    pub closed spec fn weights(&self) -> Seq<u32> {
        self.edge_weights@
    }

    /// Reverse offsets, `N + 1` of them.
    pub closed spec fn rrow_off(&self) -> Seq<u32> {
        self.rev_row_offsets@
    }

    /// Source of each reverse entry.
    pub closed spec fn rcol_idx(&self) -> Seq<u32> {
        self.rev_col_indices@
    }

    /// Weight of each reverse entry.
    pub closed spec fn rweights(&self) -> Seq<u32> {
        self.rev_edge_weights@
    }

    /// The names that were set, by node id.
    pub closed spec fn names(&self) -> Map<u32, Seq<char>> {
        Map::new(
            |k: u32| self.node_names@.contains_key(k),
            |k: u32| self.node_names@[k]@,
        )
    }

    /// Number of edges, E.
    pub open spec fn edge_count(&self) -> nat {
        self.col_idx().len()
    }

    /// Outgoing edges of `u` as `(target, weight)`, in insertion order.
    pub open spec fn out_edges(&self, u: int) -> Seq<(u32, u32)> {
        csr_row(self.row_off(), self.col_idx(), self.weights(), u)
    }

    /// Incoming edges of `v` as `(source, weight)`, in insertion order.
    pub open spec fn in_edges(&self, v: int) -> Seq<(u32, u32)> {
        csr_row(self.rrow_off(), self.rcol_idx(), self.rweights(), v)
    }

    /// The outgoing edges of `u`, and none for a node the graph lacks.
    pub open spec fn out_edges_or_empty(&self, u: int) -> Seq<(u32, u32)> {
        if u < self.node_count() {
            self.out_edges(u)
        } else {
            Seq::empty()
        }
    }

    /// The incoming edges of `v`, and none for a node the graph lacks.
    pub open spec fn in_edges_or_empty(&self, v: int) -> Seq<(u32, u32)> {
        if v < self.node_count() {
            self.in_edges(v)
        } else {
            Seq::empty()
        }
    }

    /// Targets of the outgoing edges of `u`.
    pub open spec fn out_targets(&self, u: int) -> Seq<u32> {
        self.col_idx().subrange(self.row_off()[u] as int, self.row_off()[u + 1] as int)
    }

    /// Sources of the incoming edges of `v`.
    pub open spec fn in_sources(&self, v: int) -> Seq<u32> {
        self.rcol_idx().subrange(self.rrow_off()[v] as int, self.rrow_off()[v + 1] as int)
    }

    /// The invariant of the store.
    ///
    /// Both layouts are well-shaped CSR layouts over the same N and E, every
    /// edge `(u, v, w)` occurs as often in row `v` of the reverse layout as in
    /// row `u` of the forward layout, and the last node, if there is one, has
    /// an edge (nodes only come into being as endpoints).
    pub open spec fn wf(&self) -> bool {
        let n = self.node_count();
        &&& n <= u32::MAX
        &&& csr_layout(self.row_off(), self.col_idx(), self.weights(), n)
        &&& csr_layout(self.rrow_off(), self.rcol_idx(), self.rweights(), n)
        &&& self.rcol_idx().len() == self.col_idx().len()
        &&& forall|u: u32, v: u32, w: u32|
            u < n && v < n ==> #[trigger] self.out_edges(u as int).to_multiset().count((v, w))
                == self.in_edges(v as int).to_multiset().count((u, w))
        &&& n > 0 ==> self.out_edges(n - 1).len() + self.in_edges(n - 1).len() > 0
    }

    /// The empty graph: no nodes, no edges, both offset arrays `[0]`.
    pub fn new() -> (g: Self)
        ensures
            g.wf(),
            g.node_count() == 0,
            g.edge_count() == 0,
            g.row_off() == seq![0u32],
            g.rrow_off() == seq![0u32],
            g.names() == Map::<u32, Seq<char>>::empty(),
    {
        broadcast use vstd::std_specs::hash::group_hash_axioms;

        let g = CsrGraph {
            row_offsets: vec![0],
            col_indices: Vec::new(),
            edge_weights: Vec::new(),
            rev_row_offsets: vec![0],
            rev_col_indices: Vec::new(),
            rev_edge_weights: Vec::new(),
            node_names: HashMap::new(),
            num_nodes: 0,
        };
        assert(g.names() =~= Map::<u32, Seq<char>>::empty());
        g
    }

    /// Builds the graph of an edge list in one batch.
    ///
    /// N is one more than the largest endpoint. Row `u` of the forward layout
    /// lists the edges that leave `u` and row `v` of the reverse layout those
    /// that enter `v`, both in list order; parallel edges and self-loops are
    /// kept. Node ids must stay below `u32::MAX` and the list within
    /// `u32::MAX` edges, the width of an offset; within these limits the
    /// call never fails.
    pub fn from_edge_list(edges: &[(NodeId, NodeId, u32)]) -> (r: Result<Self, GraphError>)
        requires
            edges@.len() <= u32::MAX,
            forall|i: int|
                0 <= i < edges@.len() ==> (#[trigger] edges@[i]).0.0 < u32::MAX && edges@[i].1.0
                    < u32::MAX,
        ensures
            r is Ok,
            r->Ok_0.wf(),
            r->Ok_0.node_count() == node_span(edges@),
            r->Ok_0.edge_count() == edges@.len(),
            forall|u: u32|
                u < node_span(edges@) ==> #[trigger] r->Ok_0.out_edges(u as int) == out_list(
                    edges@,
                    u,
                ),
            forall|v: u32|
                v < node_span(edges@) ==> #[trigger] r->Ok_0.in_edges(v as int) == in_list(
                    edges@,
                    v,
                ),
            r->Ok_0.names() == Map::<u32, Seq<char>>::empty(),
    {
        broadcast use vstd::std_specs::hash::group_hash_axioms;

        let n = span_of(edges);
        proof {
            assert forall|i: int| 0 <= i < edges@.len() implies (#[trigger] edges@[i]).0.0 < n
                && edges@[i].1.0 < n by {
                lemma_span_bounds(edges@, i);
            }
        }
        let (row_offsets, col_indices, edge_weights) = build_layout(edges, false, n);
        let (rev_row_offsets, rev_col_indices, rev_edge_weights) = build_layout(edges, true, n);
        let g = CsrGraph {
            row_offsets,
            col_indices,
            edge_weights,
            rev_row_offsets,
            rev_col_indices,
            rev_edge_weights,
            node_names: HashMap::new(),
            num_nodes: n,
        };
        proof {
            assert(g.names() =~= Map::<u32, Seq<char>>::empty());
            assert forall|u: u32, v: u32, w: u32| u < n && v < n implies #[trigger] g.out_edges(
                u as int,
            ).to_multiset().count((v, w)) == g.in_edges(v as int).to_multiset().count((u, w)) by {
                lemma_buckets_match(edges@, u, v, w);
            }
            if n > 0 {
                let i = lemma_span_witness(edges@);
                let last = (n - 1) as u32;
                lemma_bucket_has(edges@, false, i);
                lemma_bucket_has(edges@, true, i);
                assert(g.out_edges(last as int) == out_list(edges@, last));
                assert(g.in_edges(last as int) == in_list(edges@, last));
            }
        }
        Ok(g)
    }

    /// Adds the edge `src -> dst` with weight bits `weight`.
    ///
    /// N widens to take in both endpoints; new nodes start without edges.
    /// The edge goes to the end of row `src` of the forward layout and to the
    /// end of row `dst` of the reverse layout; every other row is unchanged.
    /// Node ids must stay below `u32::MAX` and E below `u32::MAX`, the width
    /// of an offset; within these limits the call never fails.
    pub fn add_edge(&mut self, src: NodeId, dst: NodeId, weight: u32) -> (r: Result<
        (),
        GraphError,
    >)
        requires
            old(self).wf(),
            src.0 < u32::MAX,
            dst.0 < u32::MAX,
            old(self).edge_count() < u32::MAX,
        ensures
            r is Ok,
            final(self).wf(),
            final(self).node_count() == vstd::math::max(
                old(self).node_count() as int,
                vstd::math::max(src.0 as int, dst.0 as int) + 1,
            ),
            final(self).edge_count() == old(self).edge_count() + 1,
            forall|u: u32|
                u < final(self).node_count() ==> #[trigger] final(self).out_edges(u as int) == if u
                    == src.0 {
                    old(self).out_edges_or_empty(u as int).push((dst.0, weight))
                } else {
                    old(self).out_edges_or_empty(u as int)
                },
            forall|v: u32|
                v < final(self).node_count() ==> #[trigger] final(self).in_edges(v as int) == if v
                    == dst.0 {
                    old(self).in_edges_or_empty(v as int).push((src.0, weight))
                } else {
                    old(self).in_edges_or_empty(v as int)
                },
            final(self).names() == old(self).names(),
    {
        broadcast use vstd::seq_lib::group_to_multiset_ensures;

        let hi: usize = if src.0 >= dst.0 {
            src.0 as usize
        } else {
            dst.0 as usize
        };
        let ghost n0 = self.node_count();
        if hi >= self.num_nodes {
            widen(&mut self.row_offsets, hi + 1);
            widen(&mut self.rev_row_offsets, hi + 1);
            self.num_nodes = hi + 1;
        }
        let n = self.num_nodes;
        let ghost mid = *self;
        proof {
            assert forall|a: int, b: int| 0 <= a <= b <= n implies mid.row_off()[a]
                <= mid.row_off()[b] by {
                let a0 = if a <= n0 { a } else { n0 as int };
                let b0 = if b <= n0 { b } else { n0 as int };
                assert(old(self).row_off()[a0] <= old(self).row_off()[b0]);
            }
            assert forall|a: int, b: int| 0 <= a <= b <= n implies mid.rrow_off()[a]
                <= mid.rrow_off()[b] by {
                let a0 = if a <= n0 { a } else { n0 as int };
                let b0 = if b <= n0 { b } else { n0 as int };
                assert(old(self).rrow_off()[a0] <= old(self).rrow_off()[b0]);
            }
            assert forall|u: u32| u < n implies #[trigger] mid.out_edges(u as int) == old(
                self,
            ).out_edges_or_empty(u as int) by {
                assert(mid.out_edges(u as int) =~= old(self).out_edges_or_empty(u as int));
            }
            assert forall|v: u32| v < n implies #[trigger] mid.in_edges(v as int) == old(
                self,
            ).in_edges_or_empty(v as int) by {
                assert(mid.in_edges(v as int) =~= old(self).in_edges_or_empty(v as int));
            }
        }
        insert_entry(
            &mut self.row_offsets,
            &mut self.col_indices,
            &mut self.edge_weights,
            n,
            src.0 as usize,
            dst.0,
            weight,
        );
        insert_entry(
            &mut self.rev_row_offsets,
            &mut self.rev_col_indices,
            &mut self.rev_edge_weights,
            n,
            dst.0 as usize,
            src.0,
            weight,
        );
        proof {
            assert(self.names() =~= old(self).names());
            assert forall|u: u32| u < n implies #[trigger] self.out_edges(u as int) == if u
                == src.0 {
                old(self).out_edges_or_empty(u as int).push((dst.0, weight))
            } else {
                old(self).out_edges_or_empty(u as int)
            } by {
                assert(mid.out_edges(u as int) == old(self).out_edges_or_empty(u as int));
            }
            assert forall|v: u32| v < n implies #[trigger] self.in_edges(v as int) == if v
                == dst.0 {
                old(self).in_edges_or_empty(v as int).push((src.0, weight))
            } else {
                old(self).in_edges_or_empty(v as int)
            } by {
                assert(mid.in_edges(v as int) == old(self).in_edges_or_empty(v as int));
            }
            assert forall|u: u32, v: u32, w: u32| u < n && v < n implies #[trigger] self.out_edges(
                u as int,
            ).to_multiset().count((v, w)) == self.in_edges(v as int).to_multiset().count(
                (u, w),
            ) by {
                old(self).lemma_rows_match_or_empty(u, v, w);
                assert(self.out_edges(u as int) == if u == src.0 {
                    old(self).out_edges_or_empty(u as int).push((dst.0, weight))
                } else {
                    old(self).out_edges_or_empty(u as int)
                });
                assert(self.in_edges(v as int) == if v == dst.0 {
                    old(self).in_edges_or_empty(v as int).push((src.0, weight))
                } else {
                    old(self).in_edges_or_empty(v as int)
                });
            }
            let last = (n - 1) as u32;
            assert(self.out_edges(last as int).len() + self.in_edges(last as int).len() > 0) by {
                assert(self.out_edges(last as int).len() >= old(self).out_edges_or_empty(
                    last as int,
                ).len());
                assert(self.in_edges(last as int).len() >= old(self).in_edges_or_empty(
                    last as int,
                ).len());
                if n > n0 {
                    assert(last == src.0 || last == dst.0);
                }
            }
        }
        Ok(())
    }

    /// The multiplicities of an edge in the two layouts agree also when an
    /// endpoint lies beyond the graph, where both are zero.
    pub proof fn lemma_rows_match_or_empty(&self, u: u32, v: u32, w: u32)
        requires
            self.wf(),
        ensures
            self.out_edges_or_empty(u as int).to_multiset().count((v, w))
                == self.in_edges_or_empty(v as int).to_multiset().count((u, w)),
    {
        broadcast use vstd::seq_lib::group_to_multiset_ensures;

        let n = self.node_count();
        let out = self.out_edges_or_empty(u as int);
        let inc = self.in_edges_or_empty(v as int);
        if u < n && v < n {
            assert(self.out_edges(u as int).to_multiset().count((v, w)) == self.in_edges(
                v as int,
            ).to_multiset().count((u, w)));
        } else if u < n {
            // v is no node: no entry of row u names it.
            if out.contains((v, w)) {
                let i = choose|i: int| 0 <= i < out.len() && out[i] == (v, w);
                assert(self.col_idx()[self.row_off()[u as int] + i] < n);
                assert(self.row_off()[u as int] <= self.row_off()[u + 1]);
                assert(self.row_off()[u + 1] <= self.row_off()[n as int]);
            }
            assert(inc.to_multiset().count((u, w)) == 0);
        } else if v < n {
            if inc.contains((u, w)) {
                let i = choose|i: int| 0 <= i < inc.len() && inc[i] == (u, w);
                assert(self.rcol_idx()[self.rrow_off()[v as int] + i] < n);
                assert(self.rrow_off()[v as int] <= self.rrow_off()[v + 1]);
                assert(self.rrow_off()[v + 1] <= self.rrow_off()[n as int]);
            }
            assert(out.to_multiset().count((v, w)) == 0);
        } else {
            assert(out.to_multiset().count((v, w)) == 0);
            assert(inc.to_multiset().count((u, w)) == 0);
        }
    }

    /// Number of nodes.
    pub fn num_nodes(&self) -> (n: usize)
        ensures
            n == self.node_count(),
    {
        self.num_nodes
    }

    /// Number of edges.
    pub fn num_edges(&self) -> (e: usize)
        ensures
            e == self.edge_count(),
    {
        self.col_indices.len()
    }

    /// The three forward arrays `(row_off, col_idx, w)`, for external kernels.
    pub fn csr_components(&self) -> (r: (&[u32], &[u32], &[u32]))
        ensures
            r.0@ == self.row_off(),
            r.1@ == self.col_idx(),
            r.2@ == self.weights(),
    {
        (self.row_offsets.as_slice(), self.col_indices.as_slice(), self.edge_weights.as_slice())
    }

    /// Targets of the outgoing edges of `node`, or `NodeOutOfRange` when
    /// the graph has no such node.
    pub fn outgoing_neighbors(&self, node: NodeId) -> (r: Result<&[u32], GraphError>)
        requires
            self.wf(),
        ensures
            node.0 < self.node_count() ==> r is Ok && r->Ok_0@ == self.out_targets(node.0 as int),
            node.0 >= self.node_count() ==> r == Err::<&[u32], GraphError>(
                GraphError::NodeOutOfRange,
            ),
    {
        if node.0 as usize >= self.num_nodes {
            return Err(GraphError::NodeOutOfRange);
        }
        Ok(self.out_slice(node.0 as usize))
    }

    /// Sources of the incoming edges of `target`, or `NodeOutOfRange` when
    /// the graph has no such node.
    pub fn incoming_neighbors(&self, target: NodeId) -> (r: Result<&[u32], GraphError>)
        requires
            self.wf(),
        ensures
            target.0 < self.node_count() ==> r is Ok && r->Ok_0@ == self.in_sources(
                target.0 as int,
            ),
            target.0 >= self.node_count() ==> r == Err::<&[u32], GraphError>(
                GraphError::NodeOutOfRange,
            ),
    {
        if target.0 as usize >= self.num_nodes {
            return Err(GraphError::NodeOutOfRange);
        }
        Ok(self.in_slice(target.0 as usize))
    }

    /// Targets and weights of the outgoing edges of `node`; two empty
    /// slices when the graph has no such node.
    pub fn adjacency(&self, node: NodeId) -> (r: (&[u32], &[u32]))
        requires
            self.wf(),
        ensures
            r.0@.len() == r.1@.len(),
            node.0 < self.node_count() ==> r.0@ == self.out_targets(node.0 as int)
                && r.0@.zip_with(r.1@) == self.out_edges(node.0 as int),
            node.0 >= self.node_count() ==> r.0@.len() == 0,
    {
        if node.0 as usize >= self.num_nodes {
            let e = self.col_indices.len();
            return (&self.col_indices[e..e], &self.edge_weights[e..e]);
        }
        let u = node.0 as usize;
        let start = self.row_offsets[u] as usize;
        let end = self.row_offsets[u + 1] as usize;
        let targets = &self.col_indices[start..end];
        let weights = &self.edge_weights[start..end];
        assert(targets@.zip_with(weights@) =~= self.out_edges(u as int));
        (targets, weights)
    }

    /// Every node with its outgoing `(target, weight)` pairs, in node
    /// order.
    pub fn iter_adjacency(&self) -> (rows: Vec<(u32, Vec<(u32, u32)>)>)
        requires
            self.wf(),
        ensures
            rows@.len() == self.node_count(),
            forall|u: int|
                0 <= u < rows@.len() ==> (#[trigger] rows@[u]).0 == u && rows@[u].1@
                    == self.out_edges(u),
    {
        let n = self.num_nodes;
        let mut rows: Vec<(u32, Vec<(u32, u32)>)> = Vec::new();
        let mut u: usize = 0;
        while u < n
            invariant
                self.wf(),
                n == self.node_count(),
                u <= n,
                rows@.len() == u,
                forall|k: int|
                    0 <= k < u ==> (#[trigger] rows@[k]).0 == k && rows@[k].1@ == self.out_edges(k),
            decreases n - u,
        {
            let (targets, weights) = self.adjacency(NodeId(u as u32));
            let mut pairs: Vec<(u32, u32)> = Vec::new();
            let mut i: usize = 0;
            while i < targets.len()
                invariant
                    i <= targets@.len(),
                    targets@.len() == weights@.len(),
                    pairs@ == targets@.zip_with(weights@).take(i as int),
                decreases targets@.len() - i,
            {
                pairs.push((targets[i], weights[i]));
                proof {
                    assert(pairs@ =~= targets@.zip_with(weights@).take(i + 1));
                }
                i += 1;
            }
            proof {
                assert(targets@.zip_with(weights@).take(i as int) =~= targets@.zip_with(weights@));
            }
            rows.push((u as u32, pairs));
            u += 1;
        }
        rows
    }

    /// Row `u` of the forward layout.
    pub(crate) fn out_slice(&self, u: usize) -> (r: &[u32])
        requires
            self.wf(),
            u < self.node_count(),
        ensures
            r@ == self.out_targets(u as int),
    {
        let start = self.row_offsets[u] as usize;
        let end = self.row_offsets[u + 1] as usize;
        &self.col_indices[start..end]
    }

    /// Row `v` of the reverse layout.
    pub(crate) fn in_slice(&self, v: usize) -> (r: &[u32])
        requires
            self.wf(),
            v < self.node_count(),
        ensures
            r@ == self.in_sources(v as int),
    {
        let start = self.rev_row_offsets[v] as usize;
        let end = self.rev_row_offsets[v + 1] as usize;
        &self.rev_col_indices[start..end]
    }

    /// Names node `node`. The name is metadata: no node is created.
    pub fn set_node_name(&mut self, node: NodeId, name: String)
        requires
            old(self).wf(),
        ensures
            final(self).wf(),
            final(self).node_count() == old(self).node_count(),
            final(self).row_off() == old(self).row_off(),
            final(self).col_idx() == old(self).col_idx(),
            final(self).weights() == old(self).weights(),
            final(self).rrow_off() == old(self).rrow_off(),
            final(self).rcol_idx() == old(self).rcol_idx(),
            final(self).rweights() == old(self).rweights(),
            final(self).names() == old(self).names().insert(node.0, name@),
    {
        broadcast use vstd::std_specs::hash::group_hash_axioms;

        self.node_names.insert(node.0, name);
        assert(self.names() =~= old(self).names().insert(node.0, name@));
        assert forall|u: u32, v: u32, w: u32| u < self.node_count() && v < self.node_count() implies
            #[trigger] self.out_edges(u as int).to_multiset().count((v, w)) == self.in_edges(
                v as int,
            ).to_multiset().count((u, w)) by {
            assert(old(self).out_edges(u as int).to_multiset().count((v, w)) == old(
                self,
            ).in_edges(v as int).to_multiset().count((u, w)));
        }
    }

    /// The name of `node`, if one was set.
    pub fn get_node_name(&self, node: NodeId) -> (r: Option<&str>)
        ensures
            self.names().contains_key(node.0) ==> r is Some && r->Some_0@ == self.names()[node.0],
            !self.names().contains_key(node.0) ==> r is None,
    {
        broadcast use vstd::std_specs::hash::group_hash_axioms;

        match self.node_names.get(&node.0) {
            Some(s) => Some(s.as_str()),
            None => None,
        }
    }

    /// The offsets of both layouts start at 0, end at E and never decrease.
    pub proof fn lemma_offsets_monotone(&self)
        requires
            self.wf(),
        ensures
            self.row_off().len() == self.node_count() + 1,
            self.rrow_off().len() == self.node_count() + 1,
            self.row_off()[0] == 0,
            self.rrow_off()[0] == 0,
            self.row_off()[self.node_count() as int] == self.edge_count(),
            self.rrow_off()[self.node_count() as int] == self.edge_count(),
            forall|i: int, j: int|
                0 <= i <= j <= self.node_count() ==> self.row_off()[i] <= self.row_off()[j],
            forall|i: int, j: int|
                0 <= i <= j <= self.node_count() ==> self.rrow_off()[i] <= self.rrow_off()[j],
    {
    }

    /// The four entry arrays all hold E entries.
    pub proof fn lemma_entry_counts(&self)
        requires
            self.wf(),
        ensures
            self.col_idx().len() == self.edge_count(),
            self.weights().len() == self.edge_count(),
            self.rcol_idx().len() == self.edge_count(),
            self.rweights().len() == self.edge_count(),
    {
    }

    /// Every stored index names a node.
    pub proof fn lemma_indices_in_range(&self)
        requires
            self.wf(),
        ensures
            forall|i: int| 0 <= i < self.edge_count() ==> self.col_idx()[i] < self.node_count(),
            forall|i: int| 0 <= i < self.edge_count() ==> self.rcol_idx()[i] < self.node_count(),
    {
    }

    /// An edge `(u, v, w)` has as many entries in row `v` of the reverse
    /// layout as in row `u` of the forward layout.
    pub proof fn lemma_reverse_multiplicity(&self, u: u32, v: u32, w: u32)
        requires
            self.wf(),
            u < self.node_count(),
            v < self.node_count(),
        ensures
            self.out_edges(u as int).to_multiset().count((v, w)) == self.in_edges(
                v as int,
            ).to_multiset().count((u, w)),
    {
    }

    /// `v` is a target of `u` exactly when `u` is a source of `v`.
    pub proof fn lemma_edge_symmetry(&self, u: u32, v: u32)
        requires
            self.wf(),
            u < self.node_count(),
            v < self.node_count(),
        ensures
            self.out_targets(u as int).contains(v) <==> self.in_sources(v as int).contains(u),
    {
        broadcast use vstd::seq_lib::group_to_multiset_ensures;

        let n = self.node_count() as int;
        let out = self.out_edges(u as int);
        let inc = self.in_edges(v as int);
        assert(self.row_off()[u as int] <= self.row_off()[u + 1] <= self.row_off()[n]);
        assert(self.rrow_off()[v as int] <= self.rrow_off()[v + 1] <= self.rrow_off()[n]);
        if self.out_targets(u as int).contains(v) {
            let i = choose|i: int|
                0 <= i < self.out_targets(u as int).len() && self.out_targets(u as int)[i] == v;
            let w = out[i].1;
            assert(out[i] == (v, w));
            assert(out.contains((v, w)));
            assert(out.to_multiset().count((v, w)) == inc.to_multiset().count((u, w)));
            assert(inc.contains((u, w)));
            let j = choose|j: int| 0 <= j < inc.len() && inc[j] == (u, w);
            assert(self.in_sources(v as int)[j] == u);
        }
        if self.in_sources(v as int).contains(u) {
            let j = choose|j: int|
                0 <= j < self.in_sources(v as int).len() && self.in_sources(v as int)[j] == u;
            let w = inc[j].1;
            assert(inc[j] == (u, w));
            assert(inc.contains((u, w)));
            assert(out.to_multiset().count((v, w)) == inc.to_multiset().count((u, w)));
            assert(out.contains((v, w)));
            let i = choose|i: int| 0 <= i < out.len() && out[i] == (v, w);
            assert(self.out_targets(u as int)[i] == v);
        }
    }
}

impl Default for CsrGraph {
    fn default() -> (g: Self)
        ensures
            g.wf(),
            g.node_count() == 0,
            g.edge_count() == 0,
    {
        CsrGraph::new()
    }
}

} // verus!
