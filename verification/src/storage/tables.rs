//! The two tables a graph is exported as, and the way back.
//!
//! The edge table has one row `(source, target, weight)` per forward edge,
//! in the order of the forward layout. The node table has one row
//! `(node_id, name)` per node; a node without a name is listed as
//! `node_<id>`. Reading the tables back builds the graph from the edge rows
//! and names the nodes row by row.

use crate::error::GraphError;
use crate::storage::csr::{csr_layout, csr_row, CsrGraph, NodeId};
use crate::storage::edge_list::{bucket, in_list, lemma_span_bounds, node_span, out_list};
use vstd::prelude::*;
use vstd::string::StringExecFns;

verus! {

/// The character of a decimal digit.
pub open spec fn digit_char(d: nat) -> char {
    if d == 0 {
        '0'
    } else if d == 1 {
        '1'
    } else if d == 2 {
        '2'
    } else if d == 3 {
        '3'
    } else if d == 4 {
        '4'
    } else if d == 5 {
        '5'
    } else if d == 6 {
        '6'
    } else if d == 7 {
        '7'
    } else if d == 8 {
        '8'
    } else {
        '9'
    }
}

/// The decimal digits of a number, without leading zeros.
pub open spec fn decimal(n: nat) -> Seq<char>
    decreases n,
{
    if n < 10 {
        seq![digit_char(n)]
    } else {
        decimal(n / 10).push(digit_char(n % 10))
    }
}

/// The name under which a node without a name is exported.
pub open spec fn default_name(id: u32) -> Seq<char> {
    "node_"@ + decimal(id as nat)
}

/// The decimal digits of `n` as a string.
///
/// Formats the number with the `Display` of `u32`, which writes a number
/// in decimal without sign, padding or leading zeros.
#[verifier::external_body]
fn decimal_string(n: u32) -> (s: String)
    ensures
        s@ == decimal(n as nat),
{
    format!("{}", n)
}

/// The edges that leave `u`, as rows of the edge table.
pub open spec fn row_triples(g: CsrGraph, u: int) -> Seq<(NodeId, NodeId, u32)> {
    Seq::new(
        g.out_edges(u).len(),
        |i: int| (NodeId(u as u32), NodeId(g.out_edges(u)[i].0), g.out_edges(u)[i].1),
    )
}

/// The edges that leave the nodes below `k`, row after row.
pub open spec fn rows_upto(g: CsrGraph, k: nat) -> Seq<(NodeId, NodeId, u32)>
    decreases k,
{
    if k == 0 {
        Seq::empty()
    } else {
        rows_upto(g, (k - 1) as nat) + row_triples(g, k - 1)
    }
}

/// The edge table of a graph.
pub open spec fn edge_rows_spec(g: CsrGraph) -> Seq<(NodeId, NodeId, u32)> {
    rows_upto(g, g.node_count())
}

/// The name that the node table lists for a node.
pub open spec fn listed_name(g: CsrGraph, id: u32) -> Seq<char> {
    if g.names().contains_key(id) {
        g.names()[id]
    } else {
        default_name(id)
    }
}

/// The node table of a graph.
pub open spec fn node_rows_spec(g: CsrGraph) -> Seq<(NodeId, Seq<char>)> {
    Seq::new(g.node_count(), |i: int| (NodeId(i as u32), listed_name(g, i as u32)))
}

/// The names that reading a node table sets: row by row, a later row
/// overriding an earlier one for the same node.
pub open spec fn names_of(rows: Seq<(NodeId, Seq<char>)>) -> Map<u32, Seq<char>>
    decreases rows.len(),
{
    if rows.len() == 0 {
        Map::empty()
    } else {
        names_of(rows.drop_last()).insert(rows.last().0.0, rows.last().1)
    }
}

/// The rows of a node table with the names as character sequences.
pub open spec fn name_rows(rows: Seq<(NodeId, String)>) -> Seq<(NodeId, Seq<char>)> {
    Seq::new(rows.len(), |i: int| (rows[i].0, rows[i].1@))
}

/// `h` is the graph that the two tables describe.
pub open spec fn rebuilt_from(
    h: CsrGraph,
    edges: Seq<(NodeId, NodeId, u32)>,
    nodes: Seq<(NodeId, Seq<char>)>,
) -> bool {
    &&& h.wf()
    &&& h.node_count() == node_span(edges)
    &&& h.edge_count() == edges.len()
    &&& forall|u: u32| u < node_span(edges) ==> #[trigger] h.out_edges(u as int) == out_list(edges, u)
    &&& forall|v: u32| v < node_span(edges) ==> #[trigger] h.in_edges(v as int) == in_list(edges, v)
    &&& h.names() == names_of(nodes)
}

impl CsrGraph {
    /// The edge table: one row per forward edge, in the order of the
    /// forward layout.
    pub fn edge_rows(&self) -> (rows: Vec<(NodeId, NodeId, u32)>)
        requires
            self.wf(),
        ensures
            rows@ == edge_rows_spec(*self),
    {
        let n = self.num_nodes();
        let mut rows: Vec<(NodeId, NodeId, u32)> = Vec::new();
        let mut u: usize = 0;
        while u < n
            invariant
                self.wf(),
                n == self.node_count(),
                u <= n,
                rows@ == rows_upto(*self, u as nat),
            decreases n - u,
        {
            let (targets, weights) = self.adjacency(NodeId(u as u32));
            let ghost before = rows@;
            let mut i: usize = 0;
            while i < targets.len()
                invariant
                    i <= targets@.len(),
                    u < n,
                    n == self.node_count(),
                    n <= u32::MAX,
                    targets@.len() == weights@.len(),
                    targets@.zip_with(weights@) == self.out_edges(u as int),
                    rows@ == before + row_triples(*self, u as int).take(i as int),
                decreases targets@.len() - i,
            {
                rows.push((NodeId(u as u32), NodeId(targets[i]), weights[i]));
                proof {
                    assert(targets@.zip_with(weights@)[i as int] == (
                        targets@[i as int],
                        weights@[i as int],
                    ));
                    assert(rows@ =~= before + row_triples(*self, u as int).take(i + 1));
                }
                i += 1;
            }
            proof {
                assert(targets@.zip_with(weights@).len() == targets@.len());
                assert(row_triples(*self, u as int).take(i as int) =~= row_triples(
                    *self,
                    u as int,
                ));
            }
            u += 1;
        }
        rows
    }

    /// The node table: one row per node, with its name or `node_<id>`.
    pub fn node_rows(&self) -> (rows: Vec<(NodeId, String)>)
        requires
            self.wf(),
        ensures
            name_rows(rows@) == node_rows_spec(*self),
    {
        let n = self.num_nodes();
        let mut rows: Vec<(NodeId, String)> = Vec::new();
        let mut u: usize = 0;
        while u < n
            invariant
                self.wf(),
                n == self.node_count(),
                u <= n,
                rows@.len() == u,
                forall|i: int|
                    0 <= i < u ==> (#[trigger] rows@[i]).0 == NodeId(i as u32) && rows@[i].1@
                        == listed_name(*self, i as u32),
            decreases n - u,
        {
            let id = NodeId(u as u32);
            let name = match self.get_node_name(id) {
                Some(s) => String::from_str(s),
                None => String::from_str("node_").concat(decimal_string(u as u32).as_str()),
            };
            rows.push((id, name));
            u += 1;
        }
        proof {
            assert(name_rows(rows@) =~= node_rows_spec(*self));
        }
        rows
    }

    /// The graph that two tables describe: built from the edge rows in
    /// their order, then named row by row. The limits are those of
    /// `from_edge_list`; within them the call never fails.
    pub fn from_rows(edges: &[(NodeId, NodeId, u32)], nodes: &[(NodeId, String)]) -> (r: Result<
        Self,
        GraphError,
    >)
        requires
            edges@.len() <= u32::MAX,
            forall|i: int|
                0 <= i < edges@.len() ==> (#[trigger] edges@[i]).0.0 < u32::MAX && edges@[i].1.0
                    < u32::MAX,
        ensures
            r is Ok,
            rebuilt_from(r->Ok_0, edges@, name_rows(nodes@)),
    {
        let mut graph = match CsrGraph::from_edge_list(edges) {
            Ok(g) => g,
            Err(e) => {
                return Err(e);
            },
        };
        let ghost built = graph;
        let mut i: usize = 0;
        proof {
            assert(name_rows(nodes@).take(0) =~= Seq::<(NodeId, Seq<char>)>::empty());
        }
        while i < nodes.len()
            invariant
                i <= nodes@.len(),
                graph.wf(),
                graph.node_count() == built.node_count(),
                graph.row_off() == built.row_off(),
                graph.col_idx() == built.col_idx(),
                graph.weights() == built.weights(),
                graph.rrow_off() == built.rrow_off(),
                graph.rcol_idx() == built.rcol_idx(),
                graph.rweights() == built.rweights(),
                graph.names() == names_of(name_rows(nodes@).take(i as int)),
            decreases nodes@.len() - i,
        {
            let name = nodes[i].1.clone();
            graph.set_node_name(nodes[i].0, name);
            proof {
                let all = name_rows(nodes@);
                assert(all.take(i + 1).drop_last() =~= all.take(i as int));
                assert(all.take(i + 1).last() == (nodes@[i as int].0, nodes@[i as int].1@));
            }
            i += 1;
        }
        proof {
            assert(name_rows(nodes@).take(i as int) =~= name_rows(nodes@));
            assert forall|u: u32| u < node_span(edges@) implies #[trigger] graph.out_edges(
                u as int,
            ) == out_list(edges@, u) by {
                assert(built.out_edges(u as int) == out_list(edges@, u));
            }
            assert forall|v: u32| v < node_span(edges@) implies #[trigger] graph.in_edges(
                v as int,
            ) == in_list(edges@, v) by {
                assert(built.in_edges(v as int) == in_list(edges@, v));
            }
        }
        Ok(graph)
    }
}

/// Filing distributes over joining two edge lists.
pub proof fn lemma_bucket_concat(
    a: Seq<(NodeId, NodeId, u32)>,
    b: Seq<(NodeId, NodeId, u32)>,
    rev: bool,
    u: u32,
)
    ensures
        bucket(a + b, rev, u) == bucket(a, rev, u) + bucket(b, rev, u),
    decreases b.len(),
{
    if b.len() == 0 {
        assert(a + b =~= a);
        assert(bucket(a, rev, u) + bucket(b, rev, u) =~= bucket(a, rev, u));
    } else {
        assert((a + b).drop_last() =~= a + b.drop_last());
        assert((a + b).last() == b.last());
        lemma_bucket_concat(a, b.drop_last(), rev, u);
        assert(bucket(a + b, rev, u) =~= bucket(a, rev, u) + bucket(b, rev, u));
    }
}

/// The first `k` export rows of node `r` are filed under `r` alone, as
/// its first `k` edges.
proof fn lemma_row_triples_bucket(g: CsrGraph, r: int, u: u32, k: int)
    requires
        0 <= r < g.node_count(),
        g.node_count() <= u32::MAX,
        0 <= k <= g.out_edges(r).len(),
    ensures
        bucket(row_triples(g, r).take(k), false, u) == if u == r {
            g.out_edges(r).take(k)
        } else {
            Seq::<(u32, u32)>::empty()
        },
    decreases k,
{
    let rows = row_triples(g, r).take(k);
    if k == 0 {
        assert(g.out_edges(r).take(0) =~= Seq::<(u32, u32)>::empty());
    } else {
        lemma_row_triples_bucket(g, r, u, k - 1);
        assert(rows.drop_last() =~= row_triples(g, r).take(k - 1));
        assert(rows.last() == row_triples(g, r)[k - 1]);
        if u == r {
            assert(g.out_edges(r).take(k) =~= g.out_edges(r).take(k - 1).push(
                g.out_edges(r)[k - 1],
            ));
        }
    }
}

/// Filing the export rows of the nodes below `k` under `u` gives back
/// the edges of `u`, if `u` is below `k`.
proof fn lemma_rows_upto_bucket(g: CsrGraph, k: nat, u: u32)
    requires
        k <= g.node_count(),
        g.node_count() <= u32::MAX,
    ensures
        bucket(rows_upto(g, k), false, u) == if u < k {
            g.out_edges(u as int)
        } else {
            Seq::<(u32, u32)>::empty()
        },
    decreases k,
{
    if k > 0 {
        let r = (k - 1) as int;
        lemma_rows_upto_bucket(g, (k - 1) as nat, u);
        lemma_bucket_concat(rows_upto(g, (k - 1) as nat), row_triples(g, r), false, u);
        lemma_row_triples_bucket(g, r, u, g.out_edges(r).len() as int);
        assert(row_triples(g, r).take(g.out_edges(r).len() as int) =~= row_triples(g, r));
        assert(g.out_edges(r).take(g.out_edges(r).len() as int) =~= g.out_edges(r));
        if u < k - 1 {
            assert(g.out_edges(u as int) + Seq::<(u32, u32)>::empty() =~= g.out_edges(u as int));
        } else if u == k - 1 {
            assert(Seq::<(u32, u32)>::empty() + g.out_edges(u as int) =~= g.out_edges(u as int));
        } else {
            assert(Seq::<(u32, u32)>::empty() + Seq::<(u32, u32)>::empty() =~= Seq::<
                (u32, u32),
            >::empty());
        }
    }
}

/// Every export row names nodes of the graph.
proof fn lemma_rows_upto_in_range(g: CsrGraph, k: nat, i: int)
    requires
        g.wf(),
        k <= g.node_count(),
        0 <= i < rows_upto(g, k).len(),
    ensures
        rows_upto(g, k)[i].0.0 < g.node_count(),
        rows_upto(g, k)[i].1.0 < g.node_count(),
    decreases k,
{
    let n = g.node_count() as int;
    let before = rows_upto(g, (k - 1) as nat);
    if i < before.len() {
        lemma_rows_upto_in_range(g, (k - 1) as nat, i);
    } else {
        let r = k - 1;
        let j = i - before.len();
        assert(rows_upto(g, k)[i] == row_triples(g, r)[j]);
        assert(g.row_off()[r] <= g.row_off()[r + 1] <= g.row_off()[n]);
        assert(g.out_edges(r)[j].0 == g.col_idx()[g.row_off()[r] + j]);
    }
}

/// The span of an edge list whose endpoints lie below `n` is at most `n`.
proof fn lemma_span_at_most(edges: Seq<(NodeId, NodeId, u32)>, n: nat)
    requires
        forall|i: int| 0 <= i < edges.len() ==> (#[trigger] edges[i]).0.0 < n && edges[i].1.0 < n,
    ensures
        node_span(edges) <= n,
    decreases edges.len(),
{
    if edges.len() > 0 {
        assert(edges[edges.len() - 1].0.0 < n);
        lemma_span_at_most(edges.drop_last(), n);
    }
}

/// An edge of node `r` is an export row.
proof fn lemma_rows_upto_has(g: CsrGraph, k: nat, r: int, j: int) -> (i: int)
    requires
        0 <= r < k <= g.node_count(),
        0 <= j < g.out_edges(r).len(),
    ensures
        0 <= i < rows_upto(g, k).len(),
        rows_upto(g, k)[i] == row_triples(g, r)[j],
    decreases k,
{
    let before = rows_upto(g, (k - 1) as nat);
    if r == k - 1 {
        before.len() + j
    } else {
        lemma_rows_upto_has(g, (k - 1) as nat, r, j)
    }
}

/// Two CSR layouts over the same number of nodes with the same rows are
/// the same arrays.
pub proof fn lemma_layout_unique(
    off1: Seq<u32>,
    col1: Seq<u32>,
    w1: Seq<u32>,
    off2: Seq<u32>,
    col2: Seq<u32>,
    w2: Seq<u32>,
    n: nat,
)
    requires
        csr_layout(off1, col1, w1, n),
        csr_layout(off2, col2, w2, n),
        forall|u: int| 0 <= u < n ==> #[trigger] csr_row(off1, col1, w1, u) == csr_row(
            off2,
            col2,
            w2,
            u,
        ),
    ensures
        off1 == off2,
        col1 == col2,
        w1 == w2,
{
    lemma_offsets_equal(off1, col1, w1, off2, col2, w2, n, n as int);
    assert(off1 =~= off2);
    assert forall|p: int| 0 <= p < col1.len() implies col1[p] == col2[p] && w1[p] == w2[p] by {
        let u = lemma_row_of(off1, n, p);
        assert(csr_row(off1, col1, w1, u) == csr_row(off2, col2, w2, u));
        assert(csr_row(off1, col1, w1, u)[p - off1[u]] == (col1[p], w1[p]));
        assert(csr_row(off2, col2, w2, u)[p - off2[u]] == (col2[p], w2[p]));
    }
    assert(col1 =~= col2);
    assert(w1 =~= w2);
}

/// Induction behind `lemma_layout_unique`: the offsets agree up to `k`.
proof fn lemma_offsets_equal(
    off1: Seq<u32>,
    col1: Seq<u32>,
    w1: Seq<u32>,
    off2: Seq<u32>,
    col2: Seq<u32>,
    w2: Seq<u32>,
    n: nat,
    k: int,
)
    requires
        csr_layout(off1, col1, w1, n),
        csr_layout(off2, col2, w2, n),
        forall|u: int| 0 <= u < n ==> #[trigger] csr_row(off1, col1, w1, u) == csr_row(
            off2,
            col2,
            w2,
            u,
        ),
        0 <= k <= n,
    ensures
        forall|i: int| 0 <= i <= k ==> off1[i] == off2[i],
    decreases k,
{
    if k > 0 {
        lemma_offsets_equal(off1, col1, w1, off2, col2, w2, n, k - 1);
        assert(csr_row(off1, col1, w1, k - 1).len() == csr_row(off2, col2, w2, k - 1).len());
        assert(off1[k - 1] <= off1[k]);
        assert(off2[k - 1] <= off2[k]);
    }
}

/// Every entry of a layout lies in some row.
proof fn lemma_row_of(off: Seq<u32>, n: nat, p: int) -> (u: int)
    requires
        off.len() == n + 1,
        off[0] == 0,
        0 <= p < off[n as int],
    ensures
        0 <= u < n,
        off[u] <= p < off[u + 1],
    decreases n,
{
    if p >= off[n - 1] {
        n - 1
    } else {
        lemma_row_of(off.take(n as int), (n - 1) as nat, p)
    }
}

/// Reading a node table that lists the nodes `0 .. k` once each sets the
/// name of exactly these nodes, each to the name in its row.
proof fn lemma_names_of_rows(rows: Seq<(NodeId, Seq<char>)>, k: int)
    requires
        0 <= k <= rows.len(),
        rows.len() <= u32::MAX,
        forall|i: int| 0 <= i < rows.len() ==> (#[trigger] rows[i]).0 == NodeId(i as u32),
    ensures
        forall|id: u32| names_of(rows.take(k)).contains_key(id) <==> id < k,
        forall|id: u32| id < k ==> names_of(rows.take(k))[id] == rows[id as int].1,
    decreases k,
{
    if k == 0 {
        assert(rows.take(0) =~= Seq::<(NodeId, Seq<char>)>::empty());
    } else {
        lemma_names_of_rows(rows, k - 1);
        assert(rows.take(k).drop_last() =~= rows.take(k - 1));
        assert(rows.take(k).last() == rows[k - 1]);
        let before = names_of(rows.take(k - 1));
        let after = names_of(rows.take(k));
        assert(after == before.insert(rows[k - 1].0.0, rows[k - 1].1));
        assert(rows[k - 1].0 == NodeId((k - 1) as u32));
        assert forall|id: u32| after.contains_key(id) <==> id < k by {
            if id != k - 1 {
                assert(after.contains_key(id) == before.contains_key(id));
            }
        }
        assert forall|id: u32| id < k implies after[id] == rows[id as int].1 by {
            if id != k - 1 {
                assert(after[id] == before[id]);
            }
        }
    }
}

/// The edge table of a graph spans exactly its nodes: the last node has
/// an edge, as every node came into being as an endpoint.
pub proof fn lemma_edge_rows_span(g: CsrGraph)
    requires
        g.wf(),
    ensures
        node_span(edge_rows_spec(g)) == g.node_count(),
        forall|i: int|
            0 <= i < edge_rows_spec(g).len() ==> (#[trigger] edge_rows_spec(g)[i]).0.0
                < g.node_count() && edge_rows_spec(g)[i].1.0 < g.node_count(),
{
    broadcast use vstd::seq_lib::group_to_multiset_ensures;

    let n = g.node_count();
    let rows = edge_rows_spec(g);
    assert forall|i: int| 0 <= i < rows.len() implies (#[trigger] rows[i]).0.0 < n && rows[i].1.0
        < n by {
        lemma_rows_upto_in_range(g, n, i);
    }
    lemma_span_at_most(rows, n);
    if n > 0 {
        let last = (n - 1) as u32;
        if g.out_edges(last as int).len() > 0 {
            let i = lemma_rows_upto_has(g, n, last as int, 0);
            lemma_span_bounds(rows, i);
        } else {
            let e = g.in_edges(last as int)[0];
            assert(g.in_edges(last as int).contains(e));
            let u = e.0;
            assert(g.rrow_off()[last as int] <= g.rrow_off()[last + 1] <= g.rrow_off()[n as int]);
            assert(u == g.rcol_idx()[g.rrow_off()[last as int] + 0]);
            assert(g.out_edges(u as int).to_multiset().count((last, e.1)) == g.in_edges(
                last as int,
            ).to_multiset().count((u, e.1)));
            assert(g.out_edges(u as int).contains((last, e.1)));
            let j = choose|j: int|
                0 <= j < g.out_edges(u as int).len() && g.out_edges(u as int)[j] == (last, e.1);
            let i = lemma_rows_upto_has(g, n, u as int, j);
            lemma_span_bounds(rows, i);
        }
    }
}

/// Writing a graph out and reading it back preserves the number of nodes
/// and of edges, the three arrays of the forward layout, and the name of
/// every node that has one.
///
/// A name that was set for an id beyond the nodes is not part of the node
/// table and is not preserved.
pub proof fn lemma_round_trip(g: CsrGraph, h: CsrGraph)
    requires
        g.wf(),
        rebuilt_from(h, edge_rows_spec(g), node_rows_spec(g)),
    ensures
        h.node_count() == g.node_count(),
        h.edge_count() == g.edge_count(),
        h.row_off() == g.row_off(),
        h.col_idx() == g.col_idx(),
        h.weights() == g.weights(),
        forall|id: u32|
            id < g.node_count() && g.names().contains_key(id) ==> h.names().contains_key(id)
                && h.names()[id] == g.names()[id],
{
    let n = g.node_count();
    let rows = edge_rows_spec(g);
    lemma_edge_rows_span(g);
    assert(h.node_count() == n);
    // Row by row the forward layouts agree, hence array by array.
    assert forall|u: int| 0 <= u < n implies #[trigger] csr_row(
        h.row_off(),
        h.col_idx(),
        h.weights(),
        u,
    ) == csr_row(g.row_off(), g.col_idx(), g.weights(), u) by {
        lemma_rows_upto_bucket(g, n, u as u32);
        assert(h.out_edges((u as u32) as int) == out_list(rows, u as u32));
    }
    lemma_layout_unique(
        h.row_off(),
        h.col_idx(),
        h.weights(),
        g.row_off(),
        g.col_idx(),
        g.weights(),
        n,
    );
    // Every node is listed with its name.
    let listed = node_rows_spec(g);
    lemma_names_of_rows(listed, listed.len() as int);
    assert(listed.take(listed.len() as int) =~= listed);
}

} // verus!
