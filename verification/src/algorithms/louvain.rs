//! Community detection by the Louvain method.
//!
//! The detection itself is done by `aprender`; this module hands it the
//! edges of the graph, read as undirected, and puts what comes back into the
//! form of a result.

use crate::algorithms::structure::splits;
use crate::error::GraphError;
use crate::storage::csr::{CsrGraph, NodeId};
use crate::storage::edge_list::node_span;
use crate::storage::tables::{edge_rows_spec, lemma_edge_rows_span};
use vstd::prelude::*;

verus! {

/// Communities of a graph and how well they divide it.
#[derive(Debug, Clone)]
pub struct CommunityDetectionResult {
    /// The communities, each a list of nodes.
    pub communities: Vec<Vec<NodeId>>,
    /// Number of communities.
    pub num_communities: usize,
    /// Modularity of the division, as the bit pattern of a
    /// double-precision value.
    pub modularity: u64,
}

impl CommunityDetectionResult {
    /// The first community that lists `node`, if any does.
    pub fn get_community(&self, node: NodeId) -> (r: Option<usize>)
        ensures
            r is Some ==> {
                &&& r->Some_0 < self.communities@.len()
                &&& self.communities@[r->Some_0 as int]@.contains(node)
                &&& forall|i: int|
                    0 <= i < r->Some_0 ==> !(#[trigger] self.communities@[i])@.contains(node)
            },
            r is None ==> forall|i: int|
                0 <= i < self.communities@.len() ==> !(#[trigger] self.communities@[i])@.contains(
                    node,
                ),
    {
        let mut i: usize = 0;
        while i < self.communities.len()
            invariant
                i <= self.communities@.len(),
                forall|k: int| 0 <= k < i ==> !(#[trigger] self.communities@[k])@.contains(node),
            decreases self.communities@.len() - i,
        {
            let community = &self.communities[i];
            let mut j: usize = 0;
            while j < community.len()
                invariant
                    j <= community@.len(),
                    i < self.communities@.len(),
                    community@ == self.communities@[i as int]@,
                    forall|k: int| 0 <= k < j ==> community@[k] != node,
                    forall|k: int|
                        0 <= k < i ==> !(#[trigger] self.communities@[k])@.contains(node),
                decreases community@.len() - j,
            {
                if community[j] == node {
                    return Some(i);
                }
                j += 1;
            }
            i += 1;
        }
        None
    }

    /// The nodes of community `comm_id`, if there is such a community.
    pub fn get_community_nodes(&self, comm_id: usize) -> (r: Option<&[NodeId]>)
        ensures
            comm_id < self.communities@.len() ==> r is Some && r->Some_0@
                == self.communities@[comm_id as int]@,
            comm_id >= self.communities@.len() ==> r is None,
    {
        if comm_id < self.communities.len() {
            Some(self.communities[comm_id].as_slice())
        } else {
            None
        }
    }

    /// The size of community `comm_id`, if there is such a community.
    pub fn community_size(&self, comm_id: usize) -> (r: Option<usize>)
        ensures
            comm_id < self.communities@.len() ==> r == Some(
                self.communities@[comm_id as int]@.len() as usize,
            ),
            comm_id >= self.communities@.len() ==> r is None,
    {
        if comm_id < self.communities.len() {
            Some(self.communities[comm_id].len())
        } else {
            None
        }
    }
}

/// The number of nodes that a list of node pairs spans: one more than the
/// largest id, 0 for the empty list.
pub open spec fn pair_span(pairs: Seq<(usize, usize)>) -> nat
    decreases pairs.len(),
{
    if pairs.len() == 0 {
        0
    } else {
        let e = pairs.last();
        let here: nat = if e.0 >= e.1 {
            (e.0 + 1) as nat
        } else {
            (e.1 + 1) as nat
        };
        let rest = pair_span(pairs.drop_last());
        if here >= rest {
            here
        } else {
            rest
        }
    }
}

/// Some list holds `v`.
pub open spec fn listed(lists: Seq<Seq<usize>>, v: usize) -> bool {
    exists|i: int, j: int|
        0 <= i < lists.len() && 0 <= j < lists[i].len() && #[trigger] lists[i][j] == v
}

/// The lists split the numbers below `n`: each of them is in exactly one
/// place of one list, no list is empty, and nothing else is listed.
pub open spec fn is_partition(lists: Seq<Seq<usize>>, n: nat) -> bool {
    &&& forall|i: int| 0 <= i < lists.len() ==> (#[trigger] lists[i]).len() > 0
    &&& forall|i: int, j: int|
        0 <= i < lists.len() && 0 <= j < lists[i].len() ==> (#[trigger] lists[i][j]) < n
    &&& forall|v: usize| v < n ==> #[trigger] listed(lists, v)
    &&& forall|i1: int, j1: int, i2: int, j2: int|
        0 <= i1 < lists.len() && 0 <= j1 < lists[i1].len() && 0 <= i2 < lists.len() && 0 <= j2
            < lists[i2].len() && (i1 != i2 || j1 != j2) ==> #[trigger] lists[i1][j1]
            != #[trigger] lists[i2][j2]
}

/// `aprender`'s graph type. It is built, handed to the detection, and
/// dropped; nothing here looks inside.
#[verifier::external_type_specification]
#[verifier::external_body]
pub struct ExGraph(aprender::graph::Graph);

/// The node pairs that an `aprender` graph was built from.
pub uninterp spec fn graph_pairs(g: aprender::graph::Graph) -> Seq<(usize, usize)>;

/// The modularity that `aprender` computes for a division of the
/// undirected graph of a list of node pairs, as the bit pattern of a
/// double-precision value.
pub uninterp spec fn modularity_bits(pairs: Seq<(usize, usize)>, communities: Seq<Seq<usize>>) -> u64;

/// The undirected `aprender` graph of `pairs`.
///
/// Calls `Graph::from_edges(pairs, false)`. The graph has the nodes below
/// the span of the pairs, which it computes as the largest id plus one: no
/// id may be `usize::MAX`. Edge weights play no part in the detection or in
/// the modularity, so none are handed over.
#[verifier::external_body]
fn undirected_graph(pairs: &Vec<(usize, usize)>) -> (g: aprender::graph::Graph)
    requires
        forall|i: int|
            0 <= i < pairs@.len() ==> (#[trigger] pairs@[i]).0 < usize::MAX && pairs@[i].1
                < usize::MAX,
    ensures
        graph_pairs(g) == pairs@,
{
    aprender::graph::Graph::from_edges(pairs, false)
}

/// The communities that the Louvain method finds in `g`.
///
/// Calls `Graph::louvain`. The method assigns every node to one community
/// and then lists the nodes community by community, so the lists split the
/// nodes and none is empty. The order of the lists is that of a hash map
/// and is left open.
#[verifier::external_body]
fn detect_communities(g: &aprender::graph::Graph) -> (raw: Vec<Vec<usize>>)
    ensures
        is_partition(raw.deep_view(), pair_span(graph_pairs(*g))),
{
    g.louvain()
}

/// The modularity of a division of `g`.
///
/// Calls `Graph::modularity`, which indexes a table of the nodes by every
/// listed node: the lists may name nodes of the graph only.
#[verifier::external_body]
fn modularity_of(g: &aprender::graph::Graph, communities: &Vec<Vec<usize>>) -> (bits: u64)
    requires
        forall|i: int, j: int|
            0 <= i < communities.deep_view().len() && 0 <= j < communities.deep_view()[i].len()
                ==> (#[trigger] communities.deep_view()[i][j]) < pair_span(graph_pairs(*g)),
    ensures
        bits == modularity_bits(graph_pairs(*g), communities.deep_view()),
{
    g.modularity(communities).to_bits()
}

/// The nodes of a raw community that are node ids: those that fit 32
/// bits, in their order.
pub open spec fn kept_ids(list: Seq<usize>) -> Seq<NodeId>
    decreases list.len(),
{
    if list.len() == 0 {
        Seq::empty()
    } else if list.last() <= u32::MAX {
        kept_ids(list.drop_last()).push(NodeId(list.last() as u32))
    } else {
        kept_ids(list.drop_last())
    }
}

/// The communities of a result: the raw communities with their node ids,
/// without those that are left empty.
pub open spec fn assembled(raw: Seq<Seq<usize>>) -> Seq<Seq<NodeId>>
    decreases raw.len(),
{
    if raw.len() == 0 {
        Seq::empty()
    } else if kept_ids(raw.last()).len() > 0 {
        assembled(raw.drop_last()).push(kept_ids(raw.last()))
    } else {
        assembled(raw.drop_last())
    }
}

/// The node lists of communities.
pub open spec fn ids_view(communities: Seq<Vec<NodeId>>) -> Seq<Seq<NodeId>> {
    Seq::new(communities.len(), |i: int| communities[i]@)
}

/// The node numbers of communities.
pub open spec fn raw_view(communities: Seq<Vec<NodeId>>) -> Seq<Seq<usize>> {
    Seq::new(
        communities.len(),
        |i: int| Seq::new(communities[i]@.len(), |j: int| communities[i]@[j].0 as usize),
    )
}

/// The result for raw communities and their modularity: the communities
/// with their node ids, empty ones dropped, and their number.
pub fn assemble_communities(raw: &Vec<Vec<usize>>, modularity: u64) -> (r: CommunityDetectionResult)
    ensures
        ids_view(r.communities@) == assembled(raw.deep_view()),
        r.num_communities == r.communities@.len(),
        r.modularity == modularity,
{
    let ghost deep = raw.deep_view();
    let mut communities: Vec<Vec<NodeId>> = Vec::new();
    let mut i: usize = 0;
    proof {
        assert(deep.take(0) =~= Seq::<Seq<usize>>::empty());
        assert(ids_view(communities@) =~= assembled(deep.take(0)));
    }
    while i < raw.len()
        invariant
            i <= raw@.len(),
            deep == raw.deep_view(),
            deep.len() == raw@.len(),
            ids_view(communities@) == assembled(deep.take(i as int)),
        decreases raw@.len() - i,
    {
        let list = &raw[i];
        let mut community: Vec<NodeId> = Vec::new();
        let mut j: usize = 0;
        proof {
            assert(list@.take(0) =~= Seq::<usize>::empty());
            assert(deep[i as int] == raw@[i as int].deep_view());
            assert(deep[i as int] =~= list@);
        }
        while j < list.len()
            invariant
                j <= list@.len(),
                community@ == kept_ids(list@.take(j as int)),
            decreases list@.len() - j,
        {
            proof {
                assert(list@.take(j + 1).drop_last() =~= list@.take(j as int));
                assert(list@.take(j + 1).last() == list@[j as int]);
            }
            let v = list[j];
            if v <= u32::MAX as usize {
                community.push(NodeId(v as u32));
            }
            j += 1;
        }
        proof {
            assert(list@.take(j as int) =~= list@);
            assert(deep.take(i + 1).drop_last() =~= deep.take(i as int));
            assert(deep.take(i + 1).last() == list@);
        }
        if community.len() > 0 {
            let ghost before = communities@;
            communities.push(community);
            proof {
                assert(ids_view(communities@) =~= ids_view(before).push(kept_ids(list@)));
            }
        }
        i += 1;
    }
    proof {
        assert(deep.take(i as int) =~= deep);
    }
    let num_communities = communities.len();
    CommunityDetectionResult { communities, num_communities, modularity }
}

/// The edges of a graph as pairs of node numbers, in the order of the
/// forward layout.
pub open spec fn edge_pairs_spec(g: CsrGraph) -> Seq<(usize, usize)> {
    Seq::new(
        edge_rows_spec(g).len(),
        |i: int| (edge_rows_spec(g)[i].0.0 as usize, edge_rows_spec(g)[i].1.0 as usize),
    )
}

/// The span of pairs is the span of the edges they were taken from.
proof fn lemma_pair_span(edges: Seq<(NodeId, NodeId, u32)>, pairs: Seq<(usize, usize)>)
    requires
        pairs.len() == edges.len(),
        forall|i: int|
            0 <= i < edges.len() ==> (#[trigger] pairs[i]) == (
                edges[i].0.0 as usize,
                edges[i].1.0 as usize,
            ),
    ensures
        pair_span(pairs) == node_span(edges),
    decreases edges.len(),
{
    if edges.len() > 0 {
        assert(pairs.last() == pairs[pairs.len() - 1]);
        lemma_pair_span(edges.drop_last(), pairs.drop_last());
    }
}

/// A division of ids that all fit 32 bits is assembled without loss.
proof fn lemma_assembled_all(raw: Seq<Seq<usize>>, k: int)
    requires
        0 <= k <= raw.len(),
        forall|i: int| 0 <= i < raw.len() ==> (#[trigger] raw[i]).len() > 0,
        forall|i: int, j: int|
            0 <= i < raw.len() && 0 <= j < raw[i].len() ==> (#[trigger] raw[i][j]) <= u32::MAX,
    ensures
        assembled(raw.take(k)).len() == k,
        forall|i: int|
            0 <= i < k ==> (#[trigger] assembled(raw.take(k))[i]).len() == raw[i].len()
                && forall|j: int|
                0 <= j < raw[i].len() ==> (#[trigger] assembled(raw.take(k))[i][j]).0 == raw[i][j],
    decreases k,
{
    if k == 0 {
        assert(raw.take(0) =~= Seq::<Seq<usize>>::empty());
    } else {
        lemma_assembled_all(raw, k - 1);
        assert(raw.take(k).drop_last() =~= raw.take(k - 1));
        assert(raw.take(k).last() == raw[k - 1]);
        lemma_kept_all(raw[k - 1], raw[k - 1].len() as int);
        assert(raw[k - 1].take(raw[k - 1].len() as int) =~= raw[k - 1]);
    }
}

/// A list of ids that all fit 32 bits is kept whole.
proof fn lemma_kept_all(list: Seq<usize>, k: int)
    requires
        0 <= k <= list.len(),
        forall|j: int| 0 <= j < list.len() ==> (#[trigger] list[j]) <= u32::MAX,
    ensures
        kept_ids(list.take(k)).len() == k,
        forall|j: int| 0 <= j < k ==> (#[trigger] kept_ids(list.take(k))[j]).0 == list[j],
    decreases k,
{
    if k == 0 {
        assert(list.take(0) =~= Seq::<usize>::empty());
    } else {
        lemma_kept_all(list, k - 1);
        assert(list.take(k).drop_last() =~= list.take(k - 1));
        assert(list.take(k).last() == list[k - 1]);
    }
}

/// The communities of the graph, read as undirected, by the Louvain
/// method, with the modularity of the division.
///
/// Every node is in exactly one community, no community is empty, and
/// `num_communities` is their number. Which division the method finds, and
/// in which order the communities come, is not determined here. The call
/// never fails.
pub fn louvain(graph: &CsrGraph) -> (r: Result<CommunityDetectionResult, GraphError>)
    requires
        graph.wf(),
    ensures
        r is Ok,
        splits(r->Ok_0.communities@, Seq::new(graph.node_count(), |v: int| true)),
        forall|i: int|
            0 <= i < r->Ok_0.communities@.len() ==> (#[trigger] r->Ok_0.communities@[i])@.len() > 0,
        r->Ok_0.num_communities == r->Ok_0.communities@.len(),
        r->Ok_0.modularity == modularity_bits(
            edge_pairs_spec(*graph),
            raw_view(r->Ok_0.communities@),
        ),
{
    let rows = graph.edge_rows();
    let mut pairs: Vec<(usize, usize)> = Vec::new();
    let mut i: usize = 0;
    while i < rows.len()
        invariant
            i <= rows@.len(),
            pairs@.len() == i,
            forall|k: int|
                0 <= k < i ==> (#[trigger] pairs@[k]) == (
                    rows@[k].0.0 as usize,
                    rows@[k].1.0 as usize,
                ),
        decreases rows@.len() - i,
    {
        pairs.push((rows[i].0.0 as usize, rows[i].1.0 as usize));
        i += 1;
    }
    proof {
        lemma_edge_rows_span(*graph);
        lemma_pair_span(rows@, pairs@);
        assert(pairs@ =~= edge_pairs_spec(*graph));
        assert forall|k: int| 0 <= k < pairs@.len() implies (#[trigger] pairs@[k]).0 < usize::MAX
            && pairs@[k].1 < usize::MAX by {
            assert(rows@[k].0.0 < graph.node_count());
        }
    }
    let undirected = undirected_graph(&pairs);
    let raw = detect_communities(&undirected);
    let modularity = modularity_of(&undirected, &raw);
    let result = assemble_communities(&raw, modularity);
    proof {
        let deep = raw.deep_view();
        let n = graph.node_count();
        let comps = result.communities@;
        assert forall|a: int, b: int| 0 <= a < deep.len() && 0 <= b < deep[a].len() implies (
        #[trigger] deep[a][b]) <= u32::MAX by {
            assert(deep[a][b] < n);
        }
        lemma_assembled_all(deep, deep.len() as int);
        assert(deep.take(deep.len() as int) =~= deep);
        assert(comps.len() == deep.len());
        assert forall|a: int| 0 <= a < comps.len() implies (#[trigger] comps[a])@.len()
            == deep[a].len() && forall|b: int|
            0 <= b < deep[a].len() ==> (#[trigger] comps[a]@[b]).0 == deep[a][b] by {
            assert(ids_view(comps)[a] == comps[a]@);
            assert(assembled(deep)[a].len() == deep[a].len());
            assert forall|b: int| 0 <= b < deep[a].len() implies (#[trigger] comps[a]@[b]).0
                == deep[a][b] by {
                assert(assembled(deep)[a][b].0 == deep[a][b]);
            }
        }
        assert(raw_view(comps) =~~= deep) by {
            assert forall|a: int| 0 <= a < deep.len() implies raw_view(comps)[a] =~= deep[a] by {
                assert(comps[a]@.len() == deep[a].len());
                assert forall|b: int| 0 <= b < deep[a].len() implies raw_view(comps)[a][b]
                    == deep[a][b] by {
                    assert(comps[a]@[b].0 == deep[a][b]);
                }
            }
        }
        let full = Seq::new(n, |v: int| true);
        assert forall|a: int, b: int| 0 <= a < comps.len() && 0 <= b < comps[a]@.len() implies (
        #[trigger] comps[a]@[b]).0 < full.len() && full[comps[a]@[b].0 as int] by {
            assert(comps[a]@[b].0 == deep[a][b]);
            assert(deep[a][b] < n);
        }
        assert forall|v: u32| v < full.len() && (#[trigger] full[v as int]) implies exists|
            a: int,
            b: int,
        | 0 <= a < comps.len() && 0 <= b < comps[a]@.len() && comps[a]@[b].0 == v by {
            assert(listed(deep, v as usize));
            let (a, b) = choose|a: int, b: int|
                0 <= a < deep.len() && 0 <= b < deep[a].len() && #[trigger] deep[a][b]
                    == v as usize;
            assert(comps[a]@[b].0 == deep[a][b]);
        }
        assert forall|a1: int, b1: int, a2: int, b2: int|
            0 <= a1 < comps.len() && 0 <= b1 < comps[a1]@.len() && 0 <= a2 < comps.len() && 0
                <= b2 < comps[a2]@.len() && (a1 != a2 || b1 != b2) implies #[trigger] comps[a1]@[b1]
            != #[trigger] comps[a2]@[b2] by {
            assert(comps[a1]@[b1].0 == deep[a1][b1]);
            assert(comps[a2]@[b2].0 == deep[a2][b2]);
            assert(deep[a1][b1] != deep[a2][b2]);
        }
        assert forall|a: int| 0 <= a < comps.len() implies (#[trigger] comps[a])@.len() > 0 by {
            assert(deep[a].len() > 0);
        }
    }
    Ok(result)
}

} // verus!
