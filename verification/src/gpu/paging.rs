//! Tiles: a graph cut into runs of consecutive nodes, each with its own
//! CSR arrays, sized to fit a morsel of device memory.

use crate::algorithms::reach::{graph_rows, Adjacency, Direction};
use crate::gpu::cache::TileId;
use crate::gpu::memory::{div_ceil, GpuMemoryLimits};
use crate::storage::csr::{CsrGraph, NodeId};
use vstd::prelude::*;

verus! {

/// The nodes `start_node .. end_node` of a graph with their outgoing
/// edges. The offsets are rebased to start at 0.
#[derive(Debug, Clone)]
pub struct GraphTile {
    /// Index of the tile.
    pub id: TileId,
    /// First node of the tile.
    pub start_node: usize,
    /// One past the last node of the tile.
    pub end_node: usize,
    /// Number of nodes of the tile.
    pub num_nodes: usize,
    /// Offsets of the rows of the tile, `num_nodes + 1` of them.
    pub row_offsets: Vec<u32>,
    /// Targets of the edges of the tile.
    pub col_indices: Vec<u32>,
    /// Weights of the edges of the tile.
    pub edge_weights: Vec<u32>,
}

impl GraphTile {
    /// Bytes that the three arrays of the tile take: four per entry.
    pub open spec fn byte_size(&self) -> nat {
        4 * (self.row_offsets@.len() + self.col_indices@.len() + self.edge_weights@.len())
    }

    /// Targets of the node at position `local` of the tile.
    pub open spec fn row(&self, local: int) -> Seq<u32> {
        self.col_indices@.subrange(
            self.row_offsets@[local] as int,
            self.row_offsets@[local + 1] as int,
        )
    }

    /// The arrays of the tile form a CSR layout of `num_nodes` rows whose
    /// targets lie below `total`.
    pub open spec fn layout_ok(&self, total: nat) -> bool {
        &&& self.start_node + self.num_nodes == self.end_node
        &&& self.end_node <= total
        &&& self.row_offsets@.len() == self.num_nodes + 1
        &&& self.row_offsets@[0] == 0
        &&& self.row_offsets@[self.num_nodes as int] == self.col_indices@.len()
        &&& self.edge_weights@.len() == self.col_indices@.len()
        &&& forall|i: int, j: int|
            0 <= i <= j <= self.num_nodes ==> self.row_offsets@[i] <= self.row_offsets@[j]
        &&& forall|i: int|
            0 <= i < self.col_indices@.len() ==> (#[trigger] self.col_indices@[i]) < total
    }

    /// The tile holds the rows `start_node .. end_node` of `g`: the
    /// offsets of these rows less the first of them, and the entries they
    /// span.
    pub open spec fn carved_from(&self, g: CsrGraph) -> bool {
        let lo = g.row_off()[self.start_node as int] as int;
        let hi = g.row_off()[self.end_node as int] as int;
        &&& self.start_node + self.num_nodes == self.end_node
        &&& self.end_node <= g.node_count()
        &&& self.row_offsets@.len() == self.num_nodes + 1
        &&& forall|i: int|
            0 <= i <= self.num_nodes ==> (#[trigger] self.row_offsets@[i]) == g.row_off()[self.start_node
                + i] - lo
        &&& self.col_indices@ == g.col_idx().subrange(lo, hi)
        &&& self.edge_weights@ == g.weights().subrange(lo, hi)
    }

    /// Bytes that the three arrays of the tile take. The size must fit a
    /// `usize`.
    pub fn size_bytes(&self) -> (bytes: usize)
        requires
            self.byte_size() <= usize::MAX,
        ensures
            bytes == self.byte_size(),
    {
        let entries = self.row_offsets.len() + self.col_indices.len() + self.edge_weights.len();
        entries * 4
    }

    /// A carved tile has a sound layout and the rows of the graph.
    pub proof fn lemma_carved(&self, g: CsrGraph)
        requires
            g.wf(),
            self.carved_from(g),
        ensures
            self.layout_ok(g.node_count()),
            forall|i: int|
                0 <= i < self.num_nodes ==> #[trigger] self.row(i) == g.out_targets(
                    self.start_node + i,
                ),
    {
        let n = g.node_count() as int;
        let s = self.start_node as int;
        let e = self.end_node as int;
        let lo = g.row_off()[s] as int;
        assert(g.row_off()[s] <= g.row_off()[e] <= g.row_off()[n]);
        assert(self.row_offsets@[0] == g.row_off()[s + 0] - lo);
        assert(self.row_offsets@[self.num_nodes as int] == g.row_off()[s + self.num_nodes] - lo);
        assert forall|i: int, j: int| 0 <= i <= j <= self.num_nodes implies self.row_offsets@[i]
            <= self.row_offsets@[j] by {
            assert(self.row_offsets@[i] == g.row_off()[s + i] - lo);
            assert(self.row_offsets@[j] == g.row_off()[s + j] - lo);
            assert(g.row_off()[s + i] <= g.row_off()[s + j]);
        }
        assert forall|i: int| 0 <= i < self.col_indices@.len() implies (
        #[trigger] self.col_indices@[i]) < n by {
            assert(self.col_indices@[i] == g.col_idx()[lo + i]);
        }
        assert forall|i: int| 0 <= i < self.num_nodes implies #[trigger] self.row(i)
            == g.out_targets(s + i) by {
            assert(self.row_offsets@[i] == g.row_off()[s + i] - lo);
            assert(self.row_offsets@[i + 1] == g.row_off()[s + (i + 1)] - lo);
            assert(g.row_off()[s] <= g.row_off()[s + i] <= g.row_off()[s + i + 1]
                <= g.row_off()[e]);
            assert(self.row(i) =~= g.out_targets(s + i));
        }
    }
}

/// Bytes of the three forward arrays of a graph.
pub open spec fn graph_bytes(g: CsrGraph) -> nat {
    4 * (g.node_count() + 1) + 8 * g.edge_count()
}

/// Bytes per node of a graph, rounded down; 1000 for a graph without
/// nodes.
pub open spec fn bytes_per_node(g: CsrGraph) -> nat {
    if g.node_count() > 0 {
        graph_bytes(g) / g.node_count()
    } else {
        1000
    }
}

/// The tile size, in nodes, that a budget gives a graph: as many nodes as
/// fill a morsel, but at least 100.
pub open spec fn planned_tile_size(limits: GpuMemoryLimits, g: CsrGraph) -> nat {
    let per_node = bytes_per_node(g) as int;
    if per_node == 0 {
        1000
    } else {
        vstd::math::max(limits.morsel_size as int / per_node, 100) as nat
    }
}

/// Bytes that the tiles of a graph take under a budget: the arrays of the
/// graph and one more offset per tile.
pub open spec fn paged_footprint(limits: GpuMemoryLimits, g: CsrGraph) -> nat {
    4 * (g.node_count() + div_ceil(g.node_count(), planned_tile_size(limits, g))) + 8
        * g.edge_count()
}

/// Bytes of all tiles together.
pub open spec fn tiles_bytes(tiles: Seq<GraphTile>) -> nat
    decreases tiles.len(),
{
    if tiles.len() == 0 {
        0
    } else {
        tiles_bytes(tiles.drop_last()) + tiles.last().byte_size()
    }
}

/// The tiles of a graph and the budget they were sized for.
pub struct PagingCoordinator {
    limits: GpuMemoryLimits,
    tiles: Vec<GraphTile>,
    tile_size: usize,
}

/// Copies the rows `start .. end` of the graph into arrays of their own.
fn extract_tile_csr(graph: &CsrGraph, id: TileId, start: usize, end: usize) -> (tile: GraphTile)
    requires
        graph.wf(),
        start <= end <= graph.node_count(),
    ensures
        tile.id == id,
        tile.start_node == start,
        tile.end_node == end,
        tile.carved_from(*graph),
        tile.byte_size() == 4 * (end - start + 1) + 8 * (graph.row_off()[end as int]
            - graph.row_off()[start as int]),
{
    let (off, col, w) = graph.csr_components();
    let ghost n = graph.node_count() as int;
    let lo = off[start] as usize;
    let mut row_offsets: Vec<u32> = Vec::new();
    row_offsets.push(0);
    let mut col_indices: Vec<u32> = Vec::new();
    let mut edge_weights: Vec<u32> = Vec::new();
    let mut node: usize = start;
    proof {
        assert(off@[start as int] <= off@[end as int] <= off@[n]);
        assert(col_indices@ =~= col@.subrange(lo as int, lo as int));
        assert(edge_weights@ =~= w@.subrange(lo as int, lo as int));
    }
    while node < end
        invariant
            graph.wf(),
            off@ == graph.row_off(),
            col@ == graph.col_idx(),
            w@ == graph.weights(),
            n == graph.node_count(),
            start <= node <= end <= n,
            lo == off@[start as int],
            off@[start as int] <= off@[node as int] <= off@[end as int],
            row_offsets@.len() == node - start + 1,
            forall|i: int|
                0 <= i <= node - start ==> (#[trigger] row_offsets@[i]) == off@[start + i] - lo,
            col_indices@ == col@.subrange(lo as int, off@[node as int] as int),
            edge_weights@ == w@.subrange(lo as int, off@[node as int] as int),
        decreases end - node,
    {
        let a = off[node] as usize;
        let b = off[node + 1] as usize;
        proof {
            assert(off@[node as int] <= off@[node + 1] <= off@[end as int] <= off@[n]);
        }
        let mut k: usize = a;
        while k < b
            invariant
                a <= k <= b,
                b <= col@.len(),
                w@.len() == col@.len(),
                lo <= a,
                col_indices@ == col@.subrange(lo as int, k as int),
                edge_weights@ == w@.subrange(lo as int, k as int),
            decreases b - k,
        {
            col_indices.push(col[k]);
            edge_weights.push(w[k]);
            proof {
                assert(col_indices@ =~= col@.subrange(lo as int, k + 1));
                assert(edge_weights@ =~= w@.subrange(lo as int, k + 1));
            }
            k += 1;
        }
        row_offsets.push((b - lo) as u32);
        node += 1;
    }
    GraphTile {
        id,
        start_node: start,
        end_node: end,
        num_nodes: end - start,
        row_offsets,
        col_indices,
        edge_weights,
    }
}

impl PagingCoordinator {
    /// The tiles, in node order.
    pub closed spec fn tiles_view(&self) -> Seq<GraphTile> {
        self.tiles@
    }

    /// Nodes per tile; the last tile may have fewer.
    pub closed spec fn tile_len(&self) -> nat {
        self.tile_size as nat
    }

    /// The budget the tiles were sized for.
    pub closed spec fn budget(&self) -> GpuMemoryLimits {
        self.limits
    }

    /// Number of nodes that the tiles cover.
    pub open spec fn node_total(&self) -> nat {
        if self.tiles_view().len() == 0 {
            0
        } else {
            self.tiles_view().last().end_node as nat
        }
    }

    /// The tiles cut `0 .. node_total` into consecutive runs of
    /// `tile_len` nodes, the last one possibly shorter but not empty, and
    /// each has a sound layout.
    pub open spec fn tiled(&self) -> bool {
        let tiles = self.tiles_view();
        &&& self.tile_len() >= 1
        &&& self.node_total() <= u32::MAX
        &&& forall|t: int|
            0 <= t < tiles.len() ==> {
                &&& (#[trigger] tiles[t]).id == t
                &&& tiles[t].start_node == t * self.tile_len()
                &&& tiles[t].start_node < tiles[t].end_node
                &&& tiles[t].end_node == vstd::math::min(
                    tiles[t].start_node + self.tile_len(),
                    self.node_total() as int,
                )
                &&& tiles[t].layout_ok(self.node_total())
            }
    }

    /// The tiles are the tiles of `g`.
    pub open spec fn covers(&self, g: CsrGraph) -> bool {
        &&& self.tiled()
        &&& self.node_total() == g.node_count()
        &&& forall|t: int|
            0 <= t < self.tiles_view().len() ==> (#[trigger] self.tiles_view()[t]).carved_from(g)
    }

    /// The tile that holds node `u` is tile `u / tile_len`.
    pub proof fn lemma_tile_of(&self, u: int)
        requires
            self.tiled(),
            0 <= u < self.node_total(),
        ensures
            0 <= u / (self.tile_len() as int) < self.tiles_view().len(),
            self.tiles_view()[u / (self.tile_len() as int)].start_node <= u,
            u < self.tiles_view()[u / (self.tile_len() as int)].end_node,
    {
        let ts = self.tile_len() as int;
        let tiles = self.tiles_view();
        let t = u / ts;
        let last = tiles.len() - 1;
        assert(tiles[last].start_node == last * ts);
        assert(tiles[last].end_node == self.node_total());
        assert(u < last * ts + ts);
        assert(t <= last) by (nonlinear_arith)
            requires
                t == u / ts,
                ts >= 1,
                0 <= u < last * ts + ts,
        ;
        assert(t >= 0 && t * ts <= u < t * ts + ts) by (nonlinear_arith)
            requires
                t == u / ts,
                ts >= 1,
                0 <= u,
        ;
        assert(tiles[t].start_node == t * ts);
    }

    /// There are as many tiles as the node count divided by the tile
    /// size, rounded up.
    pub proof fn lemma_tile_count(&self)
        requires
            self.tiled(),
        ensures
            self.tiles_view().len() == div_ceil(self.node_total(), self.tile_len()),
    {
        let ts = self.tile_len() as int;
        let tiles = self.tiles_view();
        let n = self.node_total() as int;
        if tiles.len() > 0 {
            let last = tiles.len() - 1;
            assert(tiles[last].start_node == last * ts);
            assert(tiles[last].end_node == n);
            let r = n - last * ts;
            if r == ts {
                assert(n == (last + 1) * ts + 0) by (nonlinear_arith)
                    requires
                        n == last * ts + ts,
                ;
                vstd::arithmetic::div_mod::lemma_fundamental_div_mod_converse(n, ts, last + 1, 0);
            } else {
                vstd::arithmetic::div_mod::lemma_fundamental_div_mod_converse(n, ts, last, r);
            }
        } else {
            assert(0int % ts == 0 && 0int / ts == 0) by (nonlinear_arith)
                requires
                    ts >= 1,
            ;
        }
    }

    /// Cuts `graph` into tiles for the budget `limits`.
    ///
    /// The tile size is the number of nodes that fill a morsel at the
    /// graph's average bytes per node, but at least 100. The tiles are cut in
    /// one pass and numbered from 0.
    pub fn new(limits: GpuMemoryLimits, graph: &CsrGraph) -> (c: Self)
        requires
            graph.wf(),
        ensures
            c.covers(*graph),
            c.budget() == limits,
            c.tile_len() == planned_tile_size(limits, *graph),
            tiles_bytes(c.tiles_view()) == paged_footprint(limits, *graph),
    {
        let n = graph.num_nodes();
        let e = graph.num_edges();
        let total_bytes: u64 = 4 * (n as u64 + 1) + 8 * (e as u64);
        let per_node: u64 = if n > 0 {
            total_bytes / (n as u64)
        } else {
            1000
        };
        let tile_size: usize = if per_node > usize::MAX as u64 {
            proof {
                assert(limits.morsel_size as int / per_node as int == 0) by (nonlinear_arith)
                    requires
                        0 <= limits.morsel_size < per_node,
                ;
            }
            100
        } else {
            limits.recommended_tile_size(per_node as usize)
        };
        let ghost g = *graph;
        let ghost off = graph.row_off();
        let mut tiles: Vec<GraphTile> = Vec::new();
        let mut start: usize = 0;
        proof {
            graph.lemma_offsets_monotone();
        }
        while start < n
            invariant
                graph.wf(),
                g == *graph,
                off == g.row_off(),
                n == g.node_count(),
                n <= u32::MAX,
                tile_size >= 1,
                start <= n,
                start == n || start == tiles@.len() * tile_size,
                tiles@.len() > 0 ==> tiles@.last().end_node == start,
                tiles@.len() == 0 ==> start == 0,
                forall|t: int|
                    0 <= t < tiles@.len() ==> {
                        &&& (#[trigger] tiles@[t]).id == t
                        &&& tiles@[t].start_node == t * tile_size
                        &&& tiles@[t].start_node < tiles@[t].end_node
                        &&& tiles@[t].end_node == vstd::math::min(
                            tiles@[t].start_node + tile_size,
                            n as int,
                        )
                        &&& tiles@[t].carved_from(g)
                    },
                tiles_bytes(tiles@) == 4 * (start + tiles@.len()) + 8 * off[start as int],
            decreases n - start,
        {
            let end: usize = if n - start < tile_size {
                n
            } else {
                start + tile_size
            };
            let tile = extract_tile_csr(graph, tiles.len(), start, end);
            let ghost before = tiles@;
            proof {
                assert(before.len() * tile_size + tile_size == (before.len() + 1) * tile_size)
                    by (nonlinear_arith);
            }
            tiles.push(tile);
            proof {
                assert(tiles@.drop_last() =~= before);
                assert forall|t: int| 0 <= t < tiles@.len() implies {
                    &&& (#[trigger] tiles@[t]).id == t
                    &&& tiles@[t].start_node == t * tile_size
                    &&& tiles@[t].start_node < tiles@[t].end_node
                    &&& tiles@[t].end_node == vstd::math::min(
                        tiles@[t].start_node + tile_size,
                        n as int,
                    )
                    &&& tiles@[t].carved_from(g)
                } by {
                    if t < before.len() {
                        assert(tiles@[t] == before[t]);
                    }
                }
            }
            start = end;
        }
        let c = PagingCoordinator { limits, tiles, tile_size };
        proof {
            assert forall|t: int| 0 <= t < c.tiles_view().len() implies (
            #[trigger] c.tiles_view()[t]).layout_ok(c.node_total()) by {
                c.tiles_view()[t].lemma_carved(g);
            }
            c.lemma_tile_count();
        }
        c
    }

    /// The tile that holds `node`, if the tiles cover it.
    pub fn get_tile_for_node(&self, node: NodeId) -> (r: Option<&GraphTile>)
        requires
            self.tiled(),
        ensures
            node.0 < self.node_total() ==> r is Some && *r->Some_0 == self.tiles_view()[(node.0
                as int) / (self.tile_len() as int)] && r->Some_0.start_node <= node.0
                < r->Some_0.end_node,
            node.0 >= self.node_total() ==> r is None,
    {
        let u = node.0 as usize;
        let t = u / self.tile_size;
        if t < self.tiles.len() && u < self.tiles[t].end_node {
            proof {
                assert(self.tiles_view()[t as int].end_node <= self.node_total()) by {
                    assert(self.tiles_view()[t as int].layout_ok(self.node_total()));
                }
                self.lemma_tile_of(u as int);
            }
            Some(&self.tiles[t])
        } else {
            proof {
                if u < self.node_total() {
                    self.lemma_tile_of(u as int);
                }
            }
            None
        }
    }

    /// The tile with index `tile_id`, if there is one.
    pub fn get_tile(&self, tile_id: TileId) -> (r: Option<&GraphTile>)
        ensures
            tile_id < self.tiles_view().len() ==> r is Some && *r->Some_0
                == self.tiles_view()[tile_id as int],
            tile_id >= self.tiles_view().len() ==> r is None,
    {
        if tile_id < self.tiles.len() {
            Some(&self.tiles[tile_id])
        } else {
            None
        }
    }

    /// Number of tiles.
    pub fn num_tiles(&self) -> (n: usize)
        ensures
            n == self.tiles_view().len(),
    {
        self.tiles.len()
    }

    /// Whether all tiles together are within the usable budget.
    pub fn fits_in_vram(&self) -> (fits: bool)
        requires
            self.tiled(),
        ensures
            fits == (tiles_bytes(self.tiles_view()) <= self.budget().usable_vram),
    {
        let budget = self.limits.usable_vram;
        let mut total: u64 = 0;
        let mut t: usize = 0;
        while t < self.tiles.len()
            invariant
                t <= self.tiles@.len(),
                self.tiled(),
                budget == self.limits.usable_vram,
                total == tiles_bytes(self.tiles@.take(t as int)),
                total <= budget,
            decreases self.tiles@.len() - t,
        {
            let tile = &self.tiles[t];
            proof {
                assert(self.tiles@.take(t + 1).drop_last() =~= self.tiles@.take(t as int));
                assert(self.tiles_view()[t as int].layout_ok(self.node_total()));
                lemma_tiles_bytes_prefix(self.tiles@, t + 1);
            }
            // Compare with the room that is left, so that no sum overflows.
            let a = tile.row_offsets.len() as u64;
            let b = tile.col_indices.len() as u64;
            let c = tile.edge_weights.len() as u64;
            let room = (budget - total) / 4;
            if a > room || b > room - a || c > room - a - b {
                proof {
                    assert(tiles_bytes(self.tiles@.take(t + 1)) > budget);
                }
                return false;
            }
            total = total + 4 * (a + b + c);
            t += 1;
        }
        proof {
            assert(self.tiles@.take(t as int) =~= self.tiles@);
        }
        true
    }

    /// Nodes per tile.
    pub fn tile_size(&self) -> (n: usize)
        ensures
            n == self.tile_len(),
    {
        self.tile_size
    }

    /// The budget the tiles were sized for.
    pub fn limits(&self) -> (l: &GpuMemoryLimits)
        ensures
            *l == self.budget(),
    {
        &self.limits
    }

    /// All tiles, in node order.
    pub fn tiles(&self) -> (r: &Vec<GraphTile>)
        ensures
            r@ == self.tiles_view(),
    {
        &self.tiles
    }
}

/// The bytes of a prefix of the tiles are no more than the bytes of all.
pub proof fn lemma_tiles_bytes_prefix(tiles: Seq<GraphTile>, k: int)
    requires
        0 <= k <= tiles.len(),
    ensures
        tiles_bytes(tiles.take(k)) <= tiles_bytes(tiles),
    decreases tiles.len() - k,
{
    if k < tiles.len() {
        lemma_tiles_bytes_prefix(tiles, k + 1);
        assert(tiles.take(k + 1).drop_last() =~= tiles.take(k));
    } else {
        assert(tiles.take(k) =~= tiles);
    }
}

/// The rows that the tiles hold, one per covered node.
pub open spec fn tile_rows(c: PagingCoordinator) -> Seq<Seq<u32>> {
    Seq::new(
        c.node_total(),
        |u: int|
            {
                let tile = c.tiles_view()[u / (c.tile_len() as int)];
                tile.row(u - tile.start_node)
            },
    )
}

/// The tiles of a graph hold the rows of the graph.
pub proof fn lemma_tile_rows(c: PagingCoordinator, g: CsrGraph)
    requires
        g.wf(),
        c.covers(g),
    ensures
        tile_rows(c) == graph_rows(g, Direction::Forward),
{
    let rows = tile_rows(c);
    let fwd = graph_rows(g, Direction::Forward);
    assert forall|u: int| 0 <= u < rows.len() implies rows[u] == fwd[u] by {
        c.lemma_tile_of(u);
        let tile = c.tiles_view()[u / (c.tile_len() as int)];
        tile.lemma_carved(g);
        assert(tile.row(u - tile.start_node) == g.out_targets(tile.start_node + (u
            - tile.start_node)));
    }
    assert(rows =~= fwd);
}

impl Adjacency for PagingCoordinator {
    open spec fn rows(&self) -> Seq<Seq<u32>> {
        tile_rows(*self)
    }

    open spec fn valid(&self) -> bool {
        self.tiled()
    }

    proof fn lemma_valid(&self) {
        let rows = self.rows();
        assert forall|u: int, i: int| 0 <= u < rows.len() && 0 <= i < rows[u].len() implies (
        #[trigger] rows[u][i]) < rows.len() by {
            self.lemma_tile_of(u);
            let tile = self.tiles_view()[u / (self.tile_len() as int)];
            let local = u - tile.start_node;
            assert(tile.layout_ok(self.node_total()));
            assert(tile.row_offsets@[local] <= tile.row_offsets@[local + 1]
                <= tile.row_offsets@[tile.num_nodes as int]);
            assert(rows[u][i] == tile.col_indices@[tile.row_offsets@[local] + i]);
        }
    }

    fn node_total(&self) -> (n: usize) {
        if self.tiles.len() == 0 {
            0
        } else {
            self.tiles[self.tiles.len() - 1].end_node
        }
    }

    fn degree(&self, u: usize) -> (d: u64) {
        proof {
            self.lemma_tile_of(u as int);
        }
        let tile = &self.tiles[u / self.tile_size];
        let local = u - tile.start_node;
        proof {
            assert(tile.layout_ok(PagingCoordinator::node_total(self)));
            assert(tile.row_offsets@[local as int] <= tile.row_offsets@[local + 1]);
        }
        (tile.row_offsets[local + 1] - tile.row_offsets[local]) as u64
    }

    fn neighbor(&self, u: usize, i: u64) -> (v: u32) {
        proof {
            self.lemma_tile_of(u as int);
        }
        let tile = &self.tiles[u / self.tile_size];
        let local = u - tile.start_node;
        proof {
            assert(tile.layout_ok(PagingCoordinator::node_total(self)));
            assert(tile.row_offsets@[local as int] <= tile.row_offsets@[local + 1]
                <= tile.row_offsets@[tile.num_nodes as int]);
        }
        tile.col_indices[tile.row_offsets[local] as usize + i as usize]
    }
}

} // verus!
