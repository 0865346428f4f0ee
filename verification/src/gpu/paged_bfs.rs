//! Breadth-first search over the tiles of a graph that does not fit into
//! device memory.
//!
//! The search runs on the host, level by level: the distances and the
//! frontier are kept on the host, and the edges of a frontier node are read
//! from the tile that owns it.

use crate::algorithms::levels::{bfs_levels, reached_count, UNREACHED};
use crate::algorithms::reach::{at_distance, graph_rows, reaches, Adjacency, Direction};
use crate::gpu::bfs::GpuBfsResult;
use crate::gpu::memory::GpuMemoryLimits;
use crate::gpu::paging::{lemma_tile_rows, paged_footprint, PagingCoordinator};
use crate::storage::csr::{CsrGraph, NodeId};
use vstd::prelude::*;

verus! {

/// How a search over a tiled graph went.
#[derive(Debug, Clone)]
pub enum PagedBfs {
    /// All tiles together fit into the budget: the search is left to the
    /// device, with the whole graph resident.
    Resident,
    /// The graph does not fit: the search ran on the host, tile by tile.
    Paged(GpuBfsResult),
}

/// `result` holds the breadth-first distances from `source` over `rows`:
/// a reachable node its exact distance, every other node `u32::MAX`, and
/// the number of reachable nodes.
pub open spec fn is_bfs_result(rows: Seq<Seq<u32>>, source: u32, result: GpuBfsResult) -> bool {
    &&& result.distances@.len() == rows.len()
    &&& result.visited_count == reached_count(result.distances@)
    &&& forall|v: u32|
        v < rows.len() ==> ((#[trigger] result.distances@[v as int]) != UNREACHED <==> reaches(
            rows,
            source,
            v,
        ))
    &&& forall|v: u32|
        v < rows.len() && (#[trigger] result.distances@[v as int]) != UNREACHED ==> at_distance(
            rows,
            source,
            v,
            result.distances@[v as int] as nat,
        )
}

/// Breadth-first distances from `source` over the tiles. A source that
/// the tiles do not cover reaches nothing.
pub fn paged_bfs(coordinator: &PagingCoordinator, source: NodeId) -> (result: GpuBfsResult)
    requires
        coordinator.tiled(),
    ensures
        is_bfs_result(coordinator.rows(), source.0, result),
{
    let ghost rows = coordinator.rows();
    let n = Adjacency::node_total(coordinator);
    // No node is further away than there are nodes, so `n` levels exhaust
    // the search.
    let distances = bfs_levels(coordinator, source.0, n);
    proof {
        assert forall|v: u32| v < rows.len() implies ((#[trigger] distances@[v as int])
            != UNREACHED <==> reaches(rows, source.0, v)) by {
            if distances@[v as int] != UNREACHED {
                crate::algorithms::reach::lemma_within_weaken(
                    rows,
                    source.0,
                    v,
                    n as nat,
                    n as nat,
                );
            }
        }
    }
    GpuBfsResult::from_distances(distances)
}

/// Breadth-first search on a graph that may exceed device memory.
///
/// The graph is cut into tiles for the budget `limits`. If all tiles fit
/// into the usable budget the answer is `Resident`: the caller runs the
/// search on the device. Otherwise the search runs over the tiles on the
/// host and the answer carries its result.
pub fn gpu_bfs_paged(limits: GpuMemoryLimits, graph: &CsrGraph, source: NodeId) -> (r: PagedBfs)
    requires
        graph.wf(),
    ensures
        r is Paged ==> is_bfs_result(graph_rows(*graph, Direction::Forward), source.0, r->Paged_0),
        r is Resident <==> paged_footprint(limits, *graph) <= limits.usable_vram,
{
    let coordinator = PagingCoordinator::new(limits, graph);
    if coordinator.fits_in_vram() {
        return PagedBfs::Resident;
    }
    proof {
        lemma_tile_rows(coordinator, *graph);
    }
    PagedBfs::Paged(paged_bfs(&coordinator, source))
}

} // verus!
