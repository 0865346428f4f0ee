//! An embedded graph engine for call and dependency graphs.
//!
//! The graph is stored as a forward and a reverse compressed-sparse-row
//! (CSR) layout. The algorithms read that layout directly: breadth-first
//! search along and against the edges, shortest paths, cycle detection and
//! topological order, weakly and strongly connected components, community
//! detection, and detectors for three anti-patterns. The `gpu` module holds
//! the host side of the device path: the memory budget, tiles for graphs
//! that exceed it, the tile cache, and the steps of the kernel drivers.
//!
//! Everything here works on integers. Edge weights, costs and scores are
//! single-precision values carried as their IEEE-754 bit patterns (`u32`);
//! where a result depends on their arithmetic, the caller hands the
//! arithmetic in.

pub mod algorithms;
pub mod error;
pub mod gpu;
pub mod storage;

pub use algorithms::louvain::{louvain, CommunityDetectionResult};
pub use algorithms::pattern::{find_patterns, Pattern, PatternMatch, Severity};
pub use algorithms::shortest_path::{dijkstra, dijkstra_path};
pub use algorithms::structure::{connected_components, kosaraju_scc};
pub use algorithms::topo::{is_cyclic, toposort};
pub use algorithms::traversal::{bfs, find_callers};
pub use error::GraphError;
pub use gpu::bfs::GpuBfsResult;
pub use gpu::buffer::GpuCsrBuffers;
pub use gpu::cache::LruTileCache;
pub use gpu::device::GpuDeviceError;
pub use gpu::memory::{GpuMemoryLimits, DEFAULT_MORSEL_SIZE};
pub use gpu::paged_bfs::{gpu_bfs_paged, paged_bfs, PagedBfs};
pub use gpu::pagerank::GpuPageRankResult;
pub use gpu::paging::{GraphTile, PagingCoordinator};
pub use storage::csr::{CsrGraph, NodeId};
