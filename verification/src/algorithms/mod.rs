//! Graph algorithms over the CSR store.
//!
//! - `reach`: walks, reachability, and the views under which a graph is read
//! - `counting`: counting lemmas shared by the searches
//! - `levels`: level-synchronous breadth-first search
//! - `traversal`: what a node reaches, and who reaches it
//! - `queue`: the priority queue of the shortest-path search
//! - `shortest_path`: Dijkstra's algorithm
//! - `topo`: cycle detection and topological order
//! - `structure`: weakly and strongly connected components
//! - `louvain`: community detection
//! - `pattern`: anti-pattern detectors

pub mod counting;
pub mod levels;
pub mod louvain;
pub mod pattern;
pub mod queue;
pub mod reach;
pub mod shortest_path;
pub mod structure;
pub mod topo;
pub mod traversal;
