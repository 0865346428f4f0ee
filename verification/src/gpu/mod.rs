//! The host side of the device path: what is planned, framed and decided
//! on the host before and after the device runs.
//!
//! - `device`: errors of the device
//! - `memory`: the memory budget
//! - `bytes`: words and their bytes in device buffers
//! - `buffer`: the CSR arrays as they are uploaded
//! - `bfs`: the result of a device BFS and the steps of its driver
//! - `pagerank`: the host side of the device PageRank
//! - `cache`: the bounded tile cache
//! - `paging`: tiles and their coordinator
//! - `paged_bfs`: BFS over tiles

pub mod bfs;
pub mod buffer;
pub mod bytes;
pub mod cache;
pub mod device;
pub mod memory;
pub mod paged_bfs;
pub mod pagerank;
pub mod paging;
