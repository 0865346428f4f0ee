//! Graph storage.
//!
//! - `csr`: the CSR store
//! - `edge_list`: edge lists and the layout they determine
//! - `tables`: the edge table and the node table of a graph

pub mod csr;
pub mod edge_list;
pub mod tables;
