//! The CSR arrays of a graph as they are uploaded to the device.

use crate::gpu::bytes::{is_native_image, words_to_bytes};
use crate::storage::csr::CsrGraph;
use vstd::prelude::*;

verus! {

/// The bit pattern of a weight that is not zero: any pattern but those of
/// `+0.0` and `-0.0`.
pub open spec fn is_nonzero_weight(bits: u32) -> bool {
    bits != 0 && bits != 0x8000_0000
}

/// Some weight is not zero.
pub open spec fn has_nonzero_weight(weights: Seq<u32>) -> bool {
    exists|i: int| 0 <= i < weights.len() && is_nonzero_weight(#[trigger] weights[i])
}

/// The contents of the device buffers of a graph: the bytes of the
/// forward offsets and targets and, for a graph with a weight that is not
/// zero, of the weights.
#[derive(Debug, Clone)]
pub struct GpuCsrBuffers {
    /// Number of nodes of the graph.
    pub num_nodes: usize,
    /// Number of edges of the graph.
    pub num_edges: usize,
    /// Bytes of the offsets, `num_nodes + 1` words.
    pub row_offsets: Vec<u8>,
    /// Bytes of the targets, `num_edges` words.
    pub col_indices: Vec<u8>,
    /// Bytes of the weights, `num_edges` words; absent when every weight
    /// is zero.
    pub edge_weights: Option<Vec<u8>>,
}

impl GpuCsrBuffers {
    /// The buffer contents for `graph`.
    pub fn from_csr_graph(graph: &CsrGraph) -> (buffers: Self)
        requires
            graph.wf(),
        ensures
            buffers.num_nodes == graph.node_count(),
            buffers.num_edges == graph.edge_count(),
            is_native_image(graph.row_off(), buffers.row_offsets@),
            is_native_image(graph.col_idx(), buffers.col_indices@),
            has_nonzero_weight(graph.weights()) ==> buffers.edge_weights is Some
                && is_native_image(graph.weights(), buffers.edge_weights->Some_0@),
            !has_nonzero_weight(graph.weights()) ==> buffers.edge_weights is None,
    {
        let (off, col, w) = graph.csr_components();
        let mut weighted = false;
        let mut i: usize = 0;
        while i < w.len()
            invariant
                i <= w@.len(),
                weighted ==> has_nonzero_weight(w@),
                !weighted ==> forall|k: int| 0 <= k < i ==> !is_nonzero_weight(#[trigger] w@[k]),
            decreases w@.len() - i,
        {
            if w[i] != 0 && w[i] != 0x8000_0000 {
                weighted = true;
            }
            i += 1;
        }
        let edge_weights = if weighted {
            Some(words_to_bytes(w))
        } else {
            None
        };
        GpuCsrBuffers {
            num_nodes: graph.num_nodes(),
            num_edges: graph.num_edges(),
            row_offsets: words_to_bytes(off),
            col_indices: words_to_bytes(col),
            edge_weights,
        }
    }

    /// Number of nodes.
    pub fn num_nodes(&self) -> (n: usize)
        ensures
            n == self.num_nodes,
    {
        self.num_nodes
    }

    /// Number of edges.
    pub fn num_edges(&self) -> (n: usize)
        ensures
            n == self.num_edges,
    {
        self.num_edges
    }
}

} // verus!
