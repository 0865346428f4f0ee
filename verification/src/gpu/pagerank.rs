//! The host side of the device PageRank: out-degrees, the uniform block,
//! and the steps of the driver. Scores are single-precision values carried
//! as their bit patterns.

use crate::gpu::bfs::{workgroup_count, workgroups_for};
use crate::gpu::bytes::{bytes_to_words, is_native_image, words_to_bytes, zero_padded};
use crate::gpu::memory::div_ceil;
use crate::storage::csr::CsrGraph;
use vstd::prelude::*;

verus! {

/// The bit pattern of the damping factor 0.85 in single precision.
pub const DAMPING_BITS: u32 = 0x3F59_999A;

/// Scores computed by the device.
#[derive(Debug, Clone)]
pub struct GpuPageRankResult {
    /// Score of every node, as bit patterns.
    pub scores: Vec<u32>,
    /// Number of iterations that ran.
    pub iterations: usize,
}

impl GpuPageRankResult {
    /// The score of node `node_id`, if there is such a node.
    pub fn score(&self, node_id: usize) -> (s: Option<u32>)
        ensures
            s == if node_id < self.scores@.len() {
                Some(self.scores@[node_id as int])
            } else {
                None
            },
    {
        if node_id < self.scores.len() {
            Some(self.scores[node_id])
        } else {
            None
        }
    }

    /// The result that the bytes read back from the score buffer stand
    /// for, after `iterations` iterations.
    pub fn from_readback(bytes: &[u8], iterations: usize) -> (r: Self)
        ensures
            r.scores@.len() == div_ceil(bytes@.len(), 4),
            is_native_image(r.scores@, zero_padded(bytes@)),
            r.iterations == iterations,
    {
        GpuPageRankResult { scores: bytes_to_words(bytes), iterations }
    }
}

/// The number of outgoing edges of every node.
pub fn out_degrees(graph: &CsrGraph) -> (degrees: Vec<u32>)
    requires
        graph.wf(),
    ensures
        degrees@.len() == graph.node_count(),
        forall|u: int|
            0 <= u < graph.node_count() ==> degrees@[u] == graph.out_targets(u).len(),
{
    let n = graph.num_nodes();
    let mut degrees: Vec<u32> = Vec::new();
    let mut u: usize = 0;
    proof {
        graph.lemma_offsets_monotone();
    }
    while u < n
        invariant
            graph.wf(),
            n == graph.node_count(),
            u <= n,
            degrees@.len() == u,
            forall|k: int| 0 <= k < u ==> degrees@[k] == graph.out_targets(k).len(),
        decreases n - u,
    {
        let row = graph.out_slice(u);
        proof {
            assert(graph.row_off()[u as int] <= graph.row_off()[u + 1]
                <= graph.row_off()[n as int]);
        }
        degrees.push(row.len() as u32);
        u += 1;
    }
    degrees
}

/// The uniform block of the PageRank kernel: four words.
#[derive(Debug, Clone, Copy, PartialEq, Eq, Structural)]
pub struct PageRankParams {
    /// Number of nodes.
    pub num_nodes: u32,
    /// Damping factor, as a single-precision bit pattern.
    pub damping: u32,
    /// The iteration that runs.
    pub iteration: u32,
    /// Fills the block to 16 bytes; always 0.
    pub padding: u32,
}

impl PageRankParams {
    /// The four words of the block in binding order.
    pub open spec fn words_spec(&self) -> Seq<u32> {
        seq![self.num_nodes, self.damping, self.iteration, self.padding]
    }

    /// The bytes of the block as the device reads them.
    pub fn to_bytes(&self) -> (bytes: Vec<u8>)
        ensures
            is_native_image(self.words_spec(), bytes@),
    {
        let mut words: Vec<u32> = Vec::new();
        words.push(self.num_nodes);
        words.push(self.damping);
        words.push(self.iteration);
        words.push(self.padding);
        proof {
            assert(words@ =~= self.words_spec());
        }
        words_to_bytes(words.as_slice())
    }
}

/// What the driver of the device PageRank does next.
#[derive(Debug, Clone, Copy, PartialEq, Eq, Structural)]
pub enum PageRankStep {
    /// Write `params`, dispatch `workgroups` workgroups, wait, and copy
    /// the next scores over the current ones.
    Iterate {
        /// The uniform block of the iteration.
        params: PageRankParams,
        /// Workgroups to dispatch.
        workgroups: u32,
    },
    /// Read the current scores back: the iterations are done.
    ReadBack,
}

/// The step after `done` iterations of `max_iterations`: the next
/// iteration while some are left, then the read-back. The iteration number in
/// the uniform block is 32 bits wide and wraps beyond that.
pub fn pagerank_next_step(
    num_nodes: u32,
    damping: u32,
    max_iterations: usize,
    done: usize,
) -> (step: PageRankStep)
    ensures
        done >= max_iterations ==> step == PageRankStep::ReadBack,
        done < max_iterations ==> step == (PageRankStep::Iterate {
            params: PageRankParams {
                num_nodes,
                damping,
                iteration: (done as int % 0x1_0000_0000) as u32,
                padding: 0,
            },
            workgroups: workgroups_for(num_nodes as nat) as u32,
        }),
{
    if done >= max_iterations {
        PageRankStep::ReadBack
    } else {
        PageRankStep::Iterate {
            params: PageRankParams {
                num_nodes,
                damping,
                iteration: (done as u64 % 0x1_0000_0000) as u32,
                padding: 0,
            },
            workgroups: workgroup_count(num_nodes),
        }
    }
}

} // verus!
