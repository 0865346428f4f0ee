//! The result of a device BFS and the host side of its driver.

use crate::algorithms::levels::{reached_count, UNREACHED};
use crate::gpu::bytes::{bytes_to_words, is_native_image, words_to_bytes, zero_padded};
use crate::gpu::memory::div_ceil;
use crate::storage::csr::NodeId;
use vstd::prelude::*;

verus! {

/// Distances computed by a breadth-first search.
#[derive(Debug, Clone)]
pub struct GpuBfsResult {
    /// Distance from the source per node; `u32::MAX` for a node that was
    /// not reached.
    pub distances: Vec<u32>,
    /// Number of nodes that were reached.
    pub visited_count: usize,
}

impl GpuBfsResult {
    /// The distance of `node`, unless it was not reached or is no node.
    pub fn distance(&self, node: NodeId) -> (d: Option<u32>)
        ensures
            d == if node.0 < self.distances@.len() && self.distances@[node.0 as int] != UNREACHED {
                Some(self.distances@[node.0 as int])
            } else {
                None
            },
    {
        let i = node.0 as usize;
        if i < self.distances.len() && self.distances[i] != UNREACHED {
            Some(self.distances[i])
        } else {
            None
        }
    }

    /// Whether `node` was reached.
    pub fn is_reachable(&self, node: NodeId) -> (yes: bool)
        ensures
            yes == (node.0 < self.distances@.len() && self.distances@[node.0 as int]
                != UNREACHED),
    {
        self.distance(node).is_some()
    }

    /// The result that a distance array stands for: the array itself and
    /// the number of its reached entries.
    pub fn from_distances(distances: Vec<u32>) -> (r: Self)
        ensures
            r.distances@ == distances@,
            r.visited_count == reached_count(distances@),
    {
        let mut count: usize = 0;
        let mut i: usize = 0;
        while i < distances.len()
            invariant
                i <= distances@.len(),
                count == reached_count(distances@.take(i as int)),
                count <= i,
            decreases distances@.len() - i,
        {
            proof {
                assert(distances@.take(i + 1).drop_last() =~= distances@.take(i as int));
            }
            if distances[i] != UNREACHED {
                count += 1;
            }
            i += 1;
        }
        proof {
            assert(distances@.take(i as int) =~= distances@);
        }
        GpuBfsResult { distances, visited_count: count }
    }

    /// The result that the bytes read back from the distance buffer stand
    /// for.
    pub fn from_readback(bytes: &[u8]) -> (r: Self)
        ensures
            r.distances@.len() == div_ceil(bytes@.len(), 4),
            is_native_image(r.distances@, zero_padded(bytes@)),
            r.visited_count == reached_count(r.distances@),
    {
        GpuBfsResult::from_distances(bytes_to_words(bytes))
    }
}

/// Threads per workgroup of the compute kernels.
pub const WORKGROUP_SIZE: u32 = 256;

/// Workgroups that give every node a thread: the node count divided by
/// the workgroup size, rounded up, and at least 1.
pub open spec fn workgroups_for(num_nodes: nat) -> nat {
    let groups = div_ceil(num_nodes, WORKGROUP_SIZE as nat);
    if groups < 1 {
        1
    } else {
        groups
    }
}

/// Workgroups to dispatch for `num_nodes` nodes.
pub fn workgroup_count(num_nodes: u32) -> (groups: u32)
    ensures
        groups == workgroups_for(num_nodes as nat),
{
    let whole = num_nodes / WORKGROUP_SIZE;
    let groups = if num_nodes % WORKGROUP_SIZE == 0 {
        whole
    } else {
        whole + 1
    };
    if groups < 1 {
        1
    } else {
        groups
    }
}

/// The uniform block of the BFS kernel: four words.
#[derive(Debug, Clone, Copy, PartialEq, Eq, Structural)]
pub struct BfsParams {
    /// Number of nodes.
    pub num_nodes: u32,
    /// The level that is expanded.
    pub current_level: u32,
    /// The source of the search.
    pub source_node: u32,
    /// Fills the block to 16 bytes; always 0.
    pub padding: u32,
}

impl BfsParams {
    /// The four words of the block in binding order.
    pub open spec fn words_spec(&self) -> Seq<u32> {
        seq![self.num_nodes, self.current_level, self.source_node, self.padding]
    }

    /// The bytes of the block as the device reads them.
    pub fn to_bytes(&self) -> (bytes: Vec<u8>)
        ensures
            is_native_image(self.words_spec(), bytes@),
    {
        let mut words: Vec<u32> = Vec::new();
        words.push(self.num_nodes);
        words.push(self.current_level);
        words.push(self.source_node);
        words.push(self.padding);
        proof {
            assert(words@ =~= self.words_spec());
        }
        words_to_bytes(words.as_slice())
    }
}

/// The distances before the first level: 0 for the source, if it is a
/// node, and unreached for every other node.
pub open spec fn initial_distances_spec(num_nodes: nat, source: u32) -> Seq<u32> {
    Seq::new(
        num_nodes,
        |v: int|
            if v == source {
                0u32
            } else {
                UNREACHED
            },
    )
}

/// The distances that the search starts from.
pub fn initial_distances(num_nodes: usize, source: NodeId) -> (dist: Vec<u32>)
    ensures
        dist@ == initial_distances_spec(num_nodes as nat, source.0),
{
    let mut dist: Vec<u32> = Vec::new();
    let mut v: usize = 0;
    while v < num_nodes
        invariant
            v <= num_nodes,
            dist@ == initial_distances_spec(num_nodes as nat, source.0).take(v as int),
        decreases num_nodes - v,
    {
        dist.push(
            if v == source.0 as usize {
                0
            } else {
                UNREACHED
            },
        );
        proof {
            assert(dist@ =~= initial_distances_spec(num_nodes as nat, source.0).take(v + 1));
        }
        v += 1;
    }
    proof {
        assert(dist@ =~= initial_distances_spec(num_nodes as nat, source.0));
    }
    dist
}

/// The bytes that the distance buffer is created with.
pub fn initial_distance_bytes(num_nodes: usize, source: NodeId) -> (bytes: Vec<u8>)
    ensures
        is_native_image(initial_distances_spec(num_nodes as nat, source.0), bytes@),
{
    let dist = initial_distances(num_nodes, source);
    words_to_bytes(dist.as_slice())
}

/// What the driver of the device BFS does next.
#[derive(Debug, Clone, Copy, PartialEq, Eq, Structural)]
pub enum BfsStep {
    /// Reset the `updated` flag, write `params`, dispatch `workgroups`
    /// workgroups, wait, and read the flag.
    Dispatch {
        /// The uniform block of the level.
        params: BfsParams,
        /// Workgroups to dispatch.
        workgroups: u32,
    },
    /// Read the distances back: the search is over.
    ReadBack,
}

/// The step for level `level`.
pub open spec fn dispatch_of(num_nodes: u32, source: u32, level: u32) -> BfsStep {
    BfsStep::Dispatch {
        params: BfsParams {
            num_nodes,
            current_level: level,
            source_node: source,
            padding: 0,
        },
        workgroups: workgroups_for(num_nodes as nat) as u32,
    }
}

/// The first step of the driver: level 0, unless the graph has no node.
pub fn bfs_first_step(num_nodes: u32, source: NodeId) -> (step: BfsStep)
    ensures
        num_nodes == 0 ==> step == BfsStep::ReadBack,
        num_nodes > 0 ==> step == dispatch_of(num_nodes, source.0, 0),
{
    if num_nodes == 0 {
        BfsStep::ReadBack
    } else {
        BfsStep::Dispatch {
            params: BfsParams {
                num_nodes,
                current_level: 0,
                source_node: source.0,
                padding: 0,
            },
            workgroups: workgroup_count(num_nodes),
        }
    }
}

/// The step after level `level`, whose kernel left `updated` in the flag.
///
/// The search is over when the level changed nothing, or when as many
/// levels have run as there are nodes; otherwise the next level follows.
pub fn bfs_next_step(num_nodes: u32, source: NodeId, level: u32, updated: u32) -> (step: BfsStep)
    ensures
        updated == 0 || level + 1 >= num_nodes ==> step == BfsStep::ReadBack,
        updated != 0 && level + 1 < num_nodes ==> step == dispatch_of(
            num_nodes,
            source.0,
            (level + 1) as u32,
        ),
{
    if updated == 0 || level >= num_nodes || level + 1 >= num_nodes {
        BfsStep::ReadBack
    } else {
        BfsStep::Dispatch {
            params: BfsParams {
                num_nodes,
                current_level: level + 1,
                source_node: source.0,
                padding: 0,
            },
            workgroups: workgroup_count(num_nodes),
        }
    }
}

} // verus!
