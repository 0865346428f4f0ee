//! Recoverable errors of the graph store and the algorithms.

use vstd::prelude::*;
use vstd::string::StringExecFns;

verus! {

/// What a graph operation can fail with.
#[derive(Debug, Clone, Copy, PartialEq, Eq, Structural)]
pub enum GraphError {
    /// A neighbour query named a node that the graph does not have.
    NodeOutOfRange,
    /// A topological order was asked of a graph that has a cycle.
    CycleDetected,
    /// The pattern dispatcher was handed a name it has no detector for.
    PatternUnsupported,
}

impl GraphError {
    /// The text of the error.
    pub open spec fn message_spec(&self) -> Seq<char> {
        match self {
            GraphError::NodeOutOfRange => "Node ID out of bounds"@,
            GraphError::CycleDetected => "Cycle detected: cannot compute topological order"@,
            GraphError::PatternUnsupported => "Pattern not supported: no detector has this name"@,
        }
    }

    /// The text of the error.
    pub fn message(&self) -> (text: String)
        ensures
            text@ == self.message_spec(),
    {
        match self {
            GraphError::NodeOutOfRange => String::from_str("Node ID out of bounds"),
            GraphError::CycleDetected => String::from_str(
                "Cycle detected: cannot compute topological order",
            ),
            GraphError::PatternUnsupported => String::from_str(
                "Pattern not supported: no detector has this name",
            ),
        }
    }
}

} // verus!
