//! The failures that a texture graph reports.

use vstd::prelude::*;
use crate::index::NodeIndex;

verus! {

/// Why a mutation or an evaluation of a texture graph was refused.
///
/// Every failure is reported to the caller and leaves the graph as it was.
#[derive(Clone, Copy, Debug, PartialEq, Eq, Structural)]
pub enum GraphError {
    /// The handle does not name a node of this graph.
    UnknownNode(NodeIndex),
    /// Source and destination of an edge are the same node.
    SelfEdge(NodeIndex),
    /// The slot (first field) is not below the arity of the destination (second field).
    InvalidTargetSlot(usize, NodeIndex),
    /// The edge would close a cycle.
    CycleRejected,
    /// Not every input slot of the node is wired.
    NodeIncomplete,
    /// A node that feeds the node has no cached value.
    PredecessorNotGenerated,
    /// The transformer of the node refused its inputs.
    InvalidInputs,
}

impl GraphError {
    /// The message that goes with each kind of failure.
    pub open spec fn spec_describe(self) -> Seq<char> {
        match self {
            GraphError::UnknownNode(_) => "Unknown node"@,
            GraphError::SelfEdge(_) => "Self feeding node"@,
            GraphError::InvalidTargetSlot(_, _) => "Invalid target"@,
            GraphError::CycleRejected => "Edge would create cycle"@,
            GraphError::NodeIncomplete => "Node not completed"@,
            GraphError::PredecessorNotGenerated => "Predecessors of node not generated"@,
            GraphError::InvalidInputs => "Input images not valid"@,
        }
    }

    /// A short message for the failure, without the node or slot it concerns.
    pub fn describe(&self) -> (message: &'static str)
        ensures
            message@ == self.spec_describe(),
    {
        match self {
            GraphError::UnknownNode(_) => "Unknown node",
            GraphError::SelfEdge(_) => "Self feeding node",
            GraphError::InvalidTargetSlot(_, _) => "Invalid target",
            GraphError::CycleRejected => "Edge would create cycle",
            GraphError::NodeIncomplete => "Node not completed",
            GraphError::PredecessorNotGenerated => "Predecessors of node not generated",
            GraphError::InvalidInputs => "Input images not valid",
        }
    }
}

} // verus!
