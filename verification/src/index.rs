//! Node handles.

use vstd::prelude::*;

verus! {

/// A handle for a node of a texture graph: the position at which the node was added.
///
/// A handle is only meaningful for the graph that issued it. A graph answers a handle
/// that it did not issue (one that is out of its range) with a lookup failure.
#[derive(Clone, Copy, Debug, PartialEq, Eq, Hash, Structural)]
pub struct NodeIndex {
    pub ix: u32,
}

impl NodeIndex {
    /// The handle of the node at position `ix`.
    pub fn new(ix: u32) -> (index: Self)
        ensures
            index.ix == ix,
    {
        NodeIndex { ix }
    }

    /// The position of the node in its graph.
    pub fn index(self) -> (position: usize)
        ensures
            position == self.ix,
    {
        self.ix as usize
    }
}

} // verus!
