use vstd::prelude::*;

use crate::node::NodeId;

verus! {

/// Represents a connection between two nodes: an ordered (source,
/// destination) pair. An edge is a value, not an owned entity; it exists
/// only as membership in a relation's edge set.
#[derive(Copy, Clone, Eq, PartialEq, Hash, Debug, Structural)]
pub struct Edge {
    src: NodeId,
    dst: NodeId,
}

impl View for Edge {
    type V = (u64, u64);

    closed spec fn view(&self) -> (u64, u64) {
        (self.src@, self.dst@)
    }
}

impl Edge {
    /// Create an `Edge`.
    pub fn new(src: NodeId, dst: NodeId) -> (r: Self)
        ensures
            r@ == (src@, dst@),
    {
        Edge { src, dst }
    }

    /// `NodeId` of source node.
    pub fn src(&self) -> (r: NodeId)
        ensures
            r@ == self@.0,
    {
        self.src
    }

    /// `NodeId` of destination node.
    pub fn dst(&self) -> (r: NodeId)
        ensures
            r@ == self@.1,
    {
        self.dst
    }
}

} // verus!
