use vstd::prelude::*;

verus! {

/// Error returned by the `connect` and `disconnect` methods of `Graph`.
/// Each variant names the argument that referenced an unknown entity, so
/// callers can diagnose which one was wrong.
#[derive(Copy, Clone, Debug, PartialEq, Eq, Structural)]
pub enum ConnectError {
    /// An invalid source node ID was provided.
    InvalidSrcNodeId,
    /// An invalid destination node ID was provided.
    InvalidDstNodeId,
    /// An invalid relation ID was provided.
    InvalidRelationId,
}

impl ConnectError {
    /// A human-readable description of the error.
    pub fn message(&self) -> (r: &'static str)
        ensures
            match *self {
                ConnectError::InvalidSrcNodeId => r@ == "Invalid source node ID"@,
                ConnectError::InvalidDstNodeId => r@ == "Invalid destination node ID"@,
                ConnectError::InvalidRelationId => r@ == "Invalid relation ID"@,
            },
    {
        match self {
            ConnectError::InvalidSrcNodeId => "Invalid source node ID",
            ConnectError::InvalidDstNodeId => "Invalid destination node ID",
            ConnectError::InvalidRelationId => "Invalid relation ID",
        }
    }
}

} // verus!
