use vstd::prelude::*;

verus! {

/// Uniquely identifies a node within a graph.
#[derive(Copy, Clone, Eq, PartialEq, Hash, Debug, Structural)]
pub struct NodeId(u64);

impl View for NodeId {
    type V = u64;

    closed spec fn view(&self) -> u64 {
        self.0
    }
}

impl NodeId {
    /// Create a new `NodeId`.
    pub fn new(id: u64) -> (r: Self)
        ensures
            r@ == id,
    {
        NodeId(id)
    }

    /// Get the numeric value of the id.
    pub fn get(&self) -> (r: u64)
        ensures
            r == self@,
    {
        self.0
    }
}

/// Container for a node payload: one value out of the closed set of kinds
/// that can be stored on a node, with fallible typed projections back out.
pub enum AnyNodeInfo {
    Unit,
    Int(i32),
    Uint(u32),
    Text(String),
}

impl AnyNodeInfo {
    /// Project the payload as an `i32`, if that is what is stored.
    pub fn as_i32(&self) -> (r: Option<&i32>)
        ensures
            match *self {
                AnyNodeInfo::Int(x) => r matches Some(v) && *v == x,
                _ => r is None,
            },
    {
        match self {
            AnyNodeInfo::Int(v) => Some(v),
            _ => None,
        }
    }

    /// Project the payload as a `u32`, if that is what is stored.
    pub fn as_u32(&self) -> (r: Option<&u32>)
        ensures
            match *self {
                AnyNodeInfo::Uint(x) => r matches Some(v) && *v == x,
                _ => r is None,
            },
    {
        match self {
            AnyNodeInfo::Uint(v) => Some(v),
            _ => None,
        }
    }

    /// Project the payload as a `String`, if that is what is stored.
    pub fn as_text(&self) -> (r: Option<&String>)
        ensures
            match *self {
                AnyNodeInfo::Text(x) => r matches Some(v) && *v == x,
                _ => r is None,
            },
    {
        match self {
            AnyNodeInfo::Text(v) => Some(v),
            _ => None,
        }
    }

    /// Mutably project the payload as an `i32`, if that is what is stored.
    pub fn as_i32_mut(&mut self) -> (r: Option<&mut i32>)
        ensures
            match r {
                Some(v) => *old(self) matches AnyNodeInfo::Int(x) && *v == x && *final(self)
                    == AnyNodeInfo::Int(*final(v)),
                None => !(*old(self) is Int) && *final(self) == *old(self),
            },
    {
        match self {
            AnyNodeInfo::Int(v) => Some(v),
            _ => None,
        }
    }

    /// Mutably project the payload as a `u32`, if that is what is stored.
    pub fn as_u32_mut(&mut self) -> (r: Option<&mut u32>)
        ensures
            match r {
                Some(v) => *old(self) matches AnyNodeInfo::Uint(x) && *v == x && *final(self)
                    == AnyNodeInfo::Uint(*final(v)),
                None => !(*old(self) is Uint) && *final(self) == *old(self),
            },
    {
        match self {
            AnyNodeInfo::Uint(v) => Some(v),
            _ => None,
        }
    }

    /// Mutably project the payload as a `String`, if that is what is stored.
    pub fn as_text_mut(&mut self) -> (r: Option<&mut String>)
        ensures
            match r {
                Some(v) => *old(self) matches AnyNodeInfo::Text(x) && *v == x && *final(self)
                    == AnyNodeInfo::Text(*final(v)),
                None => !(*old(self) is Text) && *final(self) == *old(self),
            },
    {
        match self {
            AnyNodeInfo::Text(v) => Some(v),
            _ => None,
        }
    }
}

/// Trait implemented by types which can be stored as a node payload.
pub trait NodeInfo: Sized {
    /// The payload value this type turns into when stored.
    spec fn node_info_view(self) -> AnyNodeInfo;

    /// Wrap the value as a node payload.
    fn into_node_info(self) -> (r: AnyNodeInfo)
        ensures
            r == self.node_info_view(),
    ;
}

impl NodeInfo for () {
    open spec fn node_info_view(self) -> AnyNodeInfo {
        AnyNodeInfo::Unit
    }

    fn into_node_info(self) -> AnyNodeInfo {
        AnyNodeInfo::Unit
    }
}

impl NodeInfo for i32 {
    open spec fn node_info_view(self) -> AnyNodeInfo {
        AnyNodeInfo::Int(self)
    }

    fn into_node_info(self) -> AnyNodeInfo {
        AnyNodeInfo::Int(self)
    }
}

impl NodeInfo for u32 {
    open spec fn node_info_view(self) -> AnyNodeInfo {
        AnyNodeInfo::Uint(self)
    }

    fn into_node_info(self) -> AnyNodeInfo {
        AnyNodeInfo::Uint(self)
    }
}

impl NodeInfo for String {
    open spec fn node_info_view(self) -> AnyNodeInfo {
        AnyNodeInfo::Text(self)
    }

    fn into_node_info(self) -> AnyNodeInfo {
        AnyNodeInfo::Text(self)
    }
}

impl NodeInfo for AnyNodeInfo {
    open spec fn node_info_view(self) -> AnyNodeInfo {
        self
    }

    fn into_node_info(self) -> AnyNodeInfo {
        self
    }
}

} // verus!
