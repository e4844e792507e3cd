use vstd::prelude::*;

use crate::edge::Edge;
use crate::model::RelView;
use crate::node::NodeId;
use crate::pairing::{
    hi, hi_of, lemma_pack_unpack, lemma_pairs_of_empty, lemma_pairs_of_insert, lemma_pairs_of_len,
    lemma_pairs_of_remove, lemma_unpack_pack, lo, lo_of, pack, pairs_of, pairset_contains,
    pairset_elems, pairset_insert, pairset_new, pairset_remove, PairTable,
};

verus! {

broadcast use vstd::std_specs::hash::group_hash_axioms;

/// Uniquely identifies a relation within a graph. The value 0 is reserved
/// as the invalid sentinel; a `RelationId` is always non-zero.
#[derive(Copy, Clone, Eq, PartialEq, Hash, Debug, Structural)]
pub struct RelationId(u64);

impl View for RelationId {
    type V = u64;

    closed spec fn view(&self) -> u64 {
        self.0
    }
}

impl RelationId {
    /// Create a new `RelationId` with the given id.
    /// The id must be non-zero: 0 is the reserved invalid sentinel.
    pub fn new(id: u64) -> (r: Self)
        requires
            id != 0,
        ensures
            r@ == id,
    {
        RelationId(id)
    }

    /// Get the numeric value of the id.
    pub fn get(&self) -> (r: u64)
        ensures
            r == self@,
    {
        self.0
    }
}

/// Container for a relation payload: one value out of the closed set of
/// kinds that can be stored on a relation, with fallible typed projections
/// back out.
pub enum AnyRelationInfo {
    Int(i32),
    Uint(u32),
    Text(String),
}

impl AnyRelationInfo {
    /// Project the payload as an `i32`, if that is what is stored.
    pub fn as_i32(&self) -> (r: Option<&i32>)
        ensures
            match *self {
                AnyRelationInfo::Int(x) => r matches Some(v) && *v == x,
                _ => r is None,
            },
    {
        match self {
            AnyRelationInfo::Int(v) => Some(v),
            _ => None,
        }
    }

    /// Project the payload as a `u32`, if that is what is stored.
    pub fn as_u32(&self) -> (r: Option<&u32>)
        ensures
            match *self {
                AnyRelationInfo::Uint(x) => r matches Some(v) && *v == x,
                _ => r is None,
            },
    {
        match self {
            AnyRelationInfo::Uint(v) => Some(v),
            _ => None,
        }
    }

    /// Project the payload as a `String`, if that is what is stored.
    pub fn as_text(&self) -> (r: Option<&String>)
        ensures
            match *self {
                AnyRelationInfo::Text(x) => r matches Some(v) && *v == x,
                _ => r is None,
            },
    {
        match self {
            AnyRelationInfo::Text(v) => Some(v),
            _ => None,
        }
    }

    /// Mutably project the payload as an `i32`, if that is what is stored.
    pub fn as_i32_mut(&mut self) -> (r: Option<&mut i32>)
        ensures
            match r {
                Some(v) => *old(self) matches AnyRelationInfo::Int(x) && *v == x && *final(self)
                    == AnyRelationInfo::Int(*final(v)),
                None => !(*old(self) is Int) && *final(self) == *old(self),
            },
    {
        match self {
            AnyRelationInfo::Int(v) => Some(v),
            _ => None,
        }
    }

    /// Mutably project the payload as a `u32`, if that is what is stored.
    pub fn as_u32_mut(&mut self) -> (r: Option<&mut u32>)
        ensures
            match r {
                Some(v) => *old(self) matches AnyRelationInfo::Uint(x) && *v == x && *final(self)
                    == AnyRelationInfo::Uint(*final(v)),
                None => !(*old(self) is Uint) && *final(self) == *old(self),
            },
    {
        match self {
            AnyRelationInfo::Uint(v) => Some(v),
            _ => None,
        }
    }

    /// Mutably project the payload as a `String`, if that is what is stored.
    pub fn as_text_mut(&mut self) -> (r: Option<&mut String>)
        ensures
            match r {
                Some(v) => *old(self) matches AnyRelationInfo::Text(x) && *v == x && *final(self)
                    == AnyRelationInfo::Text(*final(v)),
                None => !(*old(self) is Text) && *final(self) == *old(self),
            },
    {
        match self {
            AnyRelationInfo::Text(v) => Some(v),
            _ => None,
        }
    }
}

/// Trait implemented by types which can be stored as a relation payload.
pub trait RelationInfo: Sized {
    /// The payload value this type turns into when stored.
    spec fn relation_info_view(self) -> AnyRelationInfo;

    /// Wrap the value as a relation payload.
    fn into_relation_info(self) -> (r: AnyRelationInfo)
        ensures
            r == self.relation_info_view(),
    ;
}

impl RelationInfo for i32 {
    open spec fn relation_info_view(self) -> AnyRelationInfo {
        AnyRelationInfo::Int(self)
    }

    fn into_relation_info(self) -> AnyRelationInfo {
        AnyRelationInfo::Int(self)
    }
}

impl RelationInfo for u32 {
    open spec fn relation_info_view(self) -> AnyRelationInfo {
        AnyRelationInfo::Uint(self)
    }

    fn into_relation_info(self) -> AnyRelationInfo {
        AnyRelationInfo::Uint(self)
    }
}

impl RelationInfo for String {
    open spec fn relation_info_view(self) -> AnyRelationInfo {
        AnyRelationInfo::Text(self)
    }

    fn into_relation_info(self) -> AnyRelationInfo {
        AnyRelationInfo::Text(self)
    }
}

impl RelationInfo for AnyRelationInfo {
    open spec fn relation_info_view(self) -> AnyRelationInfo {
        self
    }

    fn into_relation_info(self) -> AnyRelationInfo {
        self
    }
}

/// A relation's modelled edge set is always finite.
pub proof fn lemma_relation_edges_finite(r: &Relation)
    ensures
        r@.edges.finite(),
{
    lemma_pairs_of_len(r.edges@.dom());
}

/// Models a relation between nodes in a graph: a payload plus the set of
/// edges currently tagged with this relation.
pub struct Relation {
    info: AnyRelationInfo,
    edges: PairTable,
}

impl View for Relation {
    type V = RelView;

    closed spec fn view(&self) -> RelView {
        RelView { info: self.info, edges: pairs_of(self.edges@.dom()) }
    }
}

impl Relation {
    /// Create a `Relation` with the given info and no edges.
    pub fn new<I: RelationInfo>(info: I) -> (r: Self)
        ensures
            r@.info == info.relation_info_view(),
            r@.edges == Set::<(u64, u64)>::empty(),
    {
        let r = Relation { info: info.into_relation_info(), edges: pairset_new() };
        proof {
            lemma_pairs_of_empty();
        }
        r
    }

    /// Get a shared reference to the info.
    pub fn info(&self) -> (r: &AnyRelationInfo)
        ensures
            *r == self@.info,
    {
        &self.info
    }

    /// Get an exclusive reference to the info.
    pub fn info_mut(&mut self) -> (r: &mut AnyRelationInfo)
        ensures
            *r == old(self)@.info,
            final(self)@.info == *final(r),
            final(self)@.edges == old(self)@.edges,
    {
        &mut self.info
    }

    /// Insert a new edge to the relation and return whether
    /// or not the edge did not exist previously.
    pub fn insert_edge(&mut self, edge: Edge) -> (newly: bool)
        ensures
            final(self)@.info == old(self)@.info,
            final(self)@.edges == old(self)@.edges.insert(edge@),
            newly == !old(self)@.edges.contains(edge@),
    {
        let s = edge.src().get();
        let d = edge.dst().get();
        let newly = pairset_insert(&mut self.edges, s, d);
        proof {
            lemma_pairs_of_insert(old(self).edges@.dom(), s, d);
        }
        newly
    }

    /// Remove an edge from the relation and return whether
    /// or not there was anything to remove.
    pub fn remove_edge(&mut self, edge: &Edge) -> (was: bool)
        ensures
            final(self)@.info == old(self)@.info,
            final(self)@.edges == old(self)@.edges.remove(edge@),
            was == old(self)@.edges.contains(edge@),
    {
        let s = edge.src().get();
        let d = edge.dst().get();
        let was = pairset_remove(&mut self.edges, s, d);
        proof {
            lemma_pairs_of_remove(old(self).edges@.dom(), s, d);
        }
        was
    }

    /// Check if the relation contains an edge.
    pub fn contains_edge(&self, edge: &Edge) -> (r: bool)
        ensures
            r == self@.edges.contains(edge@),
    {
        pairset_contains(&self.edges, edge.src().get(), edge.dst().get())
    }

    /// All edges that belong to the relation, in no particular order and
    /// without duplicates.
    pub fn iter_edges(&self) -> (v: Vec<Edge>)
        ensures
            v@.len() == self@.edges.len(),
            forall|i: int, j: int| 0 <= i < j < v@.len() ==> v@[i]@ != v@[j]@,
            forall|i: int| 0 <= i < v@.len() ==> self@.edges.contains(#[trigger] v@[i]@),
            forall|p: (u64, u64)|
                self@.edges.contains(p) ==> exists|i: int| 0 <= i < v@.len() && #[trigger] v@[i]@ == p,
    {
        let packed = pairset_elems(&self.edges);
        let mut v: Vec<Edge> = Vec::new();
        let n = packed.len();
        for k in 0..n
            invariant
                n == packed@.len(),
                v@.len() == k,
                forall|i: int|
                    0 <= i < k ==> #[trigger] v@[i]@ == (hi(packed@[i]), lo(packed@[i])),
        {
            let c = packed[k];
            v.push(Edge::new(NodeId::new(hi_of(c)), NodeId::new(lo_of(c))));
        }
        proof {
            lemma_pairs_of_len(self.edges@.dom());
            assert forall|i: int, j: int| 0 <= i < j < v@.len() implies v@[i]@ != v@[j]@ by {
                lemma_pack_unpack(packed@[i]);
                lemma_pack_unpack(packed@[j]);
            }
            assert forall|i: int| 0 <= i < v@.len() implies self@.edges.contains(v@[i]@) by {
                lemma_pack_unpack(packed@[i]);
                assert(packed@.to_set().contains(packed@[i]));
            }
            assert forall|p: (u64, u64)| self@.edges.contains(p) implies exists|i: int|
                0 <= i < v@.len() && #[trigger] v@[i]@ == p by {
                lemma_unpack_pack(p.0, p.1);
                assert(packed@.to_set().contains(pack(p.0, p.1)));
                let i = choose|i: int| 0 <= i < packed@.len() && packed@[i] == pack(p.0, p.1);
                assert(v@[i]@ == p);
            }
        }
        v
    }

    /// Consume the relation and return its info.
    pub fn into_info(self) -> (r: AnyRelationInfo)
        ensures
            r == self@.info,
    {
        self.info
    }
}

} // verus!
