use vstd::prelude::*;

use crate::edge::Edge;
use crate::errors::ConnectError;
use crate::id::IdGenerator;
use crate::model::{lemma_without_edge_facts, GraphView, RelView};
use crate::node::{AnyNodeInfo, NodeId, NodeInfo};
use crate::pairing::{
    hi, hi_of, lemma_pack_unpack, lemma_pairs_of_len, lemma_unpack_pack, lo, lo_of, pack,
    pairs_of, pairset_elems, pairset_insert, pairset_len, pairset_new, pairset_remove, PairTable,
};
use crate::relation::{AnyRelationInfo, Relation, RelationId, RelationInfo};
use vstd::std_specs::iter::IteratorSpec;
use std::collections::HashMap;

verus! {

broadcast use vstd::std_specs::hash::group_hash_axioms;

/// Insert the packed pair `(a, b)` into the table at `key` of an
/// adjacency index; the other entries stay as they are.
fn index_insert_pair(idx: &mut HashMap<u64, PairTable>, key: u64, a: u64, b: u64)
    requires
        old(idx)@.contains_key(key),
    ensures
        final(idx)@.dom() == old(idx)@.dom(),
        forall|m: u64|
            old(idx)@.contains_key(m) && m != key ==> #[trigger] final(idx)@[m] == old(idx)@[m],
        final(idx)@[key]@.dom() == old(idx)@[key]@.dom().insert(pack(a, b)),
{
    let mut t = idx.remove(&key).unwrap();
    pairset_insert(&mut t, a, b);
    idx.insert(key, t);
    proof {
        assert(final(idx)@.dom() =~= old(idx)@.dom());
    }
}

/// Remove the packed pair `(a, b)` from the table at `key` of an
/// adjacency index; the other entries stay as they are.
fn index_remove_pair(idx: &mut HashMap<u64, PairTable>, key: u64, a: u64, b: u64)
    requires
        old(idx)@.contains_key(key),
    ensures
        final(idx)@.dom() == old(idx)@.dom(),
        forall|m: u64|
            old(idx)@.contains_key(m) && m != key ==> #[trigger] final(idx)@[m] == old(idx)@[m],
        final(idx)@[key]@.dom() == old(idx)@[key]@.dom().remove(pack(a, b)),
{
    let mut t = idx.remove(&key).unwrap();
    pairset_remove(&mut t, a, b);
    idx.insert(key, t);
    proof {
        assert(final(idx)@.dom() =~= old(idx)@.dom());
    }
}

/// All entries of a table keyed by ids, as (key, value reference) pairs,
/// in no particular order and with each key listed once.
fn map_entries<V>(m: &HashMap<u64, V>) -> (v: Vec<(u64, &V)>)
    ensures
        v@.len() == m@.dom().len(),
        forall|i: int|
            0 <= i < v@.len() ==> m@.contains_key(#[trigger] v@[i].0) && *v@[i].1 == m@[v@[i].0],
        forall|i: int, j: int| 0 <= i < j < v@.len() ==> v@[i].0 != v@[j].0,
{
    let mut v: Vec<(u64, &V)> = Vec::new();
    proof {
        let entries0 = vstd::std_specs::hash::spec_hash_map_iter(m).remaining();
        assert(m@.kv_pairs().finite() && m@.kv_pairs().len() == m@.dom().len()) by {
            let f = |k: u64| (k, m@[k]);
            assert forall|p: (u64, V)| #[trigger] m@.kv_pairs().contains(p) implies m@.dom().map(
                f,
            ).contains(p) by {
                assert(m@.dom().contains(p.0) && f(p.0) == p);
            }
            assert(m@.dom().map(f) =~= m@.kv_pairs());
            assert(vstd::relations::injective_on(f, m@.dom()));
            vstd::set_lib::lemma_map_size(m@.dom(), m@.kv_pairs(), f);
        }
        entries0.unref().lemma_no_dup_set_cardinality();
        assert forall|i: int, j: int|
            0 <= i < j < entries0.len() implies *entries0[i].0 != *entries0[j].0 by {
            assert(entries0.unref()[i] != entries0.unref()[j]);
            assert(m@[*entries0[i].0] == *entries0[i].1 && m@[*entries0[j].0] == *entries0[j].1);
        }
    }
    for p in it: m.iter()
        invariant
            v@.len() == it.index(),
            forall|j: int|
                0 <= j < v@.len() ==> #[trigger] v@[j] == (*it.seq()[j].0, it.seq()[j].1),
            forall|j: int|
                0 <= j < v@.len() ==> m@.contains_key(#[trigger] v@[j].0) && *v@[j].1
                    == m@[v@[j].0],
            forall|i: int, j: int| 0 <= i < j < v@.len() ==> v@[i].0 != v@[j].0,
            it.seq().len() == m@.dom().len(),
            forall|j: int|
                0 <= j < it.seq().len() ==> m@.contains_key(*(#[trigger] it.seq()[j]).0)
                    && m@[*it.seq()[j].0] == *it.seq()[j].1,
            forall|i: int, j: int| 0 <= i < j < it.seq().len() ==> *it.seq()[i].0 != *it.seq()[j].0,
    {
        v.push((*p.0, p.1));
    }
    v
}

/// Does the prefix of length `i` of `l` hold an edge that reads `(s, d)`?
spec fn edge_seq_hit(l: Seq<Edge>, i: int, s: u64, d: u64) -> bool {
    exists|j: int| 0 <= j < i && (#[trigger] l[j])@ == (s, d)
}

/// Extending the prefix by one element extends the hits by that element.
proof fn lemma_edge_seq_hit_step(l: Seq<Edge>, i: int, s: u64, d: u64)
    requires
        0 <= i < l.len(),
    ensures
        edge_seq_hit(l, i + 1, s, d) <==> (edge_seq_hit(l, i, s, d) || l[i]@ == (s, d)),
{
    if edge_seq_hit(l, i + 1, s, d) {
        let j = choose|j: int| 0 <= j < i + 1 && (#[trigger] l[j])@ == (s, d);
        if j < i {
            assert(edge_seq_hit(l, i, s, d));
        }
    }
}

/// Does the prefix of length `i` of `l` hold the packed pair `c`?
spec fn packed_hit(l: Seq<u128>, i: int, c: u128) -> bool {
    exists|j: int| 0 <= j < i && l[j] == c
}

/// Extending the prefix by one element extends the hits by that element.
proof fn lemma_packed_hit_step(l: Seq<u128>, i: int, c: u128)
    requires
        0 <= i < l.len(),
    ensures
        packed_hit(l, i + 1, c) <==> (packed_hit(l, i, c) || l[i] == c),
{
    if packed_hit(l, i + 1, c) {
        let j = choose|j: int| 0 <= j < i + 1 && l[j] == c;
        if j < i {
            assert(packed_hit(l, i, c));
        }
    }
}

/// An in-memory, directed, multi-relation graph: a node table, a relation
/// table (each relation holding its own edge set), and two adjacency
/// indices that are kept in agreement with the edge sets so that degree
/// queries are answered in constant time.
pub struct Graph {
    node_info: HashMap<u64, AnyNodeInfo>,
    /// Forward index: node id to the set of (destination, relation) pairs
    /// of its out-edges, packed.
    fwd: HashMap<u64, PairTable>,
    /// Backward index: node id to the set of (source, relation) pairs of
    /// its in-edges, packed.
    bwd: HashMap<u64, PairTable>,
    relations: HashMap<u64, Relation>,
    node_id_generator: IdGenerator,
    relation_id_generator: IdGenerator,
}

impl View for Graph {
    type V = GraphView;

    closed spec fn view(&self) -> GraphView {
        GraphView { nodes: self.node_info@, rels: self.relations@.map_values(|r: Relation| r@) }
    }
}

impl Default for Graph {
    /// An empty `Graph`, as `Graph::new` builds it.
    fn default() -> (r: Graph)
        ensures
            r.wf(),
            r@ == GraphView::empty(),
            r.next_node_id() == 1,
            r.next_relation_id() == 1,
    {
        Graph::new()
    }
}

impl Graph {
    /// Every pair recorded in the forward index is an edge of the
    /// corresponding relation.
    spec fn fwd_sound(&self) -> bool {
        forall|m: u64, c: u128|
            self.fwd@.contains_key(m) && #[trigger] self.fwd@[m]@.dom().contains(c)
                ==> self@.edge_in(m, hi(c), lo(c))
    }

    /// Every pair recorded in the backward index is an edge of the
    /// corresponding relation.
    spec fn bwd_sound(&self) -> bool {
        forall|m: u64, c: u128|
            self.bwd@.contains_key(m) && #[trigger] self.bwd@[m]@.dom().contains(c)
                ==> self@.edge_in(hi(c), m, lo(c))
    }

    /// Every edge of every relation connects present nodes and is
    /// recorded in both adjacency indices.
    spec fn edges_recorded(&self) -> bool {
        forall|s: u64, d: u64, r: u64|
            #[trigger] self@.edge_in(s, d, r) ==> {
                &&& self.node_info@.contains_key(s)
                &&& self.node_info@.contains_key(d)
                &&& self.fwd@[s]@.dom().contains(pack(d, r))
                &&& self.bwd@[d]@.dom().contains(pack(s, r))
            }
    }

    /// Exactly the nodes of the node table have index entries.
    spec fn doms_ok(&self) -> bool {
        &&& self.fwd@.dom() == self.node_info@.dom()
        &&& self.bwd@.dom() == self.node_info@.dom()
    }

    /// Identifiers in use are below the allocators' next values, and
    /// relation ids are non-zero (0 is the reserved invalid sentinel).
    spec fn ids_ok(&self) -> bool {
        &&& 1 <= self.node_id_generator.next_id()
        &&& 1 <= self.relation_id_generator.next_id()
        &&& forall|m: u64|
            #[trigger] self.node_info@.contains_key(m) ==> 1 <= m < self.node_id_generator.next_id()
        &&& forall|r: u64|
            #[trigger] self.relations@.contains_key(r) ==> 1 <= r
                < self.relation_id_generator.next_id()
    }

    /// Well-formedness of the graph: the adjacency indices agree exactly
    /// with the relations' edge sets, every node of the node table has its
    /// forward and backward index entry and no other node has one, every
    /// edge references present nodes, and identifiers already in use lie
    /// below the allocators' next values. Every constructor establishes
    /// this and every operation preserves it.
    pub closed spec fn wf(&self) -> bool {
        &&& self.doms_ok()
        &&& self.ids_ok()
        &&& self.fwd_sound()
        &&& self.bwd_sound()
        &&& self.edges_recorded()
    }

    /// The node id the next `add_node` will assign.
    pub closed spec fn next_node_id(&self) -> u64 {
        self.node_id_generator.next_id()
    }

    /// The relation id the next `add_relation` will assign.
    pub closed spec fn next_relation_id(&self) -> u64 {
        self.relation_id_generator.next_id()
    }

    /// A well-formed graph has a finite model whose edges reference only
    /// present nodes.
    pub proof fn lemma_view_wf(&self)
        requires
            self.wf(),
        ensures
            self@.is_finite(),
            self@.edges_closed(),
    {
        assert(self@.nodes.dom().finite());
        assert(self@.rels.dom() =~= self.relations@.dom());
        assert(self.relations@.dom().finite());
        assert forall|r: u64| #[trigger] self@.rels.contains_key(r) implies self@.rels[r]
            .edges.finite() by {
            crate::relation::lemma_relation_edges_finite(&self.relations@[r]);
        }
        assert forall|s: u64, d: u64, r: u64| #[trigger] self@.edge_in(s, d, r) implies self@
            .has_node(s) && self@.has_node(d) by {}
    }

    /// Create an empty `Graph`.
    pub fn new() -> (r: Graph)
        ensures
            r.wf(),
            r@ == GraphView::empty(),
            r.next_node_id() == 1,
            r.next_relation_id() == 1,
    {
        let r = Graph {
            node_info: HashMap::new(),
            fwd: HashMap::new(),
            bwd: HashMap::new(),
            relations: HashMap::new(),
            node_id_generator: IdGenerator::default(),
            relation_id_generator: IdGenerator::default(),
        };
        proof {
            assert(r@.nodes =~= GraphView::empty().nodes);
            assert(r@.rels =~= GraphView::empty().rels);
            assert(r@ =~= GraphView::empty());
            assert(r.fwd@.dom() =~= r.node_info@.dom());
            assert(r.bwd@.dom() =~= r.node_info@.dom());
        }
        r
    }

    fn generate_node_id(&mut self) -> (id: NodeId)
        requires
            old(self).node_id_generator.next_id() < u64::MAX,
        ensures
            id@ == old(self).node_id_generator.next_id(),
            final(self).node_id_generator.next_id() == id@ + 1,
            final(self).node_info == old(self).node_info,
            final(self).fwd == old(self).fwd,
            final(self).bwd == old(self).bwd,
            final(self).relations == old(self).relations,
            final(self).relation_id_generator == old(self).relation_id_generator,
    {
        NodeId::new(self.node_id_generator.generate_id_sync())
    }

    fn generate_relation_id(&mut self) -> (id: RelationId)
        requires
            old(self).relation_id_generator.next_id() < u64::MAX,
            old(self).relation_id_generator.next_id() >= 1,
        ensures
            id@ == old(self).relation_id_generator.next_id(),
            final(self).relation_id_generator.next_id() == id@ + 1,
            final(self).node_info == old(self).node_info,
            final(self).fwd == old(self).fwd,
            final(self).bwd == old(self).bwd,
            final(self).relations == old(self).relations,
            final(self).node_id_generator == old(self).node_id_generator,
    {
        RelationId::new(self.relation_id_generator.generate_id_sync())
    }

    /// Create a node in the graph with `info` and return its `NodeId`.
    /// Always succeeds; the id is fresh and its adjacency entries start
    /// empty.
    pub fn add_node<I: NodeInfo>(&mut self, info: I) -> (id: NodeId)
        requires
            old(self).wf(),
            old(self).next_node_id() < u64::MAX,
        ensures
            final(self).wf(),
            id@ == old(self).next_node_id(),
            !old(self)@.has_node(id@),
            final(self)@ == old(self)@.with_node(id@, info.node_info_view()),
            final(self).next_node_id() == old(self).next_node_id() + 1,
            final(self).next_relation_id() == old(self).next_relation_id(),
    {
        let id = self.generate_node_id();
        let n = id.get();
        self.fwd.insert(n, pairset_new());
        self.bwd.insert(n, pairset_new());
        self.node_info.insert(n, info.into_node_info());
        proof {
            let post = *self;
            let pre = *old(self);
            assert(post@.rels =~= pre@.rels);
            assert(post@ =~= pre@.with_node(n, info.node_info_view()));
            assert(post.fwd@.dom() =~= post.node_info@.dom());
            assert(post.bwd@.dom() =~= post.node_info@.dom());
            assert forall|m: u64, c: u128|
                post.fwd@.contains_key(m) && #[trigger] post.fwd@[m]@.dom().contains(c)
                    implies post@.edge_in(m, hi(c), lo(c)) by {
                if m == n {
                    assert(post.fwd@[m]@.dom() == Set::<u128>::empty());
                } else {
                    assert(pre.fwd@[m]@.dom().contains(c));
                    assert(pre@.edge_in(m, hi(c), lo(c)));
                }
            }
            assert forall|m: u64, c: u128|
                post.bwd@.contains_key(m) && #[trigger] post.bwd@[m]@.dom().contains(c)
                    implies post@.edge_in(hi(c), m, lo(c)) by {
                if m == n {
                    assert(post.bwd@[m]@.dom() == Set::<u128>::empty());
                } else {
                    assert(pre.bwd@[m]@.dom().contains(c));
                    assert(pre@.edge_in(hi(c), m, lo(c)));
                }
            }
            assert forall|s: u64, d: u64, r: u64| #[trigger] post@.edge_in(s, d, r) implies {
                &&& post.node_info@.contains_key(s)
                &&& post.node_info@.contains_key(d)
                &&& post.fwd@[s]@.dom().contains(pack(d, r))
                &&& post.bwd@[d]@.dom().contains(pack(s, r))
            } by {
                assert(pre@.edge_in(s, d, r));
                assert(s != n && d != n);
            }
        }
        id
    }

    /// Create a relation in the graph with `info` and return its
    /// `RelationId`. Always succeeds; the id is fresh and non-zero, and
    /// the relation's edge set starts empty.
    pub fn add_relation<I: RelationInfo>(&mut self, info: I) -> (id: RelationId)
        requires
            old(self).wf(),
            old(self).next_relation_id() < u64::MAX,
        ensures
            final(self).wf(),
            id@ == old(self).next_relation_id(),
            id@ != 0,
            !old(self)@.has_relation(id@),
            final(self)@ == old(self)@.with_relation(id@, info.relation_info_view()),
            final(self).next_relation_id() == old(self).next_relation_id() + 1,
            final(self).next_node_id() == old(self).next_node_id(),
    {
        let id = self.generate_relation_id();
        let rid = id.get();
        self.relations.insert(rid, Relation::new(info));
        proof {
            let post = *self;
            let pre = *old(self);
            assert(post@.nodes =~= pre@.nodes);
            assert(post@.rels =~= pre@.rels.insert(
                rid,
                RelView { info: info.relation_info_view(), edges: Set::empty() },
            ));
            assert(post@ =~= pre@.with_relation(rid, info.relation_info_view()));
            assert forall|s: u64, d: u64, r: u64| #[trigger] post@.edge_in(s, d, r)
                implies pre@.edge_in(s, d, r) by {
                if r == rid {
                    assert(post@.rels[r].edges == Set::<(u64, u64)>::empty());
                }
            }
            assert forall|m: u64, c: u128|
                post.fwd@.contains_key(m) && #[trigger] post.fwd@[m]@.dom().contains(c)
                    implies post@.edge_in(m, hi(c), lo(c)) by {
                assert(pre@.edge_in(m, hi(c), lo(c)));
                assert(lo(c) != rid);
            }
            assert forall|m: u64, c: u128|
                post.bwd@.contains_key(m) && #[trigger] post.bwd@[m]@.dom().contains(c)
                    implies post@.edge_in(hi(c), m, lo(c)) by {
                assert(pre@.edge_in(hi(c), m, lo(c)));
                assert(lo(c) != rid);
            }
            assert forall|s: u64, d: u64, r: u64| #[trigger] post@.edge_in(s, d, r) implies {
                &&& post.node_info@.contains_key(s)
                &&& post.node_info@.contains_key(d)
                &&& post.fwd@[s]@.dom().contains(pack(d, r))
                &&& post.bwd@[d]@.dom().contains(pack(s, r))
            } by {
                assert(pre@.edge_in(s, d, r));
            }
        }
        id
    }

    /// Connect two nodes in the graph with a relation: insert the edge
    /// `(src, dst)` into the relation's edge set and record it in both
    /// adjacency indices. Source, destination and relation are validated
    /// independently, each with its own error variant; on success the
    /// result says whether the edge was newly added (`true`) or already
    /// present (`false`). Self-loops are valid.
    #[verifier::rlimit(30)]
    pub fn connect(&mut self, src: NodeId, dst: NodeId, relation_id: RelationId) -> (r: Result<
        bool,
        ConnectError,
    >)
        requires
            old(self).wf(),
        ensures
            final(self).wf(),
            final(self).next_node_id() == old(self).next_node_id(),
            final(self).next_relation_id() == old(self).next_relation_id(),
            match r {
                Ok(newly) => {
                    &&& old(self)@.has_node(src@)
                    &&& old(self)@.has_node(dst@)
                    &&& old(self)@.has_relation(relation_id@)
                    &&& newly == !old(self)@.edge_in(src@, dst@, relation_id@)
                    &&& final(self)@ == old(self)@.with_edge(src@, dst@, relation_id@)
                },
                Err(e) => {
                    &&& *final(self) == *old(self)
                    &&& (e == ConnectError::InvalidSrcNodeId <==> !old(self)@.has_node(src@))
                    &&& (e == ConnectError::InvalidDstNodeId <==> old(self)@.has_node(src@)
                        && !old(self)@.has_node(dst@))
                    &&& (e == ConnectError::InvalidRelationId <==> old(self)@.has_node(src@)
                        && old(self)@.has_node(dst@) && !old(self)@.has_relation(relation_id@))
                },
            },
    {
        let s = src.get();
        let d = dst.get();
        let rid = relation_id.get();
        if !self.node_info.contains_key(&s) {
            return Err(ConnectError::InvalidSrcNodeId);
        }
        if !self.node_info.contains_key(&d) {
            return Err(ConnectError::InvalidDstNodeId);
        }
        if !self.relations.contains_key(&rid) {
            return Err(ConnectError::InvalidRelationId);
        }
        let mut rel = self.relations.remove(&rid).unwrap();
        let newly = rel.insert_edge(Edge::new(src, dst));
        self.relations.insert(rid, rel);
        index_insert_pair(&mut self.fwd, s, d, rid);
        index_insert_pair(&mut self.bwd, d, s, rid);
        proof {
            let pre = *old(self);
            let post = *self;
            assert(post.relations@ =~= pre.relations@.insert(rid, post.relations@[rid]));
            assert(post@.rels =~~= pre@.rels.insert(
                rid,
                RelView {
                    info: pre@.rels[rid].info,
                    edges: pre@.rels[rid].edges.insert((s, d)),
                },
            ));
            assert(post@ =~= pre@.with_edge(s, d, rid));
            lemma_unpack_pack(d, rid);
            lemma_unpack_pack(s, rid);
            assert forall|x: u64, y: u64, z: u64| #[trigger] post@.edge_in(x, y, z)
                implies pre@.edge_in(x, y, z) || (x == s && y == d && z == rid) by {}
            assert forall|m: u64, c: u128|
                post.fwd@.contains_key(m) && #[trigger] post.fwd@[m]@.dom().contains(c)
                    implies post@.edge_in(m, hi(c), lo(c)) by {
                if m == s && c == pack(d, rid) {
                } else {
                    assert(pre.fwd@[m]@.dom().contains(c));
                    assert(pre@.edge_in(m, hi(c), lo(c)));
                }
            }
            assert forall|m: u64, c: u128|
                post.bwd@.contains_key(m) && #[trigger] post.bwd@[m]@.dom().contains(c)
                    implies post@.edge_in(hi(c), m, lo(c)) by {
                if m == d && c == pack(s, rid) {
                } else {
                    assert(pre.bwd@[m]@.dom().contains(c));
                    assert(pre@.edge_in(hi(c), m, lo(c)));
                }
            }
            assert forall|x: u64, y: u64, z: u64| #[trigger] post@.edge_in(x, y, z) implies {
                &&& post.node_info@.contains_key(x)
                &&& post.node_info@.contains_key(y)
                &&& post.fwd@[x]@.dom().contains(pack(y, z))
                &&& post.bwd@[y]@.dom().contains(pack(x, z))
            } by {
                if x == s && y == d && z == rid {
                } else {
                    assert(pre@.edge_in(x, y, z));
                }
            }
        }
        Ok(newly)
    }

    /// Disconnect a relation between two nodes: remove the edge
    /// `(src, dst)` from the relation's edge set and from both adjacency
    /// indices. The same three validations as `connect`, with the same
    /// error variants; on success the result says whether anything was
    /// actually removed. Disconnecting a non-existent edge is a valid,
    /// observable no-op, not an error.
    #[verifier::rlimit(80)]
    #[verifier::spinoff_prover]
    pub fn disconnect(&mut self, src: NodeId, dst: NodeId, relation_id: RelationId) -> (r: Result<
        bool,
        ConnectError,
    >)
        requires
            old(self).wf(),
        ensures
            final(self).wf(),
            final(self).next_node_id() == old(self).next_node_id(),
            final(self).next_relation_id() == old(self).next_relation_id(),
            match r {
                Ok(was) => {
                    &&& old(self)@.has_node(src@)
                    &&& old(self)@.has_node(dst@)
                    &&& old(self)@.has_relation(relation_id@)
                    &&& was == old(self)@.edge_in(src@, dst@, relation_id@)
                    &&& final(self)@ == old(self)@.without_edge(src@, dst@, relation_id@)
                },
                Err(e) => {
                    &&& *final(self) == *old(self)
                    &&& (e == ConnectError::InvalidSrcNodeId <==> !old(self)@.has_node(src@))
                    &&& (e == ConnectError::InvalidDstNodeId <==> old(self)@.has_node(src@)
                        && !old(self)@.has_node(dst@))
                    &&& (e == ConnectError::InvalidRelationId <==> old(self)@.has_node(src@)
                        && old(self)@.has_node(dst@) && !old(self)@.has_relation(relation_id@))
                },
            },
    {
        let s = src.get();
        let d = dst.get();
        let rid = relation_id.get();
        if !self.node_info.contains_key(&s) {
            return Err(ConnectError::InvalidSrcNodeId);
        }
        if !self.node_info.contains_key(&d) {
            return Err(ConnectError::InvalidDstNodeId);
        }
        if !self.relations.contains_key(&rid) {
            return Err(ConnectError::InvalidRelationId);
        }
        let mut rel = self.relations.remove(&rid).unwrap();
        let was = rel.remove_edge(&Edge::new(src, dst));
        self.relations.insert(rid, rel);
        index_remove_pair(&mut self.fwd, s, d, rid);
        index_remove_pair(&mut self.bwd, d, s, rid);
        proof {
            let pre = *old(self);
            let post = *self;
            assert(post.relations@ =~= pre.relations@.insert(rid, post.relations@[rid]));
            assert(post@.rels =~~= pre@.rels.insert(
                rid,
                RelView {
                    info: pre@.rels[rid].info,
                    edges: pre@.rels[rid].edges.remove((s, d)),
                },
            ));
            assert(post@ =~= pre@.without_edge(s, d, rid));
            lemma_unpack_pack(d, rid);
            lemma_unpack_pack(s, rid);
            assert forall|x: u64, y: u64, z: u64| #[trigger] post@.edge_in(x, y, z)
                implies pre@.edge_in(x, y, z) && !(x == s && y == d && z == rid) by {}
            assert forall|m: u64, c: u128|
                post.fwd@.contains_key(m) && #[trigger] post.fwd@[m]@.dom().contains(c)
                    implies post@.edge_in(m, hi(c), lo(c)) by {
                assert(pre.fwd@[m]@.dom().contains(c));
                assert(pre@.edge_in(m, hi(c), lo(c)));
                if m == s && hi(c) == d && lo(c) == rid {
                    lemma_pack_unpack(c);
                    assert(c == pack(d, rid));
                    assert(false);
                }
            }
            assert forall|m: u64, c: u128|
                post.bwd@.contains_key(m) && #[trigger] post.bwd@[m]@.dom().contains(c)
                    implies post@.edge_in(hi(c), m, lo(c)) by {
                assert(pre.bwd@[m]@.dom().contains(c));
                assert(pre@.edge_in(hi(c), m, lo(c)));
                if m == d && hi(c) == s && lo(c) == rid {
                    lemma_pack_unpack(c);
                    assert(c == pack(s, rid));
                    assert(false);
                }
            }
            assert forall|x: u64, y: u64, z: u64| #[trigger] post@.edge_in(x, y, z) implies {
                &&& post.node_info@.contains_key(x)
                &&& post.node_info@.contains_key(y)
                &&& post.fwd@[x]@.dom().contains(pack(y, z))
                &&& post.bwd@[y]@.dom().contains(pack(x, z))
            } by {
                assert(pre@.edge_in(x, y, z));
                assert(!(x == s && y == d && z == rid));
                if x == s {
                    lemma_unpack_pack(y, z);
                    assert(pack(y, z) != pack(d, rid));
                }
                if y == d {
                    lemma_unpack_pack(x, z);
                    assert(pack(x, z) != pack(s, rid));
                }
            }
        }
        Ok(was)
    }

    /// Detach one edge whose endpoints and relation are known to exist:
    /// `disconnect`, with the result expressed edge by edge. The cascading
    /// deletes below are loops around this.
    fn detach_edge(&mut self, src: NodeId, dst: NodeId, relation_id: RelationId)
        requires
            old(self).wf(),
            old(self)@.has_node(src@),
            old(self)@.has_node(dst@),
            old(self)@.has_relation(relation_id@),
        ensures
            final(self).wf(),
            final(self)@.nodes == old(self)@.nodes,
            final(self)@.rels.dom() == old(self)@.rels.dom(),
            forall|x: u64|
                #[trigger] old(self)@.rels.contains_key(x) ==> final(self)@.rels[x].info == old(
                    self,
                )@.rels[x].info,
            forall|x: u64, y: u64, z: u64|
                #[trigger] final(self)@.edge_in(x, y, z) <==> (old(self)@.edge_in(x, y, z) && !(x
                    == src@ && y == dst@ && z == relation_id@)),
            final(self).next_node_id() == old(self).next_node_id(),
            final(self).next_relation_id() == old(self).next_relation_id(),
    {
        let res = self.disconnect(src, dst, relation_id);
        proof {
            if res is Err {
                let e2 = res->Err_0;
                assert(e2 == ConnectError::InvalidSrcNodeId || e2 == ConnectError::InvalidDstNodeId
                    || e2 == ConnectError::InvalidRelationId);
                assert(false);
            }
            lemma_without_edge_facts(old(self)@, src@, dst@, relation_id@);
        }
    }

    /// Remove the relation at `relation_id` and return its info, or
    /// `None` (a no-op) if the id is unknown. Every edge in the
    /// relation's edge set vanishes from both adjacency indices before
    /// the relation's table entry is dropped. Idempotent: a second call
    /// on the same id returns `None`.
    #[verifier::rlimit(50)]
    pub fn remove_relation(&mut self, relation_id: RelationId) -> (r: Option<AnyRelationInfo>)
        requires
            old(self).wf(),
        ensures
            final(self).wf(),
            final(self).next_node_id() == old(self).next_node_id(),
            final(self).next_relation_id() == old(self).next_relation_id(),
            match r {
                Some(info) => {
                    &&& old(self)@.has_relation(relation_id@)
                    &&& info == old(self)@.rels[relation_id@].info
                    &&& final(self)@ == old(self)@.without_relation(relation_id@)
                },
                None => !old(self)@.has_relation(relation_id@) && *final(self) == *old(self),
            },
    {
        let ghost pre = *old(self);
        let rid = relation_id.get();
        let edges = match self.relations.get(&rid) {
            Some(rel) => rel.iter_edges(),
            None => {
                return None;
            },
        };
        proof {
            pre.lemma_view_wf();
        }
        let n_edges = edges.len();
        let mut i: usize = 0;
        while i < n_edges
            invariant
                self.wf(),
                pre@.edges_closed(),
                i <= n_edges == edges@.len(),
                rid == relation_id@,
                pre@.has_relation(rid),
                self@.nodes == pre@.nodes,
                self@.rels.dom() == pre@.rels.dom(),
                forall|x: u64|
                    #[trigger] pre@.rels.contains_key(x) ==> self@.rels[x].info
                        == pre@.rels[x].info,
                forall|x: u64, y: u64, z: u64|
                    #[trigger] self@.edge_in(x, y, z) <==> (pre@.edge_in(x, y, z) && !(z == rid
                        && edge_seq_hit(edges@, i as int, x, y))),
                forall|j: int|
                    0 <= j < edges@.len() ==> pre@.rels[rid].edges.contains(
                        (#[trigger] edges@[j])@,
                    ),
                forall|p: (u64, u64)|
                    pre@.rels[rid].edges.contains(p) ==> edge_seq_hit(
                        edges@,
                        edges@.len() as int,
                        p.0,
                        p.1,
                    ),
                self.next_node_id() == pre.next_node_id(),
                self.next_relation_id() == pre.next_relation_id(),
            decreases n_edges - i,
        {
            let e = edges[i];
            proof {
                assert(pre@.rels[rid].edges.contains(edges@[i as int]@));
                assert(pre@.edge_in(e@.0, e@.1, rid));
                assert(self@.has_node(e@.0) && self@.has_node(e@.1) && self@.has_relation(rid));
            }
            self.detach_edge(e.src(), e.dst(), relation_id);
            proof {
                assert forall|x: u64, y: u64, z: u64| #[trigger] self@.edge_in(x, y, z)
                    <==> (pre@.edge_in(x, y, z) && !(z == rid && edge_seq_hit(
                    edges@,
                    i + 1,
                    x,
                    y,
                ))) by {
                    lemma_edge_seq_hit_step(edges@, i as int, x, y);
                }
            }
            i = i + 1;
        }
        let ghost mid = *self;
        let rel = match self.relations.remove(&rid) {
            Some(rel) => rel,
            None => {
                proof {
                    assert(false);
                }
                return None;
            },
        };
        proof {
            let post = *self;
            // the loop removed every edge of the relation
            assert forall|x: u64, y: u64| !mid@.edge_in(x, y, rid) by {
                if pre@.edge_in(x, y, rid) {
                    assert(pre@.rels[rid].edges.contains((x, y)));
                    assert(edge_seq_hit(edges@, edges@.len() as int, x, y));
                }
            }
            assert(post.relations@ == mid.relations@.remove(rid));
            assert(post@.rels =~~= mid@.rels.remove(rid));
            // the final model is the pre model without the relation
            assert(post@.rels.dom() =~= pre@.rels.dom().remove(rid));
            assert forall|x: u64| #[trigger] post@.rels.contains_key(x) implies post@.rels[x]
                == pre@.rels[x] by {
                assert(x != rid);
                assert forall|p: (u64, u64)| #![all_triggers]
                    post@.rels[x].edges.contains(p) <==> pre@.rels[x].edges.contains(p) by {
                    assert(mid@.edge_in(p.0, p.1, x) <==> (pre@.edge_in(p.0, p.1, x) && !(x == rid
                        && edge_seq_hit(edges@, edges@.len() as int, p.0, p.1))));
                }
                assert(post@.rels[x].edges =~= pre@.rels[x].edges);
                assert(post@.rels[x] =~= pre@.rels[x]);
            }
            assert(post@.rels =~= pre@.without_relation(rid).rels);
            assert(post@ =~= pre@.without_relation(rid));
            // well-formedness survives dropping the emptied relation
            assert forall|m: u64, c: u128|
                post.fwd@.contains_key(m) && #[trigger] post.fwd@[m]@.dom().contains(c)
                    implies post@.edge_in(m, hi(c), lo(c)) by {
                assert(mid@.edge_in(m, hi(c), lo(c)));
                assert(lo(c) != rid);
            }
            assert forall|m: u64, c: u128|
                post.bwd@.contains_key(m) && #[trigger] post.bwd@[m]@.dom().contains(c)
                    implies post@.edge_in(hi(c), m, lo(c)) by {
                assert(mid@.edge_in(hi(c), m, lo(c)));
                assert(lo(c) != rid);
            }
            assert forall|x: u64, y: u64, z: u64| #[trigger] post@.edge_in(x, y, z) implies {
                &&& post.node_info@.contains_key(x)
                &&& post.node_info@.contains_key(y)
                &&& post.fwd@[x]@.dom().contains(pack(y, z))
                &&& post.bwd@[y]@.dom().contains(pack(x, z))
            } by {
                assert(mid@.edge_in(x, y, z));
            }
            assert(rel@.info == pre@.rels[rid].info);
        }
        Some(rel.into_info())
    }

    /// Remove the node at `node_id` and return its info, or `None` (a
    /// no-op) if the id is unknown. This is a cascading delete: every
    /// edge into or out of the node is removed from every implicated
    /// relation's edge set and from the other endpoint's adjacency
    /// entries, and only then are the node's own entries dropped.
    /// Idempotent: a second call on the same id returns `None`.
    #[verifier::rlimit(100)]
    pub fn remove_node(&mut self, node_id: NodeId) -> (r: Option<AnyNodeInfo>)
        requires
            old(self).wf(),
        ensures
            final(self).wf(),
            final(self).next_node_id() == old(self).next_node_id(),
            final(self).next_relation_id() == old(self).next_relation_id(),
            match r {
                Some(info) => {
                    &&& old(self)@.has_node(node_id@)
                    &&& info == old(self)@.nodes[node_id@]
                    &&& final(self)@ == old(self)@.without_node(node_id@)
                },
                None => !old(self)@.has_node(node_id@) && *final(self) == *old(self),
            },
    {
        let ghost pre = *old(self);
        let n = node_id.get();
        if !self.node_info.contains_key(&n) {
            return None;
        }
        // First pass: detach every in-edge, walking the backward index.
        let in_list = match self.bwd.get(&n) {
            Some(t) => pairset_elems(t),
            None => {
                proof {
                    assert(false);
                }
                return None;
            },
        };
        proof {
            assert forall|j: int| 0 <= j < in_list@.len() implies pre@.edge_in(
                hi(#[trigger] in_list@[j]),
                n,
                lo(in_list@[j]),
            ) by {
                assert(in_list@.to_set().contains(in_list@[j]));
                assert(pre.bwd@[n]@.dom().contains(in_list@[j]));
            }
            assert forall|x: u64, z: u64| pre@.edge_in(x, n, z) implies packed_hit(
                in_list@,
                in_list@.len() as int,
                pack(x, z),
            ) by {
                assert(pre.bwd@[n]@.dom().contains(pack(x, z)));
                assert(in_list@.to_set().contains(pack(x, z)));
                let j = choose|j: int| 0 <= j < in_list@.len() && in_list@[j] == pack(x, z);
                assert(packed_hit(in_list@, in_list@.len() as int, pack(x, z)));
            }
        }
        proof {
            pre.lemma_view_wf();
            assert forall|r: u64| #[trigger] pre@.rels.contains_key(r) implies 1 <= r by {
                assert(pre.relations@.contains_key(r));
            }
        }
        let n_in = in_list.len();
        let mut i: usize = 0;
        while i < n_in
            invariant
                self.wf(),
                pre@.edges_closed(),
                forall|r: u64| #[trigger] pre@.rels.contains_key(r) ==> 1 <= r,
                i <= n_in == in_list@.len(),
                n == node_id@,
                pre@.has_node(n),
                self@.nodes == pre@.nodes,
                self@.rels.dom() == pre@.rels.dom(),
                forall|x: u64|
                    #[trigger] pre@.rels.contains_key(x) ==> self@.rels[x].info
                        == pre@.rels[x].info,
                forall|x: u64, y: u64, z: u64|
                    #[trigger] self@.edge_in(x, y, z) <==> (pre@.edge_in(x, y, z) && !(y == n
                        && packed_hit(in_list@, i as int, pack(x, z)))),
                forall|j: int|
                    0 <= j < in_list@.len() ==> pre@.edge_in(
                        hi(#[trigger] in_list@[j]),
                        n,
                        lo(in_list@[j]),
                    ),
                forall|x: u64, z: u64|
                    pre@.edge_in(x, n, z) ==> packed_hit(in_list@, in_list@.len() as int, pack(x, z)),
                self.next_node_id() == pre.next_node_id(),
                self.next_relation_id() == pre.next_relation_id(),
            decreases n_in - i,
        {
            let c = in_list[i];
            let s = hi_of(c);
            let rid = lo_of(c);
            proof {
                lemma_pack_unpack(c);
                assert(pre@.edge_in(s, n, rid));
                assert(self@.has_node(s) && self@.has_node(n) && self@.has_relation(rid));
                assert(rid >= 1);
            }
            self.detach_edge(NodeId::new(s), node_id, RelationId::new(rid));
            proof {
                assert forall|x: u64, y: u64, z: u64| #[trigger] self@.edge_in(x, y, z)
                    <==> (pre@.edge_in(x, y, z) && !(y == n && packed_hit(
                    in_list@,
                    i + 1,
                    pack(x, z),
                ))) by {
                    lemma_packed_hit_step(in_list@, i as int, pack(x, z));
                    lemma_unpack_pack(x, z);
                }
            }
            i = i + 1;
        }
        // Second pass: detach every remaining out-edge, walking the
        // forward index. Self-loops were already removed by the first
        // pass.
        let out_list = match self.fwd.get(&n) {
            Some(t) => pairset_elems(t),
            None => {
                proof {
                    assert(false);
                }
                return None;
            },
        };
        let ghost mid = *self;
        proof {
            assert forall|j: int| 0 <= j < out_list@.len() implies {
                &&& pre@.edge_in(n, hi(#[trigger] out_list@[j]), lo(out_list@[j]))
                &&& hi(out_list@[j]) != n
            } by {
                assert(out_list@.to_set().contains(out_list@[j]));
                assert(mid.fwd@[n]@.dom().contains(out_list@[j]));
                assert(mid@.edge_in(n, hi(out_list@[j]), lo(out_list@[j])));
            }
            assert forall|y: u64, z: u64| pre@.edge_in(n, y, z) && y != n implies packed_hit(
                out_list@,
                out_list@.len() as int,
                pack(y, z),
            ) by {
                assert(mid@.edge_in(n, y, z));
                assert(mid.fwd@[n]@.dom().contains(pack(y, z)));
                assert(out_list@.to_set().contains(pack(y, z)));
                let j = choose|j: int| 0 <= j < out_list@.len() && out_list@[j] == pack(y, z);
                assert(packed_hit(out_list@, out_list@.len() as int, pack(y, z)));
            }
        }
        let n_out = out_list.len();
        let mut k: usize = 0;
        while k < n_out
            invariant
                self.wf(),
                pre@.edges_closed(),
                forall|r: u64| #[trigger] pre@.rels.contains_key(r) ==> 1 <= r,
                k <= n_out == out_list@.len(),
                n == node_id@,
                pre@.has_node(n),
                self@.nodes == pre@.nodes,
                self@.rels.dom() == pre@.rels.dom(),
                forall|x: u64|
                    #[trigger] pre@.rels.contains_key(x) ==> self@.rels[x].info
                        == pre@.rels[x].info,
                forall|x: u64, y: u64, z: u64|
                    #[trigger] self@.edge_in(x, y, z) <==> (pre@.edge_in(x, y, z) && y != n && !(x
                        == n && packed_hit(out_list@, k as int, pack(y, z)))),
                forall|j: int|
                    0 <= j < out_list@.len() ==> pre@.edge_in(
                        n,
                        hi(#[trigger] out_list@[j]),
                        lo(out_list@[j]),
                    ) && hi(out_list@[j]) != n,
                forall|y: u64, z: u64|
                    pre@.edge_in(n, y, z) && y != n ==> packed_hit(
                        out_list@,
                        out_list@.len() as int,
                        pack(y, z),
                    ),
                self.next_node_id() == pre.next_node_id(),
                self.next_relation_id() == pre.next_relation_id(),
            decreases n_out - k,
        {
            let c = out_list[k];
            let d = hi_of(c);
            let rid = lo_of(c);
            proof {
                lemma_pack_unpack(c);
                assert(pre@.edge_in(n, d, rid) && d != n);
                assert(self@.has_node(n) && self@.has_node(d) && self@.has_relation(rid));
                assert(rid >= 1);
            }
            self.detach_edge(node_id, NodeId::new(d), RelationId::new(rid));
            proof {
                assert forall|x: u64, y: u64, z: u64| #[trigger] self@.edge_in(x, y, z)
                    <==> (pre@.edge_in(x, y, z) && y != n && !(x == n && packed_hit(
                    out_list@,
                    k + 1,
                    pack(y, z),
                ))) by {
                    lemma_packed_hit_step(out_list@, k as int, pack(y, z));
                    lemma_unpack_pack(y, z);
                }
            }
            k = k + 1;
        }
        // No edge is incident to the node any longer; drop its entries.
        let ghost fin = *self;
        proof {
            assert forall|x: u64, y: u64, z: u64| #[trigger] fin@.edge_in(x, y, z)
                implies pre@.edge_in(x, y, z) && x != n && y != n by {}
        }
        let info = match self.node_info.remove(&n) {
            Some(info) => info,
            None => {
                proof {
                    assert(false);
                }
                return None;
            },
        };
        self.fwd.remove(&n);
        self.bwd.remove(&n);
        proof {
            let post = *self;
            assert(post.relations@ == fin.relations@);
            assert(post@.rels == fin@.rels);
            // the final model is the pre model without the node
            assert(post@.nodes =~= pre@.without_node(n).nodes);
            assert forall|x: u64| #[trigger] post@.rels.contains_key(x) implies post@.rels[x]
                == pre@.without_node(n).rels[x] by {
                assert forall|p: (u64, u64)| #![all_triggers]
                    post@.rels[x].edges.contains(p) <==> (pre@.rels[x].edges.contains(p) && p.0
                        != n && p.1 != n) by {
                    assert(fin@.edge_in(p.0, p.1, x) <==> (pre@.edge_in(p.0, p.1, x) && p.1 != n
                        && !(p.0 == n && packed_hit(out_list@, out_list@.len() as int, pack(p.1, x)))));
                    if pre@.rels[x].edges.contains(p) && p.0 == n && p.1 != n {
                        assert(pre@.edge_in(p.0, p.1, x));
                        assert(packed_hit(out_list@, out_list@.len() as int, pack(p.1, x)));
                    }
                }
                assert(post@.rels[x].edges =~= pre@.without_node(n).rels[x].edges);
                assert(post@.rels[x] =~= pre@.without_node(n).rels[x]);
            }
            assert(post@.rels.dom() =~= pre@.without_node(n).rels.dom());
            assert(post@.rels =~= pre@.without_node(n).rels);
            assert(post@ =~= pre@.without_node(n));
            // well-formedness of the final state
            assert(post.fwd@.dom() =~= post.node_info@.dom());
            assert(post.bwd@.dom() =~= post.node_info@.dom());
            assert forall|m: u64, c: u128|
                post.fwd@.contains_key(m) && #[trigger] post.fwd@[m]@.dom().contains(c)
                    implies post@.edge_in(m, hi(c), lo(c)) by {
                assert(fin.fwd@[m]@.dom().contains(c));
                assert(fin@.edge_in(m, hi(c), lo(c)));
            }
            assert forall|m: u64, c: u128|
                post.bwd@.contains_key(m) && #[trigger] post.bwd@[m]@.dom().contains(c)
                    implies post@.edge_in(hi(c), m, lo(c)) by {
                assert(fin.bwd@[m]@.dom().contains(c));
                assert(fin@.edge_in(hi(c), m, lo(c)));
            }
            assert forall|x: u64, y: u64, z: u64| #[trigger] post@.edge_in(x, y, z) implies {
                &&& post.node_info@.contains_key(x)
                &&& post.node_info@.contains_key(y)
                &&& post.fwd@[x]@.dom().contains(pack(y, z))
                &&& post.bwd@[y]@.dom().contains(pack(x, z))
            } by {
                assert(fin@.edge_in(x, y, z));
                assert(x != n && y != n);
            }
            assert(info == pre@.nodes[n]);
        }
        Some(info)
    }

    /// Get the in-degree of a node: the number of its (source node,
    /// relation) incidences, or `None` if the node is unknown. A node
    /// connected from the same neighbor under three relations has degree
    /// three from that neighbor alone.
    pub fn in_degree_of(&self, node_id: NodeId) -> (r: Option<usize>)
        requires
            self.wf(),
        ensures
            match r {
                Some(deg) => self@.has_node(node_id@) && deg == self@.in_degree(node_id@),
                None => !self@.has_node(node_id@),
            },
    {
        let n = node_id.get();
        match self.bwd.get(&n) {
            Some(t) => {
                proof {
                    self.lemma_bwd_models_in_incidences(n);
                    lemma_pairs_of_len(self.bwd@[n]@.dom());
                }
                Some(pairset_len(t))
            },
            None => None,
        }
    }

    /// Get the out-degree of a node: the number of its (destination node,
    /// relation) incidences, or `None` if the node is unknown.
    pub fn out_degree_of(&self, node_id: NodeId) -> (r: Option<usize>)
        requires
            self.wf(),
        ensures
            match r {
                Some(deg) => self@.has_node(node_id@) && deg == self@.out_degree(node_id@),
                None => !self@.has_node(node_id@),
            },
    {
        let n = node_id.get();
        match self.fwd.get(&n) {
            Some(t) => {
                proof {
                    self.lemma_fwd_models_out_incidences(n);
                    lemma_pairs_of_len(self.fwd@[n]@.dom());
                }
                Some(pairset_len(t))
            },
            None => None,
        }
    }

    /// In a well-formed graph, a node's backward index entry stands for
    /// exactly its in-incidences.
    proof fn lemma_bwd_models_in_incidences(&self, n: u64)
        requires
            self.wf(),
            self.bwd@.contains_key(n),
        ensures
            pairs_of(self.bwd@[n]@.dom()) == self@.in_incidences(n),
    {
        assert forall|p: (u64, u64)| #![all_triggers]
            pairs_of(self.bwd@[n]@.dom()).contains(p) <==> self@.in_incidences(n).contains(
            p,
        ) by {
            lemma_unpack_pack(p.0, p.1);
        }
        assert(pairs_of(self.bwd@[n]@.dom()) =~= self@.in_incidences(n));
    }

    /// In a well-formed graph, a node's forward index entry stands for
    /// exactly its out-incidences.
    proof fn lemma_fwd_models_out_incidences(&self, n: u64)
        requires
            self.wf(),
            self.fwd@.contains_key(n),
        ensures
            pairs_of(self.fwd@[n]@.dom()) == self@.out_incidences(n),
    {
        assert forall|p: (u64, u64)| #![all_triggers]
            pairs_of(self.fwd@[n]@.dom()).contains(p) <==> self@.out_incidences(n).contains(
            p,
        ) by {
            lemma_unpack_pack(p.0, p.1);
        }
        assert(pairs_of(self.fwd@[n]@.dom()) =~= self@.out_incidences(n));
    }

    /// All nodes currently in the graph, as (id, info) pairs, in no
    /// particular order: each node id exactly once, paired with its
    /// payload.
    pub fn iter_nodes(&self) -> (v: Vec<(NodeId, &AnyNodeInfo)>)
        ensures
            v@.len() == self@.nodes.len(),
            forall|i: int|
                0 <= i < v@.len() ==> self@.nodes.contains_key(#[trigger] v@[i].0@) && *v@[i].1
                    == self@.nodes[v@[i].0@],
            forall|i: int, j: int| 0 <= i < j < v@.len() ==> v@[i].0@ != v@[j].0@,
    {
        let entries = map_entries(&self.node_info);
        let mut v: Vec<(NodeId, &AnyNodeInfo)> = Vec::new();
        let n_entries = entries.len();
        for i in 0..n_entries
            invariant
                n_entries == entries@.len(),
                entries@.len() == self@.nodes.len(),
                v@.len() == i,
                forall|j: int|
                    0 <= j < v@.len() ==> #[trigger] v@[j].0@ == entries@[j].0 && v@[j].1
                        == entries@[j].1,
                forall|j: int|
                    0 <= j < entries@.len() ==> self@.nodes.contains_key(
                        (#[trigger] entries@[j]).0,
                    ) && *entries@[j].1 == self@.nodes[entries@[j].0],
                forall|i2: int, j: int|
                    0 <= i2 < j < entries@.len() ==> entries@[i2].0 != entries@[j].0,
        {
            let (id, info) = entries[i];
            v.push((NodeId::new(id), info));
        }
        v
    }

    /// All relations currently in the graph, as (id, relation) pairs, in
    /// no particular order: each relation id exactly once.
    pub fn iter_relations(&self) -> (v: Vec<(RelationId, &Relation)>)
        requires
            self.wf(),
        ensures
            v@.len() == self@.rels.len(),
            forall|i: int|
                0 <= i < v@.len() ==> self@.rels.contains_key(#[trigger] v@[i].0@) && v@[i].1@
                    == self@.rels[v@[i].0@],
            forall|i: int, j: int| 0 <= i < j < v@.len() ==> v@[i].0@ != v@[j].0@,
    {
        proof {
            assert(self@.rels.dom() =~= self.relations@.dom());
        }
        let entries = map_entries(&self.relations);
        proof {
            assert forall|j: int| 0 <= j < entries@.len() implies (#[trigger] entries@[j]).0
                >= 1 by {
                assert(self.relations@.contains_key(entries@[j].0));
            }
        }
        let mut v: Vec<(RelationId, &Relation)> = Vec::new();
        let n_entries = entries.len();
        for i in 0..n_entries
            invariant
                n_entries == entries@.len(),
                entries@.len() == self@.rels.len(),
                v@.len() == i,
                forall|j: int|
                    0 <= j < v@.len() ==> #[trigger] v@[j].0@ == entries@[j].0 && v@[j].1
                        == entries@[j].1,
                forall|j: int|
                    0 <= j < entries@.len() ==> self.relations@.contains_key(
                        (#[trigger] entries@[j]).0,
                    ) && *entries@[j].1 == self.relations@[entries@[j].0] && entries@[j].0 >= 1,
                forall|i2: int, j: int|
                    0 <= i2 < j < entries@.len() ==> entries@[i2].0 != entries@[j].0,
        {
            let (id, rel) = entries[i];
            v.push((RelationId::new(id), rel));
        }
        proof {
            assert forall|i: int| 0 <= i < v@.len() implies self@.rels.contains_key(
                #[trigger] v@[i].0@,
            ) && v@[i].1@ == self@.rels[v@[i].0@] by {
                assert(self.relations@.contains_key(v@[i].0@));
            }
        }
        v
    }

    /// All edges currently tagged with `relation_id`, in no particular
    /// order and without duplicates, or `None` if the relation is
    /// unknown.
    pub fn iter_relation_edges(&self, relation_id: RelationId) -> (r: Option<Vec<Edge>>)
        ensures
            match r {
                Some(v) => {
                    &&& self@.has_relation(relation_id@)
                    &&& v@.len() == self@.rels[relation_id@].edges.len()
                    &&& forall|i: int, j: int| 0 <= i < j < v@.len() ==> v@[i]@ != v@[j]@
                    &&& forall|i: int|
                        0 <= i < v@.len() ==> self@.rels[relation_id@].edges.contains(
                            #[trigger] v@[i]@,
                        )
                    &&& forall|p: (u64, u64)|
                        self@.rels[relation_id@].edges.contains(p) ==> exists|i: int|
                            0 <= i < v@.len() && #[trigger] v@[i]@ == p
                },
                None => !self@.has_relation(relation_id@),
            },
    {
        let rid = relation_id.get();
        match self.relations.get(&rid) {
            Some(rel) => Some(rel.iter_edges()),
            None => None,
        }
    }

    /// Get the number of nodes in the graph.
    pub fn nr_nodes(&self) -> (r: usize)
        ensures
            r == self@.nodes.len(),
    {
        self.node_info.len()
    }

    /// Get the number of relations in the graph.
    pub fn nr_relations(&self) -> (r: usize)
        ensures
            r == self@.rels.len(),
    {
        proof {
            assert(self@.rels.dom() =~= self.relations@.dom());
        }
        self.relations.len()
    }
}

} // verus!
