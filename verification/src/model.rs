//! The mathematical model of a graph.
//!
//! The contracts of [`crate::graph::Graph`] are stated over [`GraphView`]:
//! the node table and the relation table, each relation carrying its edge
//! set. The adjacency indices the implementation maintains are derived
//! data and do not appear in the model; the incidence and degree functions
//! below define what they must agree with. The proof functions at the end
//! state the laws that relate the mutation operations.

use vstd::prelude::*;

use crate::node::AnyNodeInfo;
use crate::relation::AnyRelationInfo;

verus! {

/// The model of one relation: its payload and its current edge set. An
/// edge is an ordered (source, destination) pair of node ids.
#[verifier::ext_equal]
pub struct RelView {
    pub info: AnyRelationInfo,
    pub edges: Set<(u64, u64)>,
}

/// The model of a graph: node id to payload, and relation id to relation.
#[verifier::ext_equal]
pub struct GraphView {
    pub nodes: Map<u64, AnyNodeInfo>,
    pub rels: Map<u64, RelView>,
}

impl GraphView {
    /// The empty graph.
    pub open spec fn empty() -> GraphView {
        GraphView { nodes: Map::empty(), rels: Map::empty() }
    }

    /// Does the node table hold `n`?
    pub open spec fn has_node(self, n: u64) -> bool {
        self.nodes.contains_key(n)
    }

    /// Does the relation table hold `r`?
    pub open spec fn has_relation(self, r: u64) -> bool {
        self.rels.contains_key(r)
    }

    /// Is the edge `(src, dst)` currently tagged with relation `rel`?
    pub open spec fn edge_in(self, src: u64, dst: u64, rel: u64) -> bool {
        self.rels.contains_key(rel) && self.rels[rel].edges.contains((src, dst))
    }

    /// The (source node, relation) incidences counted toward `n`'s
    /// in-degree. A node connected to the same neighbor under three
    /// relations contributes three incidences.
    pub open spec fn in_incidences(self, n: u64) -> Set<(u64, u64)> {
        Set::new(|p: (u64, u64)| self.edge_in(p.0, n, p.1))
    }

    /// The (destination node, relation) incidences counted toward `n`'s
    /// out-degree.
    pub open spec fn out_incidences(self, n: u64) -> Set<(u64, u64)> {
        Set::new(|p: (u64, u64)| self.edge_in(n, p.0, p.1))
    }

    /// The in-degree of `n`: the number of its in-incidences.
    pub open spec fn in_degree(self, n: u64) -> nat {
        self.in_incidences(n).len()
    }

    /// The out-degree of `n`: the number of its out-incidences.
    pub open spec fn out_degree(self, n: u64) -> nat {
        self.out_incidences(n).len()
    }

    /// The graph after a node `n` with payload `info` is added.
    pub open spec fn with_node(self, n: u64, info: AnyNodeInfo) -> GraphView {
        GraphView { nodes: self.nodes.insert(n, info), rels: self.rels }
    }

    /// The graph after a relation `r` with payload `info` and an empty
    /// edge set is added.
    pub open spec fn with_relation(self, r: u64, info: AnyRelationInfo) -> GraphView {
        GraphView {
            nodes: self.nodes,
            rels: self.rels.insert(r, RelView { info, edges: Set::empty() }),
        }
    }

    /// The graph after the edge `(src, dst)` is tagged with relation
    /// `rel`. Meaningful only when the relation exists.
    pub open spec fn with_edge(self, src: u64, dst: u64, rel: u64) -> GraphView {
        GraphView {
            nodes: self.nodes,
            rels: self.rels.insert(
                rel,
                RelView { info: self.rels[rel].info, edges: self.rels[rel].edges.insert((src, dst)) },
            ),
        }
    }

    /// The graph after the edge `(src, dst)` loses its `rel` tag.
    /// Meaningful only when the relation exists.
    pub open spec fn without_edge(self, src: u64, dst: u64, rel: u64) -> GraphView {
        GraphView {
            nodes: self.nodes,
            rels: self.rels.insert(
                rel,
                RelView { info: self.rels[rel].info, edges: self.rels[rel].edges.remove((src, dst)) },
            ),
        }
    }

    /// The graph after relation `r` is removed: its edges vanish with it.
    pub open spec fn without_relation(self, r: u64) -> GraphView {
        GraphView { nodes: self.nodes, rels: self.rels.remove(r) }
    }

    /// The graph after node `n` is removed: every edge incident to `n`,
    /// under every relation, vanishes with it (the cascading delete).
    pub open spec fn without_node(self, n: u64) -> GraphView {
        GraphView {
            nodes: self.nodes.remove(n),
            rels: self.rels.map_values(
                |rv: RelView| RelView {
                    info: rv.info,
                    edges: rv.edges.filter(|p: (u64, u64)| p.0 != n && p.1 != n),
                },
            ),
        }
    }

    /// The model extracted from any executable graph is finite.
    pub open spec fn is_finite(self) -> bool {
        &&& self.nodes.dom().finite()
        &&& self.rels.dom().finite()
        &&& forall|r: u64| #[trigger] self.rels.contains_key(r) ==> self.rels[r].edges.finite()
    }

    /// Every edge references nodes present in the node table.
    pub open spec fn edges_closed(self) -> bool {
        forall|s: u64, d: u64, r: u64|
            #[trigger] self.edge_in(s, d, r) ==> self.has_node(s) && self.has_node(d)
    }
}

/// The incidences toward `m`'s in-degree whose relation lies in `rs`.
spec fn in_incidences_among(v: GraphView, m: u64, rs: Set<u64>) -> Set<(u64, u64)> {
    Set::new(|p: (u64, u64)| rs.contains(p.1) && v.edge_in(p.0, m, p.1))
}

/// The incidences toward `m`'s out-degree whose relation lies in `rs`.
spec fn out_incidences_among(v: GraphView, m: u64, rs: Set<u64>) -> Set<(u64, u64)> {
    Set::new(|p: (u64, u64)| rs.contains(p.1) && v.edge_in(m, p.0, p.1))
}

proof fn lemma_in_incidences_among_finite(v: GraphView, m: u64, rs: Set<u64>)
    requires
        v.is_finite(),
        rs.finite(),
    ensures
        in_incidences_among(v, m, rs).finite(),
    decreases rs.len(),
{
    if rs.is_empty() {
        assert(in_incidences_among(v, m, rs) =~= Set::<(u64, u64)>::empty());
    } else {
        let r = rs.choose();
        let rest = rs.remove(r);
        lemma_in_incidences_among_finite(v, m, rest);
        if v.rels.contains_key(r) {
            let f = |e: (u64, u64)| e.1 == m;
            let g = |e: (u64, u64)| (e.0, r);
            let slice = v.rels[r].edges.filter(f).map(g);
            v.rels[r].edges.lemma_len_filter(f);
            v.rels[r].edges.filter(f).lemma_map_finite(g);
            assert forall|p: (u64, u64)| #[trigger] in_incidences_among(v, m, rs).contains(p)
                implies in_incidences_among(v, m, rest).union(slice).contains(p) by {
                if p.1 == r {
                    assert(v.rels[r].edges.filter(f).contains((p.0, m)));
                    assert(g((p.0, m)) == p);
                    assert(slice.contains(p));
                }
            }
            assert forall|p: (u64, u64)|
                #[trigger] in_incidences_among(v, m, rest).union(slice).contains(p)
                    implies in_incidences_among(v, m, rs).contains(p) by {
                if slice.contains(p) {
                    let e = choose|e: (u64, u64)|
                        v.rels[r].edges.filter(f).contains(e) && p == g(e);
                    assert(v.edge_in(e.0, m, r));
                }
            }
            assert(in_incidences_among(v, m, rs) =~= in_incidences_among(v, m, rest).union(slice));
        } else {
            assert(in_incidences_among(v, m, rs) =~= in_incidences_among(v, m, rest));
        }
    }
}

proof fn lemma_out_incidences_among_finite(v: GraphView, m: u64, rs: Set<u64>)
    requires
        v.is_finite(),
        rs.finite(),
    ensures
        out_incidences_among(v, m, rs).finite(),
    decreases rs.len(),
{
    if rs.is_empty() {
        assert(out_incidences_among(v, m, rs) =~= Set::<(u64, u64)>::empty());
    } else {
        let r = rs.choose();
        let rest = rs.remove(r);
        lemma_out_incidences_among_finite(v, m, rest);
        if v.rels.contains_key(r) {
            let f = |e: (u64, u64)| e.0 == m;
            let g = |e: (u64, u64)| (e.1, r);
            let slice = v.rels[r].edges.filter(f).map(g);
            v.rels[r].edges.lemma_len_filter(f);
            v.rels[r].edges.filter(f).lemma_map_finite(g);
            assert forall|p: (u64, u64)| #[trigger] out_incidences_among(v, m, rs).contains(p)
                implies out_incidences_among(v, m, rest).union(slice).contains(p) by {
                if p.1 == r {
                    assert(v.rels[r].edges.filter(f).contains((m, p.0)));
                    assert(g((m, p.0)) == p);
                    assert(slice.contains(p));
                }
            }
            assert forall|p: (u64, u64)|
                #[trigger] out_incidences_among(v, m, rest).union(slice).contains(p)
                    implies out_incidences_among(v, m, rs).contains(p) by {
                if slice.contains(p) {
                    let e = choose|e: (u64, u64)|
                        v.rels[r].edges.filter(f).contains(e) && p == g(e);
                    assert(v.edge_in(m, e.1, r));
                }
            }
            assert(out_incidences_among(v, m, rs) =~= out_incidences_among(v, m, rest).union(
                slice,
            ));
        } else {
            assert(out_incidences_among(v, m, rs) =~= out_incidences_among(v, m, rest));
        }
    }
}

/// In a finite model, every node's incidence sets are finite, so its
/// degrees are well defined.
pub proof fn lemma_incidences_finite(v: GraphView, m: u64)
    requires
        v.is_finite(),
    ensures
        v.in_incidences(m).finite(),
        v.out_incidences(m).finite(),
{
    lemma_in_incidences_among_finite(v, m, v.rels.dom());
    assert(v.in_incidences(m) =~= in_incidences_among(v, m, v.rels.dom()));
    lemma_out_incidences_among_finite(v, m, v.rels.dom());
    assert(v.out_incidences(m) =~= out_incidences_among(v, m, v.rels.dom()));
}

/// What `with_edge` does, edge by edge: it adds exactly the one edge and
/// leaves the node table, the relation table's domain and the payloads
/// alone.
pub proof fn lemma_with_edge_facts(v: GraphView, s: u64, d: u64, r: u64)
    requires
        v.has_relation(r),
    ensures
        v.with_edge(s, d, r).nodes == v.nodes,
        v.with_edge(s, d, r).rels.dom() == v.rels.dom(),
        forall|x: u64|
            #[trigger] v.rels.contains_key(x) ==> v.with_edge(s, d, r).rels[x].info
                == v.rels[x].info,
        forall|x: u64, y: u64, z: u64|
            #[trigger] v.with_edge(s, d, r).edge_in(x, y, z) <==> (v.edge_in(x, y, z) || (x == s
                && y == d && z == r)),
{
    assert(v.with_edge(s, d, r).rels.dom() =~= v.rels.dom());
}

/// What `without_edge` does, edge by edge: it removes exactly the one
/// edge and leaves the node table, the relation table's domain and the
/// payloads alone.
pub proof fn lemma_without_edge_facts(v: GraphView, s: u64, d: u64, r: u64)
    requires
        v.has_relation(r),
    ensures
        v.without_edge(s, d, r).nodes == v.nodes,
        v.without_edge(s, d, r).rels.dom() == v.rels.dom(),
        forall|x: u64|
            #[trigger] v.rels.contains_key(x) ==> v.without_edge(s, d, r).rels[x].info
                == v.rels[x].info,
        forall|x: u64, y: u64, z: u64|
            #[trigger] v.without_edge(s, d, r).edge_in(x, y, z) <==> (v.edge_in(x, y, z) && !(x
                == s && y == d && z == r)),
{
    assert(v.without_edge(s, d, r).rels.dom() =~= v.rels.dom());
}

/// What `without_node` does, edge by edge: exactly the edges incident to
/// the node vanish, the relation table's domain and the payloads stay.
pub proof fn lemma_without_node_facts(v: GraphView, n: u64)
    ensures
        v.without_node(n).nodes == v.nodes.remove(n),
        v.without_node(n).rels.dom() == v.rels.dom(),
        forall|x: u64|
            #[trigger] v.rels.contains_key(x) ==> v.without_node(n).rels[x].info == v.rels[x].info,
        forall|x: u64, y: u64, z: u64|
            #[trigger] v.without_node(n).edge_in(x, y, z) <==> (v.edge_in(x, y, z) && x != n && y
                != n),
{
    assert(v.without_node(n).rels.dom() =~= v.rels.dom());
}

/// What `without_relation` does, edge by edge: exactly the edges tagged
/// with the relation vanish, together with its table entry; the node
/// table and the other relations stay.
pub proof fn lemma_without_relation_facts(v: GraphView, r: u64)
    ensures
        v.without_relation(r).nodes == v.nodes,
        v.without_relation(r).rels.dom() == v.rels.dom().remove(r),
        forall|x: u64|
            x != r && #[trigger] v.rels.contains_key(x) ==> v.without_relation(r).rels[x]
                == v.rels[x],
        forall|x: u64, y: u64, z: u64|
            #[trigger] v.without_relation(r).edge_in(x, y, z) <==> (v.edge_in(x, y, z) && z != r),
{
}

/// Law: `connect` twice with identical arguments. The first call finds
/// the edge absent, so it reports a newly added edge (`true`); the second
/// finds it present, reports `false`, and is a no-op on the graph.
pub proof fn lemma_connect_twice(v: GraphView, src: u64, dst: u64, rel: u64)
    requires
        v.has_relation(rel),
        !v.edge_in(src, dst, rel),
    ensures
        v.with_edge(src, dst, rel).edge_in(src, dst, rel),
        v.with_edge(src, dst, rel).with_edge(src, dst, rel) == v.with_edge(src, dst, rel),
{
    let v1 = v.with_edge(src, dst, rel);
    lemma_with_edge_facts(v, src, dst, rel);
    assert(v1.rels[rel].edges.insert((src, dst)) =~= v1.rels[rel].edges);
    assert(v1.with_edge(src, dst, rel).rels =~~= v1.rels);
    assert(v1.with_edge(src, dst, rel) =~~= v1);
}

/// Law: `disconnect` twice with identical arguments on a present edge.
/// The first call removes the edge and reports `true`; the second finds
/// nothing to remove, reports `false`, and is a no-op on the graph.
pub proof fn lemma_disconnect_twice(v: GraphView, src: u64, dst: u64, rel: u64)
    requires
        v.has_relation(rel),
        v.edge_in(src, dst, rel),
    ensures
        !v.without_edge(src, dst, rel).edge_in(src, dst, rel),
        v.without_edge(src, dst, rel).without_edge(src, dst, rel) == v.without_edge(
            src,
            dst,
            rel,
        ),
{
    let v1 = v.without_edge(src, dst, rel);
    lemma_without_edge_facts(v, src, dst, rel);
    assert(v1.rels[rel].edges.remove((src, dst)) =~= v1.rels[rel].edges);
    assert(v1.without_edge(src, dst, rel).rels =~~= v1.rels);
    assert(v1.without_edge(src, dst, rel) =~~= v1);
}

/// Law: node removal is idempotent. After a removal the id is unknown
/// (so the degree queries answer `None` and a second `remove_node`
/// returns `None`), and removing it again changes nothing.
pub proof fn lemma_remove_node_idempotent(v: GraphView, n: u64)
    ensures
        !v.without_node(n).has_node(n),
        v.without_node(n).without_node(n) == v.without_node(n),
{
    let v1 = v.without_node(n);
    assert(v1.nodes.remove(n) =~= v1.nodes);
    assert forall|x: u64| #[trigger] v1.rels.contains_key(x) implies v1.without_node(n).rels[x]
        == v1.rels[x] by {
        assert(v.rels.contains_key(x));
        let f = |p: (u64, u64)| p.0 != n && p.1 != n;
        assert(v1.rels[x].edges.filter(f) =~= v1.rels[x].edges);
        assert(v1.without_node(n).rels[x] =~= v1.rels[x]);
    }
    assert(v1.without_node(n).rels =~= v1.rels);
    assert(v1.without_node(n) =~= v1);
}

/// Law: removing a node removes its edge to another node `m` from the
/// edge set of `r`, and, when `r` is the only relation connecting `n` to
/// `m`, decrements `m`'s in-degree by exactly one — not by the number of
/// relations in the graph.
pub proof fn lemma_remove_node_in_degree(v: GraphView, n: u64, m: u64, r: u64)
    requires
        v.is_finite(),
        m != n,
        v.edge_in(n, m, r),
        forall|r2: u64| #[trigger] v.edge_in(n, m, r2) ==> r2 == r,
    ensures
        !v.without_node(n).edge_in(n, m, r),
        v.without_node(n).in_degree(m) + 1 == v.in_degree(m),
{
    lemma_incidences_finite(v, m);
    lemma_without_node_facts(v, n);
    let v1 = v.without_node(n);
    assert forall|p: (u64, u64)| #![all_triggers]
        v1.in_incidences(m).contains(p) <==> v.in_incidences(m).remove((n, r)).contains(p) by {
        if v.in_incidences(m).contains(p) && p != ((n, r)) && p.0 == n {
            assert(v.edge_in(n, m, p.1));
        }
    }
    assert(v1.in_incidences(m) =~= v.in_incidences(m).remove((n, r)));
    assert(v.in_incidences(m).contains((n, r)));
}

/// Law: removing a relation removes exactly its incidences from every
/// node's degrees: a node's incidence sets lose the pairs tagged with the
/// relation and keep all others, and each degree drops by the number of
/// incidences lost.
pub proof fn lemma_remove_relation_degrees(v: GraphView, r: u64, m: u64)
    requires
        v.is_finite(),
    ensures
        v.without_relation(r).in_incidences(m) == v.in_incidences(m).filter(
            |p: (u64, u64)| p.1 != r,
        ),
        v.without_relation(r).out_incidences(m) == v.out_incidences(m).filter(
            |p: (u64, u64)| p.1 != r,
        ),
        v.without_relation(r).in_degree(m) + v.in_incidences(m).filter(
            |p: (u64, u64)| p.1 == r,
        ).len() == v.in_degree(m),
        v.without_relation(r).out_degree(m) + v.out_incidences(m).filter(
            |p: (u64, u64)| p.1 == r,
        ).len() == v.out_degree(m),
{
    lemma_incidences_finite(v, m);
    lemma_without_relation_facts(v, r);
    let keep = |p: (u64, u64)| p.1 != r;
    let drop = |p: (u64, u64)| p.1 == r;
    assert(v.without_relation(r).in_incidences(m) =~= v.in_incidences(m).filter(keep));
    assert(v.without_relation(r).out_incidences(m) =~= v.out_incidences(m).filter(keep));
    lemma_filter_partition(v.in_incidences(m), keep, drop);
    lemma_filter_partition(v.out_incidences(m), keep, drop);
}

/// Splitting a finite set by a predicate and its negation splits its
/// cardinality.
proof fn lemma_filter_partition(
    a: Set<(u64, u64)>,
    keep: spec_fn((u64, u64)) -> bool,
    drop: spec_fn((u64, u64)) -> bool,
)
    requires
        a.finite(),
        forall|p: (u64, u64)| #[trigger] keep(p) <==> !drop(p),
    ensures
        a.filter(keep).len() + a.filter(drop).len() == a.len(),
        a.filter(keep).finite(),
        a.filter(drop).finite(),
{
    a.lemma_len_filter(keep);
    a.lemma_len_filter(drop);
    assert(a.filter(keep).disjoint(a.filter(drop)));
    vstd::set_lib::lemma_set_disjoint_lens(a.filter(keep), a.filter(drop));
    assert(a.filter(keep).union(a.filter(drop)) =~= a);
}

} // verus!
