use graphfruit::edge::Edge;
use graphfruit::errors::ConnectError;
use graphfruit::graph::Graph;
use graphfruit::id::IdGenerator;
use graphfruit::node::{AnyNodeInfo, NodeId};
use graphfruit::relation::{AnyRelationInfo, Relation, RelationId};

#[test]
fn counts_match_iteration() {
    let mut graph = Graph::new();
    for i in 0..7 {
        graph.add_node(i);
    }
    for i in 0..4 {
        graph.add_relation(i);
    }
    assert_eq!(graph.nr_nodes(), graph.iter_nodes().len());
    assert_eq!(graph.nr_relations(), graph.iter_relations().len());
    let ids: Vec<NodeId> = graph.iter_nodes().into_iter().map(|p| p.0).collect();
    assert_eq!(ids.len(), 7);
    for i in 0..ids.len() {
        for j in 0..i {
            assert!(ids[i] != ids[j]);
        }
    }
}

#[test]
fn connect_twice_and_disconnect_twice() {
    let mut graph = Graph::new();
    let a = graph.add_node(1);
    let b = graph.add_node(2);
    let r = graph.add_relation(10);
    assert_eq!(graph.connect(a, b, r).unwrap(), true);
    assert_eq!(graph.connect(a, b, r).unwrap(), false);
    assert_eq!(graph.disconnect(a, b, r).unwrap(), true);
    assert_eq!(graph.disconnect(a, b, r).unwrap(), false);
}

#[test]
fn remove_node_is_idempotent() {
    let mut graph = Graph::new();
    let a = graph.add_node(1);
    let b = graph.add_node(2);
    let r = graph.add_relation(10);
    graph.connect(a, b, r).unwrap();
    assert!(graph.remove_node(a).is_some());
    assert!(graph.remove_node(a).is_none());
    assert!(graph.in_degree_of(a).is_none());
    assert!(graph.out_degree_of(a).is_none());
}

#[test]
fn remove_node_drops_neighbor_degree_by_one() {
    let mut graph = Graph::new();
    let n = graph.add_node("n".to_string());
    let m = graph.add_node("m".to_string());
    let other = graph.add_node("other".to_string());
    let r = graph.add_relation("r".to_string());
    let r2 = graph.add_relation("r2".to_string());
    // n -> m under r only; other -> m under r and r2.
    graph.connect(n, m, r).unwrap();
    graph.connect(other, m, r).unwrap();
    graph.connect(other, m, r2).unwrap();
    assert_eq!(graph.in_degree_of(m).unwrap(), 3);
    assert!(graph.remove_node(n).is_some());
    // the edge vanished from r's edge set, and m lost exactly one incidence
    let edges = graph.iter_relation_edges(r).unwrap();
    assert_eq!(edges.len(), 1);
    assert_eq!(edges[0].src(), other);
    assert_eq!(edges[0].dst(), m);
    assert_eq!(graph.in_degree_of(m).unwrap(), 2);
}

#[test]
fn connect_error_variants_are_specific() {
    let mut graph = Graph::new();
    let a = graph.add_node(1);
    let b = graph.add_node(2);
    let r = graph.add_relation(10);
    let gone_node = {
        let g = graph.add_node(3);
        graph.remove_node(g).unwrap();
        g
    };
    let gone_rel = {
        let g = graph.add_relation(11);
        graph.remove_relation(g).unwrap();
        g
    };
    // the source is checked first, independently of the other arguments
    assert!(matches!(
        graph.connect(gone_node, b, r),
        Err(ConnectError::InvalidSrcNodeId)
    ));
    assert!(matches!(
        graph.connect(gone_node, gone_node, gone_rel),
        Err(ConnectError::InvalidSrcNodeId)
    ));
    assert!(matches!(
        graph.connect(a, gone_node, gone_rel),
        Err(ConnectError::InvalidDstNodeId)
    ));
    assert!(matches!(
        graph.connect(a, b, gone_rel),
        Err(ConnectError::InvalidRelationId)
    ));
    assert!(matches!(
        graph.disconnect(gone_node, b, r),
        Err(ConnectError::InvalidSrcNodeId)
    ));
    assert!(matches!(
        graph.disconnect(a, gone_node, gone_rel),
        Err(ConnectError::InvalidDstNodeId)
    ));
    assert!(matches!(
        graph.disconnect(a, b, gone_rel),
        Err(ConnectError::InvalidRelationId)
    ));
}

#[test]
fn connect_then_disconnect_degrees() {
    let mut graph = Graph::new();
    let a = graph.add_node("A".to_string());
    let b = graph.add_node("B".to_string());
    let _c = graph.add_node("C".to_string());
    let r = graph.add_relation("R".to_string());
    assert_eq!(graph.connect(a, b, r).unwrap(), true);
    assert_eq!(graph.in_degree_of(b).unwrap(), 1);
    assert_eq!(graph.out_degree_of(a).unwrap(), 1);
    assert_eq!(graph.disconnect(a, b, r).unwrap(), true);
    assert_eq!(graph.in_degree_of(b).unwrap(), 0);
    assert_eq!(graph.disconnect(a, b, r).unwrap(), false);
}

#[test]
fn self_loop_counts_once_in_each_degree() {
    let mut graph = Graph::new();
    let a = graph.add_node("A".to_string());
    let r = graph.add_relation("R".to_string());
    assert_eq!(graph.connect(a, a, r).unwrap(), true);
    assert_eq!(graph.in_degree_of(a).unwrap(), 1);
    assert_eq!(graph.out_degree_of(a).unwrap(), 1);
    let edges = graph.iter_relation_edges(r).unwrap();
    assert_eq!(edges.len(), 1);
    assert_eq!(edges[0].src(), a);
    assert_eq!(edges[0].dst(), a);
    // removing the node removes the self-loop cleanly
    assert!(graph.remove_node(a).is_some());
    assert_eq!(graph.iter_relation_edges(r).unwrap().len(), 0);
}

#[test]
fn remove_relation_drops_all_edges_and_degrees() {
    let mut graph = Graph::new();
    let mut nodes = Vec::new();
    for i in 0..4 {
        nodes.push(graph.add_node(i));
    }
    let r = graph.add_relation(100);
    let keep = graph.add_relation(200);
    // three edges under r, one under keep
    graph.connect(nodes[0], nodes[1], r).unwrap();
    graph.connect(nodes[2], nodes[1], r).unwrap();
    graph.connect(nodes[3], nodes[3], r).unwrap();
    graph.connect(nodes[0], nodes[1], keep).unwrap();
    assert_eq!(graph.iter_relation_edges(r).unwrap().len(), 3);
    assert_eq!(graph.in_degree_of(nodes[1]).unwrap(), 3);
    assert!(graph.remove_relation(r).is_some());
    // all three edges vanished from both adjacency indices
    assert!(graph.iter_relation_edges(r).is_none());
    assert_eq!(graph.in_degree_of(nodes[1]).unwrap(), 1);
    assert_eq!(graph.out_degree_of(nodes[0]).unwrap(), 1);
    assert_eq!(graph.out_degree_of(nodes[2]).unwrap(), 0);
    assert_eq!(graph.in_degree_of(nodes[3]).unwrap(), 0);
    assert_eq!(graph.out_degree_of(nodes[3]).unwrap(), 0);
    // a second removal returns None
    assert!(graph.remove_relation(r).is_none());
}

#[test]
fn degree_counts_incidences_not_neighbors() {
    let mut graph = Graph::new();
    let a = graph.add_node(1);
    let b = graph.add_node(2);
    let r1 = graph.add_relation(1);
    let r2 = graph.add_relation(2);
    let r3 = graph.add_relation(3);
    graph.connect(a, b, r1).unwrap();
    graph.connect(a, b, r2).unwrap();
    graph.connect(a, b, r3).unwrap();
    // one neighbor, three relations: degree three, not one
    assert_eq!(graph.in_degree_of(b).unwrap(), 3);
    assert_eq!(graph.out_degree_of(a).unwrap(), 3);
}

#[test]
fn removed_payloads_come_back() {
    let mut graph = Graph::new();
    let n = graph.add_node("hello".to_string());
    let r = graph.add_relation(42);
    let ninfo = graph.remove_node(n).unwrap();
    assert_eq!(ninfo.as_text().unwrap().as_str(), "hello");
    assert!(ninfo.as_i32().is_none());
    let rinfo = graph.remove_relation(r).unwrap();
    assert_eq!(*rinfo.as_i32().unwrap(), 42);
    assert!(rinfo.as_text().is_none());
}

#[test]
fn payload_projections() {
    let mut n = AnyNodeInfo::Int(5);
    assert_eq!(*n.as_i32().unwrap(), 5);
    assert!(n.as_u32().is_none());
    assert!(n.as_text().is_none());
    *n.as_i32_mut().unwrap() = 7;
    assert_eq!(*n.as_i32().unwrap(), 7);
    let mut t = AnyNodeInfo::Text("abc".to_string());
    t.as_text_mut().unwrap().push('d');
    assert_eq!(t.as_text().unwrap().as_str(), "abcd");
    assert!(t.as_i32_mut().is_none());
    let mut u = AnyNodeInfo::Uint(9);
    *u.as_u32_mut().unwrap() += 1;
    assert_eq!(*u.as_u32().unwrap(), 10);
    let unit = AnyNodeInfo::Unit;
    assert!(unit.as_i32().is_none());

    let mut ri = AnyRelationInfo::Uint(3);
    assert_eq!(*ri.as_u32().unwrap(), 3);
    assert!(ri.as_i32().is_none());
    *ri.as_u32_mut().unwrap() = 4;
    assert_eq!(*ri.as_u32().unwrap(), 4);
    let mut rt = AnyRelationInfo::Text("x".to_string());
    assert!(rt.as_text_mut().unwrap().pop().is_some());
    assert_eq!(rt.as_text().unwrap().as_str(), "");
    let mut rn = AnyRelationInfo::Int(-2);
    *rn.as_i32_mut().unwrap() += 1;
    assert_eq!(*rn.as_i32().unwrap(), -1);
    assert!(rn.as_u32_mut().is_none());
    assert!(rt.as_i32_mut().is_none());
    assert!(rn.as_text_mut().is_none());
}

#[test]
fn standalone_relation_edge_set() {
    let mut rel = Relation::new(1);
    let a = NodeId::new(10);
    let b = NodeId::new(20);
    let e = Edge::new(a, b);
    assert!(!rel.contains_edge(&e));
    assert_eq!(rel.insert_edge(e), true);
    assert_eq!(rel.insert_edge(e), false);
    assert!(rel.contains_edge(&e));
    let edges = rel.iter_edges();
    assert_eq!(edges.len(), 1);
    assert_eq!(edges[0].src().get(), 10);
    assert_eq!(edges[0].dst().get(), 20);
    assert_eq!(rel.remove_edge(&e), true);
    assert_eq!(rel.remove_edge(&e), false);
    assert_eq!(rel.iter_edges().len(), 0);
    *rel.info_mut().as_i32_mut().unwrap() = 9;
    assert_eq!(*rel.info().as_i32().unwrap(), 9);
    assert_eq!(*rel.into_info().as_i32().unwrap(), 9);
}

#[test]
fn id_types_and_generator() {
    let n = NodeId::new(7);
    assert_eq!(n.get(), 7);
    let r = RelationId::new(5);
    assert_eq!(r.get(), 5);
    let e = Edge::new(n, n);
    assert_eq!(e.src(), n);
    assert_eq!(e.dst(), n);

    let mut gen = IdGenerator::default();
    assert_eq!(gen.generate_id(), 1);
    assert_eq!(gen.generate_id_sync(), 2);
    assert_eq!(gen.generate_id(), 3);
}

#[test]
fn error_messages() {
    assert_eq!(
        ConnectError::InvalidSrcNodeId.message(),
        "Invalid source node ID"
    );
    assert_eq!(
        ConnectError::InvalidDstNodeId.message(),
        "Invalid destination node ID"
    );
    assert_eq!(
        ConnectError::InvalidRelationId.message(),
        "Invalid relation ID"
    );
}

#[test]
fn default_graph_is_empty() {
    let graph = Graph::default();
    assert_eq!(graph.nr_nodes(), 0);
    assert_eq!(graph.nr_relations(), 0);
}

#[test]
fn node_ids_are_never_reused() {
    let mut graph = Graph::new();
    let a = graph.add_node(1);
    graph.remove_node(a).unwrap();
    let b = graph.add_node(2);
    assert!(a != b);
    let r1 = graph.add_relation(1);
    graph.remove_relation(r1).unwrap();
    let r2 = graph.add_relation(2);
    assert!(r1 != r2);
    assert!(r2.get() != 0);
}
