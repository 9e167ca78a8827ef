use weavatrix_graph::{
    EdgeEndpoints, EdgeIndex, GraphError, NodeIndex, PayloadGraph, StableEdgeKey, StableNodeKey, StablePayloadGraph,
    UndirectedPayloadGraph,
};

#[test]
fn stable_keys_survive_removal_of_others() {
    let mut g: StablePayloadGraph<&str, u32> = StablePayloadGraph::new();
    assert!(g.is_empty());
    let a = g.add_node("a").unwrap();
    let b = g.add_node("b").unwrap();
    let c = g.add_node("c").unwrap();
    let ab = g.add_edge(a, b, 1).unwrap();
    let bc = g.add_edge(b, c, 2).unwrap();
    let ca = g.add_edge(c, a, 3).unwrap();
    assert_eq!((g.node_count(), g.edge_count()), (3, 3));
    assert_eq!(g.outgoing_edges(a), vec![ab]);
    assert_eq!(g.incoming_edges(a), vec![ca]);
    assert_eq!(g.remove_node(b), Some("b"));
    assert_eq!(g.node(b), None);
    assert_eq!(g.edge(ab), None);
    assert_eq!(g.edge(bc), None);
    assert_eq!(g.edge(ca), Some(&3));
    assert_eq!(g.edge_endpoints(ca), Some(EdgeEndpoints::new(c, a)));
    let d = g.add_node("d").unwrap();
    assert_eq!(d.slot(), b.slot());
    assert_ne!(d, b);
    assert_eq!(g.node(b), None);
    assert_eq!(g.node(d), Some(&"d"));
    assert_eq!(g.add_edge(b, a, 9).err(), Some(GraphError::InvalidStableKey { category: "node", slot: b.slot(), generation: b.generation() }));
    *g.node_mut(d).unwrap() = "dd";
    *g.edge_mut(ca).unwrap() = 30;
    assert_eq!(g.nodes().into_iter().map(|(_, p)| *p).collect::<Vec<_>>(), vec!["a", "dd", "c"]);
    assert_eq!(g.edges().into_iter().map(|(_, p)| *p).collect::<Vec<_>>(), vec![30]);
    assert_eq!(g.remove_edge(ca), Some(30));
    assert_eq!(g.remove_edge(ca), None);
}

#[test]
fn rewiring_mapping_and_freezing() {
    let mut g: StablePayloadGraph<u32, u32> = StablePayloadGraph::with_capacity(2, 1);
    let a = g.add_node(10).unwrap();
    let b = g.add_node(20).unwrap();
    let e = g.add_edge(a, b, 7).unwrap();
    g.set_edge_endpoints(e, b, a).unwrap();
    assert_eq!(g.edge_endpoints(e), Some(EdgeEndpoints::new(b, a)));
    let mapped = g.map_payloads(|n| n + 1, |w| w * 2);
    assert_eq!(mapped.node(a), Some(&11));
    assert_eq!(mapped.edge(e), Some(&14));
    let frozen = mapped.freeze().unwrap();
    assert_eq!(frozen.indices().node(b), Some(NodeIndex(1)));
    assert_eq!(frozen.indices().edge(e), Some(EdgeIndex(0)));
    assert_eq!(frozen.indices().node(StableNodeKey::new(9, 0)), None);
    assert_eq!(frozen.indices().edge(StableEdgeKey::new(0, 5)), None);
    let graph = frozen.graph();
    assert_eq!(graph.nodes(), &[11, 21]);
    assert_eq!(graph.topology().edge_endpoints(EdgeIndex(0)), Some(EdgeEndpoints::new(NodeIndex(1), NodeIndex(0))));
    let (payloads, map) = frozen.into_parts();
    assert_eq!(payloads.edges(), &[14]);
    assert_eq!(map.node(a), Some(NodeIndex(0)));
}

#[test]
fn immutable_payload_graphs_check_their_counts() {
    let g = PayloadGraph::try_from_edges(vec!['x', 'y'], vec![(EdgeEndpoints::new(NodeIndex(0), NodeIndex(1)), 5u8)]).unwrap();
    assert_eq!(g.node(NodeIndex(1)), Some(&'y'));
    assert_eq!(g.edge(EdgeIndex(0)), Some(&5));
    assert_eq!(g.edge(EdgeIndex(1)), None);
    let (topology, nodes, edges) = g.into_parts();
    assert!(PayloadGraph::try_from_parts(topology, nodes, vec![1u8, 2]).is_err());
    assert_eq!(edges, vec![5]);
    let mut u = UndirectedPayloadGraph::try_from_edges(vec![1, 2, 3], vec![(EdgeEndpoints::new(NodeIndex(2), NodeIndex(0)), "e")]).unwrap();
    *u.node_mut(NodeIndex(2)).unwrap() = 30;
    *u.edge_mut(EdgeIndex(0)).unwrap() = "f";
    assert_eq!(u.nodes(), &[1, 2, 30]);
    assert_eq!(u.edges(), &["f"]);
    assert_eq!(u.topology().incident_edges(NodeIndex(0)), &[EdgeIndex(0)]);
    assert!(u.node_mut(NodeIndex(3)).is_none());
}
