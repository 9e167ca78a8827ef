use weavatrix_graph::{GraphError, KeyedPayloadGraph};

#[test]
fn keyed_insert_replaces_payload_and_keeps_handle() {
    let mut g: KeyedPayloadGraph<&str, u32> = KeyedPayloadGraph::new();
    let (a, previous) = g.insert_node(10, "a").unwrap();
    assert_eq!(previous, None);
    let (again, previous) = g.insert_node(10, "A").unwrap();
    assert_eq!(again, a);
    assert_eq!(previous, Some("a"));
    assert_eq!(g.node(10), Some(&"A"));
    assert_eq!(g.node_key(10), Some(a));
    assert_eq!(g.node_count(), 1);
}

#[test]
fn keyed_add_edge_reports_the_missing_endpoint() {
    let mut g: KeyedPayloadGraph<&str, u32> = KeyedPayloadGraph::with_capacity(2, 1);
    g.insert_node(1, "one").unwrap();
    assert_eq!(g.add_edge(7, 1, 5), Err(GraphError::MissingKeyedNode { endpoint: "source" }));
    assert_eq!(g.add_edge(1, 7, 5), Err(GraphError::MissingKeyedNode { endpoint: "target" }));
    g.insert_node(2, "two").unwrap();
    let e = g.add_edge(1, 2, 5).unwrap();
    assert_eq!(g.graph().edge(e), Some(&5));
    assert_eq!(g.edge_count(), 1);
}

#[test]
fn keyed_remove_node_drops_key_and_edges() {
    let mut g: KeyedPayloadGraph<&str, u32> = KeyedPayloadGraph::new();
    let (a, _) = g.insert_node(1, "one").unwrap();
    g.insert_node(2, "two").unwrap();
    g.add_edge(1, 2, 3).unwrap();
    assert_eq!(g.remove_node(1), Some("one"));
    assert_eq!(g.node_key(1), None);
    assert_eq!(g.node(1), None);
    assert_eq!(g.remove_node(1), None);
    assert_eq!(g.edge_count(), 0);
    let (b, _) = g.insert_node(1, "again").unwrap();
    assert_ne!(a, b);
    if let Some(p) = g.node_mut(2) {
        *p = "TWO";
    }
    assert_eq!(g.node(2), Some(&"TWO"));
    let (graph, keys) = g.into_parts();
    assert_eq!(graph.node_count(), 2);
    assert_eq!(keys.len(), 2);
}
