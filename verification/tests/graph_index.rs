use weavatrix_graph::{
    Confidence, Edge, EdgeKind, EvidenceKind, Graph, GraphBuilder, GraphError, Node, NodeId, NodeKind,
    Provenance, Result,
};

fn node(id: &str) -> Result<Node> {
    Node::new(id, id, NodeKind::File)
}

fn edge(source: &str, target: &str, kind: EdgeKind, extractor: &str) -> Result<Edge> {
    Ok(Edge::new(
        NodeId::new(source)?,
        NodeId::new(target)?,
        kind,
        Provenance::new(extractor, EvidenceKind::Parsed, Confidence::High)?,
    ))
}

/// The canonical order is a public contract: consumers persist snapshots
/// and diff them across builds. Scrambled input with duplicates must come
/// out in exactly the order the already-sorted path produces.
#[test]
fn canonical_order_matches_the_pre_sorted_path() -> Result<()> {
    let nodes = ["a", "b", "c"]
        .map(node)
        .into_iter()
        .collect::<Result<Vec<_>>>()?;
    let scrambled = vec![
        edge("c", "a", EdgeKind::Calls, "second")?,
        edge("a", "c", EdgeKind::Imports, "first")?,
        edge("b", "a", EdgeKind::Calls, "first")?,
        edge("a", "b", EdgeKind::Calls, "first")?,
        edge("c", "a", EdgeKind::Calls, "first")?,
        // Exact duplicate of an earlier edge: canonicalization keeps one.
        edge("a", "b", EdgeKind::Calls, "first")?,
        edge("a", "b", EdgeKind::Calls, "second")?,
    ];
    let canonical = Graph::try_from_parts(nodes.clone(), scrambled.clone())?;

    let mut expected = scrambled;
    expected.sort();
    expected.dedup();
    let sorted = Graph::try_from_sorted_parts(nodes, expected)?;

    assert_eq!(
        canonical.edges(),
        sorted.edges(),
        "canonicalization must agree with the already-sorted path"
    );
    assert_eq!(canonical.edge_count(), 6, "the duplicate edge is dropped");
    assert_eq!(
        canonical.edges().first().map(|edge| edge.source.as_str()),
        Some("a"),
        "edges are grouped by source position"
    );
    Ok(())
}

#[test]
fn dangling_endpoints_are_reported_by_side() -> Result<()> {
    let nodes = vec![node("a")?];
    let missing_source = Graph::try_from_parts(nodes.clone(), vec![edge("z", "a", EdgeKind::Calls, "x")?]);
    assert!(
        matches!(missing_source, Err(GraphError::MissingEdgeSource { .. })),
        "an unknown source is reported as a missing source"
    );
    let missing_target = Graph::try_from_parts(nodes, vec![edge("a", "z", EdgeKind::Calls, "x")?]);
    assert!(
        matches!(missing_target, Err(GraphError::MissingEdgeTarget { .. })),
        "an unknown target is reported as a missing target"
    );
    Ok(())
}

#[test]
fn node_order_is_independent_of_insertion_order() -> Result<()> {
    let forward = Graph::try_from_parts(vec![node("a")?, node("b")?, node("c")?], Vec::new())?;
    let backward = Graph::try_from_parts(vec![node("c")?, node("b")?, node("a")?], Vec::new())?;
    assert_eq!(forward.nodes(), backward.nodes());
    let ids: Vec<&str> = forward.nodes().iter().map(|n| n.id.as_str()).collect();
    assert_eq!(ids, vec!["a", "b", "c"]);
    Ok(())
}

#[test]
fn identical_nodes_are_idempotent_and_conflicts_are_refused() -> Result<()> {
    let graph = Graph::try_from_parts(vec![node("a")?, node("a")?], Vec::new())?;
    assert_eq!(graph.node_count(), 1);
    let conflict = Graph::try_from_parts(
        vec![node("a")?, Node::new("a", "other name", NodeKind::File)?],
        Vec::new(),
    );
    assert_eq!(conflict.err(), Some(GraphError::ConflictingNode { id: "a".to_string() }));
    Ok(())
}

#[test]
fn empty_identifiers_and_extractors_are_refused() {
    assert_eq!(NodeId::new("").err(), Some(GraphError::EmptyNodeId));
    assert_eq!(
        Provenance::new("", EvidenceKind::Parsed, Confidence::Low).err(),
        Some(GraphError::EmptyExtractor)
    );
    let mut builder = GraphBuilder::new();
    let mut provenance = Provenance::new("x", EvidenceKind::Parsed, Confidence::Low).unwrap();
    provenance.extractor = String::new();
    let bad = Edge::new(NodeId::new("a").unwrap(), NodeId::new("a").unwrap(), EdgeKind::Calls, provenance);
    assert_eq!(builder.add_edge(bad), Err(GraphError::EmptyExtractor));
}

#[test]
fn missing_endpoint_reports_the_identifier() -> Result<()> {
    let missing = Graph::try_from_parts(vec![node("a")?], vec![edge("a", "zz", EdgeKind::Calls, "x")?]);
    assert_eq!(missing.err(), Some(GraphError::MissingEdgeTarget { id: "zz".to_string() }));
    Ok(())
}

#[test]
fn builder_accepts_edges_before_nodes() -> Result<()> {
    let mut builder = GraphBuilder::with_capacity(2, 1);
    builder.add_edge(edge("b", "a", EdgeKind::Imports, "x")?)?;
    builder.add_node(node("b")?)?;
    builder.add_node(node("a")?)?;
    builder.add_node(node("a")?)?;
    let graph = builder.build()?;
    assert_eq!(graph.node_count(), 2);
    assert_eq!(graph.edge_count(), 1);
    assert_eq!(graph.node_index("b").map(|i| i.0), Some(1));
    assert_eq!(graph.node_index("q"), None);
    assert_eq!(graph.node("a").map(|n| n.name.as_str()), Some("a"));
    assert_eq!(graph.topology().edge_count(), 1);
    Ok(())
}

#[test]
fn unsorted_input_to_the_sorted_path_is_canonicalized() -> Result<()> {
    let nodes = vec![node("b")?, node("a")?];
    let edges = vec![edge("b", "a", EdgeKind::Calls, "x")?, edge("a", "b", EdgeKind::Calls, "x")?];
    let sorted = Graph::try_from_sorted_parts(nodes.clone(), edges.clone())?;
    let canonical = Graph::try_from_parts(nodes, edges)?;
    assert_eq!(sorted.nodes(), canonical.nodes());
    assert_eq!(sorted.edges(), canonical.edges());
    assert_eq!(sorted.edges()[0].source.as_str(), "a");
    Ok(())
}

#[test]
fn repository_contains_file_builds_a_two_node_graph() -> Result<()> {
    let repository = Node::new("repo:demo", "demo", NodeKind::Repository)?;
    let file = Node::new("file:src/lib.rs", "src/lib.rs", NodeKind::File)?;
    let mut builder = GraphBuilder::new();
    builder.add_node(repository.clone())?;
    builder.add_node(file.clone())?;
    builder.add_edge(Edge::new(
        repository.id,
        file.id,
        EdgeKind::Contains,
        Provenance::new("example", EvidenceKind::Parsed, Confidence::High)?,
    ))?;
    let graph = builder.build()?;
    assert_eq!(graph.node_count(), 2);
    assert_eq!(graph.edge_count(), 1);
    Ok(())
}
