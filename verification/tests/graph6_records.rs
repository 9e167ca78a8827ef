use weavatrix_graph::{graph6_decode, graph6_encode, EdgeEndpoints, GraphError, NodeIndex, UndirectedTopology};

fn undirected(n: usize, edges: &[(u32, u32)]) -> UndirectedTopology {
    UndirectedTopology::try_from_edges(
        n,
        edges.iter().map(|&(s, t)| EdgeEndpoints::new(NodeIndex(s), NodeIndex(t))).collect(),
    )
    .unwrap()
}

fn pairs(graph: &UndirectedTopology) -> Vec<(u32, u32)> {
    graph.endpoints().iter().map(|e| (e.source.0, e.target.0)).collect()
}

#[test]
fn encodes_the_standard_examples() {
    assert_eq!(graph6_encode(&undirected(0, &[])).unwrap(), "?");
    assert_eq!(graph6_encode(&undirected(1, &[])).unwrap(), "@");
    assert_eq!(graph6_encode(&undirected(2, &[(0, 1)])).unwrap(), "A_");
    assert_eq!(graph6_encode(&undirected(3, &[(0, 1), (1, 2), (2, 0)])).unwrap(), "Bw");
    assert_eq!(graph6_encode(&undirected(5, &[(0, 2), (0, 4), (1, 3), (3, 4)])).unwrap(), "DQc");
}

#[test]
fn round_trips_through_a_record() {
    let graph = undirected(7, &[(6, 0), (2, 5), (3, 1), (1, 4)]);
    let record = graph6_encode(&graph).unwrap();
    let decoded = graph6_decode(&record).unwrap();
    assert_eq!(decoded.node_count(), 7);
    assert_eq!(pairs(&decoded), vec![(1, 3), (1, 4), (2, 5), (0, 6)]);
    assert_eq!(graph6_encode(&decoded).unwrap(), record);
}

#[test]
fn decodes_markers_whitespace_and_long_headers() {
    let decoded = graph6_decode("  >>graph6<<DQc\n").unwrap();
    assert_eq!(pairs(&decoded), vec![(0, 2), (1, 3), (0, 4), (3, 4)]);
    let big = undirected(63, &[(0, 62)]);
    let record = graph6_encode(&big).unwrap();
    assert!(record.starts_with("~??~"));
    assert_eq!(pairs(&graph6_decode(&record).unwrap()), vec![(0, 62)]);
}

#[test]
fn refuses_loops_and_parallel_edges() {
    assert_eq!(
        graph6_encode(&undirected(2, &[(1, 1)])),
        Err(GraphError::UnsupportedGraphFeature { format: "Graph6", feature: "self-loops" })
    );
    assert_eq!(
        graph6_encode(&undirected(2, &[(0, 1), (1, 0)])),
        Err(GraphError::UnsupportedGraphFeature { format: "Graph6", feature: "parallel edges" })
    );
}

#[test]
fn refuses_malformed_records() {
    for bad in ["", "   ", "A", "A_?", "A`", "Bz", "~", "~?", "!"] {
        assert!(
            matches!(graph6_decode(bad), Err(GraphError::InvalidFormat { format: "Graph6", .. })),
            "{bad:?} must be refused"
        );
    }
}
