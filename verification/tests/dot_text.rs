use weavatrix_graph::{
    path_topology, topology_from_dot, topology_to_dot, undirected_from_dot, undirected_to_dot, BitMatrix, EdgeEndpoints, GraphError, NodeIndex, Topology,
    UndirectedTopology,
};

fn edges(list: &[(u32, u32)]) -> Vec<EdgeEndpoints<NodeIndex>> {
    list.iter().map(|&(s, t)| EdgeEndpoints::new(NodeIndex(s), NodeIndex(t))).collect()
}

#[test]
fn directed_dot_lists_nodes_then_sorted_edges() {
    let graph = Topology::try_from_edges(3, edges(&[(2, 0), (0, 1), (0, 1)])).unwrap();
    assert_eq!(
        topology_to_dot(&graph),
        "strict digraph G {\n  0;\n  1;\n  2;\n  0 -> 1;\n  0 -> 1;\n  2 -> 0;\n}\n"
    );
}

#[test]
fn path_of_two_in_dot() {
    let graph = path_topology(2).unwrap();
    assert_eq!(topology_to_dot(&graph), "strict digraph G {\n  0;\n  1;\n  0 -> 1;\n}\n");
}

#[test]
fn empty_graph_in_dot() {
    let graph = Topology::try_from_edges(0, Vec::new()).unwrap();
    assert_eq!(topology_to_dot(&graph), "strict digraph G {\n}\n");
}

#[test]
fn undirected_dot_uses_plain_links() {
    let graph = UndirectedTopology::try_from_edges(12, edges(&[(11, 10), (3, 4)])).unwrap();
    let text = undirected_to_dot(&graph);
    assert!(text.starts_with("strict graph G {\n  0;\n"));
    assert!(text.contains("  11;\n  3 -- 4;\n  11 -- 10;\n}\n"));
}

#[test]
fn bit_matrix_round_trips_through_its_words() {
    let mut m = BitMatrix::try_new(3).unwrap();
    m.insert(NodeIndex(0), NodeIndex(2)).unwrap();
    m.insert(NodeIndex(2), NodeIndex(1)).unwrap();
    let words = m.words().to_vec();
    assert_eq!(words, vec![(1u64 << 2) | (1u64 << 7)]);
    let back = BitMatrix::from_words(3, words).unwrap();
    assert_eq!(back.edge_count(), 2);
    assert!(back.contains(NodeIndex(0), NodeIndex(2)));
    assert!(back.contains(NodeIndex(2), NodeIndex(1)));
    assert!(!back.contains(NodeIndex(1), NodeIndex(2)));
}

#[test]
fn bit_matrix_words_are_checked() {
    assert!(matches!(
        BitMatrix::from_words(3, vec![0, 0]),
        Err(GraphError::InvalidFormat { format: "bit matrix", .. })
    ));
    assert!(matches!(
        BitMatrix::from_words(3, vec![1u64 << 9]),
        Err(GraphError::InvalidFormat { format: "bit matrix", .. })
    ));
    assert!(BitMatrix::from_words(3, vec![1u64 << 8]).is_ok());
}

fn ends(t: &Topology) -> Vec<(u32, u32)> {
    t.endpoints().iter().map(|e| (e.source.0, e.target.0)).collect()
}

fn format_reason(e: GraphError) -> String {
    match e {
        GraphError::InvalidFormat { format: "DOT", reason } => reason,
        other => panic!("unexpected error {other:?}"),
    }
}

#[test]
fn written_dot_reads_back() {
    let graph = Topology::try_from_edges(4, edges(&[(3, 1), (0, 2), (0, 1)])).unwrap();
    let back = topology_from_dot(&topology_to_dot(&graph)).unwrap();
    assert_eq!(back.node_count(), 4);
    assert_eq!(ends(&back), vec![(0, 1), (0, 2), (3, 1)]);
}

#[test]
fn dot_reader_accepts_quotes_prefixes_chains_and_comments() {
    let text = "// leading\nstrict DiGraph G {\n  node [shape=box];\n  \"n0\" -> n1 -> \"2\" [color=red]; # note\n  7;\n  +3 -> 4 // tail\n}\n";
    let graph = topology_from_dot(text).unwrap();
    // The `7` shares a statement with the `#` comment before it, so it is cut away.
    assert_eq!(graph.node_count(), 5);
    assert_eq!(ends(&graph), vec![(0, 1), (1, 2), (3, 4)]);
}

#[test]
fn undirected_dot_reads_back() {
    let graph = UndirectedTopology::try_from_edges(3, edges(&[(2, 1), (0, 2)])).unwrap();
    let back = undirected_from_dot(&undirected_to_dot(&graph)).unwrap();
    assert_eq!(back.node_count(), 3);
    let pairs: Vec<(u32, u32)> = back.endpoints().iter().map(|e| (e.source.0, e.target.0)).collect();
    assert_eq!(pairs, vec![(0, 2), (2, 1)]);
}

#[test]
fn empty_dot_body_has_no_nodes() {
    let graph = topology_from_dot("digraph {}").unwrap();
    assert_eq!(graph.node_count(), 0);
    assert_eq!(graph.edge_count(), 0);
}

#[test]
fn dot_reader_reports_each_refusal() {
    assert_eq!(format_reason(topology_from_dot("digraph G").unwrap_err()), "missing opening brace");
    assert_eq!(format_reason(topology_from_dot("digraph G {").unwrap_err()), "missing closing brace");
    assert_eq!(format_reason(topology_from_dot("} digraph {").unwrap_err()), "closing brace precedes graph body");
    assert_eq!(format_reason(topology_from_dot("graph G { 0; }").unwrap_err()), "graph header has the wrong kind");
    assert_eq!(format_reason(undirected_from_dot("digraph G { 0; }").unwrap_err()), "graph header has the wrong kind");
    assert_eq!(
        format_reason(topology_from_dot("digraph { 0 -- 1; }").unwrap_err()),
        "edge operator does not match graph kind"
    );
    assert_eq!(
        format_reason(undirected_from_dot("graph { 0 -> 1; }").unwrap_err()),
        "edge operator does not match graph kind"
    );
    assert_eq!(
        format_reason(topology_from_dot("digraph { a -> 1; }").unwrap_err()),
        "node ids must be compact nonnegative integers"
    );
    assert_eq!(
        format_reason(topology_from_dot("digraph { 0 -> ; }").unwrap_err()),
        "node ids must be compact nonnegative integers"
    );
    assert_eq!(
        topology_from_dot("digraph { 0 -> 4294967296; }").unwrap_err(),
        GraphError::IndexCapacityExceeded { category: "DOT nodes", count: 4294967297 }
    );
}

#[test]
fn a_lone_large_node_id_reaches_the_topology_check() {
    assert_eq!(
        topology_from_dot("digraph { 4294967296; }").unwrap_err(),
        GraphError::IndexCapacityExceeded { category: "nodes", count: 4294967297 }
    );
}
