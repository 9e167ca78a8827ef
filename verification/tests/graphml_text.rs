use weavatrix_graph::{
    graphml_decode, graphml_decode_checked, topology_to_graphml, undirected_to_graphml, EdgeEndpoints, GraphError,
    GraphMlTopology, NodeIndex, Topology, UndirectedTopology,
};

fn edges(list: &[(u32, u32)]) -> Vec<EdgeEndpoints<NodeIndex>> {
    list.iter().map(|&(s, t)| EdgeEndpoints::new(NodeIndex(s), NodeIndex(t))).collect()
}

fn ends(list: &[EdgeEndpoints<NodeIndex>]) -> Vec<(u32, u32)> {
    list.iter().map(|e| (e.source.0, e.target.0)).collect()
}

fn reason(e: GraphError) -> String {
    match e {
        GraphError::InvalidFormat { format: "GraphML", reason } => reason,
        other => panic!("unexpected error {other:?}"),
    }
}

#[test]
fn writes_nodes_then_sorted_numbered_edges() {
    let graph = Topology::try_from_edges(2, edges(&[(1, 0), (0, 1)])).unwrap();
    assert_eq!(
        topology_to_graphml(&graph),
        "<?xml version=\"1.0\" encoding=\"UTF-8\"?>\n<graphml xmlns=\"http://graphml.graphdrawing.org/xmlns\">\n  <graph id=\"G\" edgedefault=\"directed\">\n    <node id=\"n0\"/>\n    <node id=\"n1\"/>\n    <edge id=\"e0\" source=\"n0\" target=\"n1\"/>\n    <edge id=\"e1\" source=\"n1\" target=\"n0\"/>\n  </graph>\n</graphml>\n"
    );
}

#[test]
fn written_graphml_reads_back() {
    let graph = UndirectedTopology::try_from_edges(3, edges(&[(2, 0), (1, 2)])).unwrap();
    match graphml_decode(&undirected_to_graphml(&graph)).unwrap() {
        GraphMlTopology::Undirected(back) => {
            assert_eq!(back.node_count(), 3);
            assert_eq!(ends(back.endpoints()), vec![(1, 2), (2, 0)]);
        },
        other => panic!("unexpected kind {other:?}"),
    }
}

#[test]
fn ids_are_numbered_in_declaration_order() {
    let text = "<graphml><graph edgedefault='directed'>\n<node id='b'/><node  id = \"a\"></node>\n<edge source=\"a\" target='b'/></graph></graphml>";
    let graph = graphml_decode(text).unwrap();
    assert!(graph.is_directed());
    match graph {
        GraphMlTopology::Directed(t) => {
            assert_eq!(t.node_count(), 2);
            assert_eq!(ends(t.endpoints()), vec![(1, 0)]);
        },
        other => panic!("unexpected kind {other:?}"),
    }
}

#[test]
fn graphml_refusals() {
    assert_eq!(reason(graphml_decode("<graph edgedefault='directed'/>").unwrap_err()), "missing graphml root");
    assert_eq!(
        reason(graphml_decode("<graphml><graph/><graph/></graphml>").unwrap_err()),
        "exactly one graph element is required"
    );
    assert_eq!(
        reason(graphml_decode("<graphml><graph edgedefault='mixed'/></graphml>").unwrap_err()),
        "edgedefault must be directed or undirected"
    );
    assert_eq!(
        graphml_decode("<graphml><graph edgedefault='directed'><port name='p'/></graph></graphml>").unwrap_err(),
        GraphError::UnsupportedGraphFeature { format: "GraphML", feature: "port" }
    );
    assert_eq!(
        reason(graphml_decode("<graphml><graph edgedefault='directed'><node id='a'/><node id='a'/></graph></graphml>").unwrap_err()),
        "duplicate node id"
    );
    assert_eq!(
        reason(graphml_decode("<graphml><graph edgedefault='directed'><node/></graph></graphml>").unwrap_err()),
        "missing id attribute"
    );
    assert_eq!(
        reason(graphml_decode("<graphml><graph edgedefault='directed'><node id='a'/><edge source='a' target='z'/></graph></graphml>").unwrap_err()),
        "edge references an unknown target"
    );
    assert_eq!(
        graphml_decode("<graphml><graph edgedefault='directed'><node id='a'/><edge directed='true' source='a' target='a'/></graph></graphml>").unwrap_err(),
        GraphError::UnsupportedGraphFeature { format: "GraphML", feature: "per-edge direction overrides" }
    );
    assert_eq!(reason(graphml_decode("<graphml><graph edgedefault='directed'").unwrap_err()), "unterminated XML tag");
}

#[test]
fn an_attribute_scan_that_would_split_a_character_is_flagged() {
    let text = "<graphml><graph edgedefault='directed'><node xid=\u{e9} id='a'/></graph></graphml>";
    assert!(graphml_decode_checked(text).is_none());
    assert!(graphml_decode_checked("<graphml><graph edgedefault='directed'/></graphml>").unwrap().is_ok());
}
