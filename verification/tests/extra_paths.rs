use weavatrix_graph::{bidirectional_dijkstra, dijkstra, spfa, spfa_filtered, GraphError, NodeIndex, Topology};

fn topology(n: usize, edges: &[(usize, usize)]) -> Topology {
    Topology::try_from_usize_edges(n, edges.to_vec()).unwrap()
}

#[test]
fn bidirectional_search_matches_the_one_sided_cost() {
    let graph = topology(5, &[(0, 1), (1, 2), (2, 4), (0, 3), (3, 4), (1, 4)]);
    let weights = [1u64, 1, 1, 5, 1, 7];
    let both = bidirectional_dijkstra(&graph, NodeIndex(0), NodeIndex(4), |e| weights[e.0 as usize]).unwrap();
    let one = dijkstra(&graph, NodeIndex(0), NodeIndex(4), |e| weights[e.0 as usize]).unwrap();
    assert_eq!(both.total_cost(), 3);
    assert_eq!(both.total_cost(), one.total_cost());
    assert_eq!(both.nodes(), &[NodeIndex(0), NodeIndex(1), NodeIndex(2), NodeIndex(4)]);
}

#[test]
fn bidirectional_search_handles_trivial_and_missing_routes() {
    let graph = topology(3, &[(0, 1)]);
    let same = bidirectional_dijkstra(&graph, NodeIndex(1), NodeIndex(1), |_| 4).unwrap();
    assert_eq!(same.nodes(), &[NodeIndex(1)]);
    assert_eq!(same.total_cost(), 0);
    assert!(bidirectional_dijkstra(&graph, NodeIndex(0), NodeIndex(2), |_| 1).is_none());
    assert!(bidirectional_dijkstra(&graph, NodeIndex(0), NodeIndex(9), |_| 1).is_none());
    let direct = bidirectional_dijkstra(&graph, NodeIndex(0), NodeIndex(1), |_| 6).unwrap();
    assert_eq!(direct.nodes(), &[NodeIndex(0), NodeIndex(1)]);
    assert_eq!(direct.total_cost(), 6);
}

#[test]
fn spfa_finds_least_signed_costs() {
    let graph = topology(4, &[(0, 1), (0, 2), (2, 1), (1, 3)]);
    let weights = [4i64, 2, -3, 1];
    let result = spfa(&graph, NodeIndex(0), |e| weights[e.0 as usize]).unwrap().unwrap();
    assert_eq!(result.source(), NodeIndex(0));
    assert_eq!(result.distance(NodeIndex(0)), Some(0));
    assert_eq!(result.distance(NodeIndex(1)), Some(-1));
    assert_eq!(result.distance(NodeIndex(3)), Some(0));
    assert_eq!(result.predecessor(NodeIndex(1)), Some(NodeIndex(2)));
    assert_eq!(result.distance(NodeIndex(9)), None);
}

#[test]
fn spfa_reports_negative_cycles_and_unknown_sources() {
    let graph = topology(3, &[(0, 1), (1, 2), (2, 1)]);
    let weights = [1i64, -2, 1];
    assert_eq!(
        spfa(&graph, NodeIndex(0), |e| weights[e.0 as usize]),
        Err(GraphError::NegativeCycle { algorithm: "SPFA" })
    );
    assert_eq!(spfa(&graph, NodeIndex(7), |_| 1), Ok(None));
    let filtered = spfa_filtered(&graph, NodeIndex(0), |e| if e.0 == 2 { None } else { Some(weights[e.0 as usize]) })
        .unwrap()
        .unwrap();
    assert_eq!(filtered.distance(NodeIndex(2)), Some(-1));
}

#[test]
fn spfa_reports_overflow() {
    let graph = topology(3, &[(0, 1), (1, 2)]);
    assert_eq!(
        spfa(&graph, NodeIndex(0), |_| i64::MAX),
        Err(GraphError::ArithmeticOverflow { operation: "SPFA relaxation" })
    );
}

#[test]
fn spfa_settles_an_acyclic_graph_with_negative_weights() {
    let graph = topology(
        6,
        &[(0, 5), (0, 1), (0, 2), (0, 3), (0, 4), (1, 5), (1, 2), (2, 5), (2, 3), (3, 5), (4, 1)],
    );
    let weights = [100i64, 30, 20, 10, 0, 60, -15, 70, -10, 75, -20];
    let result = spfa(&graph, NodeIndex(0), |e| weights[e.0 as usize]).unwrap().unwrap();
    let expected = [Some(0), Some(-20), Some(-35), Some(-45), Some(0), Some(30)];
    for (v, want) in expected.iter().enumerate() {
        assert_eq!(result.distance(NodeIndex(v as u32)), *want);
    }
}
