use weavatrix_graph::{steiner_tree_approximation, EdgeEndpoints, EdgeIndex, GraphError, NodeIndex, UndirectedTopology};

fn graph(n: usize, list: &[(u32, u32)]) -> UndirectedTopology {
    UndirectedTopology::try_from_edges(n, list.iter().map(|&(s, t)| EdgeEndpoints::new(NodeIndex(s), NodeIndex(t))).collect())
        .unwrap()
}

fn edge_slots(edges: &[EdgeIndex]) -> Vec<u32> {
    edges.iter().map(|e| e.0).collect()
}

#[test]
fn a_path_between_two_terminals() {
    let g = graph(3, &[(0, 1), (1, 2)]);
    let tree = steiner_tree_approximation(&g, &[NodeIndex(2), NodeIndex(0), NodeIndex(2)], |_| 1).unwrap().unwrap();
    assert_eq!(tree.terminals(), &[NodeIndex(0), NodeIndex(2)]);
    assert_eq!(edge_slots(tree.edges()), vec![0, 1]);
    assert_eq!(tree.total_cost(), 2);
}

#[test]
fn a_cheap_hub_beats_an_expensive_shortcut() {
    let g = graph(4, &[(0, 3), (1, 3), (2, 3), (0, 1)]);
    let costs = [1u64, 1, 1, 10];
    let tree = steiner_tree_approximation(&g, &[NodeIndex(0), NodeIndex(1), NodeIndex(2)], |e: EdgeIndex| costs[e.0 as usize])
        .unwrap()
        .unwrap();
    assert_eq!(edge_slots(tree.edges()), vec![0, 1, 2]);
    assert_eq!(tree.total_cost(), 3);
}

#[test]
fn steiner_trivial_and_missing_cases() {
    let g = graph(3, &[(0, 1)]);
    let single = steiner_tree_approximation(&g, &[NodeIndex(1)], |_| 5).unwrap().unwrap();
    assert!(single.edges().is_empty());
    assert_eq!(single.total_cost(), 0);
    assert_eq!(steiner_tree_approximation(&g, &[NodeIndex(0), NodeIndex(9)], |_| 1), Ok(None));
    assert_eq!(steiner_tree_approximation(&g, &[NodeIndex(0), NodeIndex(2)], |_| 1), Ok(None));
}

#[test]
fn steiner_reports_overflowing_paths() {
    let g = graph(3, &[(0, 1), (1, 2)]);
    assert_eq!(
        steiner_tree_approximation(&g, &[NodeIndex(0), NodeIndex(2)], |_| u64::MAX - 1),
        Err(GraphError::ArithmeticOverflow { operation: "Steiner Dijkstra relaxation" })
    );
}

#[test]
fn steiner_keeps_an_inner_non_terminal() {
    let g = graph(3, &[(0, 1), (1, 2)]);
    let tree = steiner_tree_approximation(&g, &[NodeIndex(2), NodeIndex(0)], |_| 1).unwrap().unwrap();
    assert_eq!(tree.terminals(), &[NodeIndex(0), NodeIndex(2)]);
    assert_eq!(edge_slots(tree.edges()), vec![0, 1]);
    assert_eq!(tree.total_cost(), 2);
}

#[test]
fn steiner_refuses_terminals_in_different_components() {
    let g = graph(4, &[(0, 1), (2, 3)]);
    assert_eq!(steiner_tree_approximation(&g, &[NodeIndex(0), NodeIndex(1), NodeIndex(3)], |_| 1), Ok(None));
    let repeated = steiner_tree_approximation(&g, &[NodeIndex(2), NodeIndex(2)], |_| 1).unwrap().unwrap();
    assert_eq!(repeated.terminals(), &[NodeIndex(2)]);
    assert!(repeated.edges().is_empty());
}
