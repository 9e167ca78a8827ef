use weavatrix_graph::{cycle_basis, EdgeEndpoints, NodeIndex, Topology};

fn topology(n: usize, list: &[(u32, u32)]) -> Topology {
    Topology::try_from_edges(n, list.iter().map(|&(s, t)| EdgeEndpoints::new(NodeIndex(s), NodeIndex(t))).collect())
        .unwrap()
}

fn slots(cycles: Vec<Vec<NodeIndex>>) -> Vec<Vec<u32>> {
    cycles.into_iter().map(|c| c.into_iter().map(|v| v.0).collect()).collect()
}

#[test]
fn a_triangle_has_one_fundamental_cycle() {
    let graph = topology(3, &[(0, 1), (1, 2), (2, 0)]);
    assert_eq!(slots(cycle_basis(&graph)), vec![vec![1, 0, 2]]);
}

#[test]
fn trees_and_parallel_edges_have_no_cycles() {
    let graph = topology(4, &[(0, 1), (1, 0), (1, 2), (3, 3), (2, 3)]);
    assert!(cycle_basis(&graph).is_empty());
}

#[test]
fn two_squares_sharing_an_edge() {
    // 0-1-2-3-0 and 1-4-5-2
    let graph = topology(6, &[(0, 1), (1, 2), (2, 3), (3, 0), (1, 4), (4, 5), (5, 2)]);
    let cycles = slots(cycle_basis(&graph));
    assert_eq!(cycles, vec![vec![2, 1, 0, 3], vec![4, 1, 2, 5]]);
}

fn groups(c: &weavatrix_graph::Communities) -> Vec<Vec<u32>> {
    c.groups().iter().map(|g| g.iter().map(|v| v.0).collect()).collect()
}

#[test]
fn label_propagation_separates_two_triangles() {
    let graph = topology(6, &[(0, 1), (1, 2), (2, 0), (3, 4), (4, 5), (5, 3)]);
    let found = weavatrix_graph::label_propagation_communities(&graph, 10);
    assert_eq!(groups(&found), vec![vec![0, 1, 2], vec![3, 4, 5]]);
    let members: Vec<(u32, usize)> = found.memberships().iter().map(|&(v, c)| (v.0, c)).collect();
    assert_eq!(members, vec![(0, 0), (1, 0), (2, 0), (3, 1), (4, 1), (5, 1)]);
    assert_eq!(found.iterations(), 2);
    assert!(found.converged());
}

#[test]
fn label_propagation_keeps_isolated_nodes_apart() {
    let graph = topology(3, &[(0, 1)]);
    let found = weavatrix_graph::label_propagation_communities(&graph, 5);
    assert_eq!(groups(&found), vec![vec![0, 1], vec![2]]);
    assert!(found.converged());
}

#[test]
fn label_propagation_without_sweeps_keeps_every_node_alone() {
    let graph = topology(3, &[(0, 1), (1, 2)]);
    let found = weavatrix_graph::label_propagation_communities(&graph, 0);
    assert_eq!(groups(&found), vec![vec![0], vec![1], vec![2]]);
    assert_eq!(found.iterations(), 0);
    assert!(!found.converged());
    let empty = weavatrix_graph::label_propagation_communities(&topology(0, &[]), 3);
    assert!(empty.converged());
    assert_eq!(empty.iterations(), 1);
    assert!(empty.groups().is_empty());
}

fn cores(graph: &Topology) -> Vec<(u32, usize)> {
    weavatrix_graph::k_core_numbers(graph).into_iter().map(|(v, c)| (v.0, c)).collect()
}

#[test]
fn core_numbers_of_a_triangle_with_a_tail() {
    let graph = topology(5, &[(0, 1), (1, 2), (2, 0), (2, 3)]);
    assert_eq!(cores(&graph), vec![(0, 2), (1, 2), (2, 2), (3, 1), (4, 0)]);
}

#[test]
fn core_numbers_ignore_direction_loops_and_repeats() {
    let graph = topology(4, &[(0, 1), (1, 0), (1, 1), (1, 2), (2, 3), (3, 0), (0, 2), (1, 3)]);
    assert_eq!(cores(&graph), vec![(0, 3), (1, 3), (2, 3), (3, 3)]);
}

#[test]
fn label_propagation_joins_a_path_in_two_sweeps() {
    let graph = weavatrix_graph::path_topology(3).unwrap();
    let found = weavatrix_graph::label_propagation_communities(&graph, 10);
    assert_eq!(slots(found.groups().to_vec()), vec![vec![0, 1, 2]]);
    assert_eq!(found.memberships(), &[(NodeIndex(0), 0), (NodeIndex(1), 0), (NodeIndex(2), 0)]);
    assert_eq!(found.iterations(), 2);
    assert!(found.converged());
}

#[test]
fn accepted_links_are_sorted_distinct_and_loop_free() {
    let g = weavatrix_graph::Topology::try_from_usize_edges(4, vec![(2, 1), (0, 3), (2, 1), (1, 1), (0, 2), (3, 0)])
        .unwrap();
    assert_eq!(weavatrix_graph::accepted_links(&g, |_| true), vec![(0, 2), (0, 3), (2, 1), (3, 0)]);
    assert_eq!(weavatrix_graph::accepted_links(&g, |e| e.0 != 4), vec![(0, 3), (2, 1), (3, 0)]);
}
