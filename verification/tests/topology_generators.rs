use weavatrix_graph::{
    complete_bipartite_topology, complete_topology, cycle_topology, grid_topology, path_topology, star_topology,
    EdgeEndpoints, EdgeIndex, GraphError, NodeIndex, Topology, UndirectedTopology,
};

fn ends(t: &Topology) -> Vec<(u32, u32)> {
    t.endpoints().iter().map(|e| (e.source.0, e.target.0)).collect()
}

#[test]
fn topology_indexes_outgoing_and_incoming_edges() {
    let t = Topology::try_from_usize_edges(4, vec![(0, 1), (2, 1), (0, 3), (1, 1)]).unwrap();
    assert_eq!(t.node_count(), 4);
    assert_eq!(t.edge_count(), 4);
    assert_eq!(t.outgoing_edges(NodeIndex(0)), &[EdgeIndex(0), EdgeIndex(2)]);
    assert_eq!(t.incoming_edges(NodeIndex(1)), &[EdgeIndex(0), EdgeIndex(1), EdgeIndex(3)]);
    assert!(t.outgoing_edges(NodeIndex(9)).is_empty());
    assert_eq!(t.edge_endpoints(EdgeIndex(1)), Some(EdgeEndpoints::new(NodeIndex(2), NodeIndex(1))));
    assert_eq!(t.edge_endpoints(EdgeIndex(4)), None);
    assert!(t.contains_node(NodeIndex(3)) && !t.contains_node(NodeIndex(4)));
    assert!(t.contains_edge(EdgeIndex(3)) && !t.contains_edge(EdgeIndex(4)));
    assert_eq!(t.node_indices(), (0..4).map(NodeIndex).collect::<Vec<_>>());
    assert_eq!(t.node_bound(), 4);
    assert_eq!(t.edge_bound(), 4);
}

#[test]
fn topology_refuses_endpoints_outside_the_nodes() {
    assert_eq!(
        Topology::try_from_usize_edges(2, vec![(0, 1), (1, 5)]).err(),
        Some(GraphError::InvalidTopologyEndpoint { edge: 1, node: 5, node_count: 2 })
    );
    assert_eq!(
        Topology::validate_capacity(usize::MAX, 0).err(),
        Some(GraphError::IndexCapacityExceeded { category: "nodes", count: usize::MAX })
    );
}

#[test]
fn parallel_builds_agree_with_the_sequential_build() {
    let edges: Vec<_> = (0..50u32).map(|i| EdgeEndpoints::new(NodeIndex(i % 7), NodeIndex((i * 3) % 7))).collect();
    let sequential = Topology::try_from_edges(7, edges.clone()).unwrap();
    for built in [
        Topology::try_from_edges_auto(7, edges.clone()).unwrap(),
        Topology::try_from_edges_parallel(7, edges.clone()).unwrap(),
        Topology::try_from_edges_parallel_unordered(7, edges.clone()).unwrap(),
        Topology::try_from_edges_parallel_fast(7, edges.clone()).unwrap(),
        Topology::try_from_edges_parallel_unordered_fast(7, edges.clone()).unwrap(),
    ] {
        assert_eq!(ends(&built), ends(&sequential));
        for v in 0..7 {
            assert_eq!(built.outgoing_edges(NodeIndex(v)), sequential.outgoing_edges(NodeIndex(v)));
        }
    }
}

#[test]
fn undirected_topology_lists_incident_edges() {
    let t = UndirectedTopology::try_from_edges(
        3,
        vec![EdgeEndpoints::new(NodeIndex(0), NodeIndex(1)), EdgeEndpoints::new(NodeIndex(2), NodeIndex(2))],
    )
    .unwrap();
    assert_eq!(t.incident_edges(NodeIndex(1)), &[EdgeIndex(0)]);
    assert_eq!(t.incident_edges(NodeIndex(2)), &[EdgeIndex(1)]);
    assert_eq!(t.incident_edge_at(NodeIndex(0), 0), Some(EdgeIndex(0)));
    assert_eq!(t.incident_edge_at(NodeIndex(0), 1), None);
    assert_eq!(t.opposite(EdgeIndex(0), NodeIndex(1)), Some(NodeIndex(0)));
    assert_eq!(t.opposite(EdgeIndex(0), NodeIndex(2)), None);
}

#[test]
fn generators_follow_their_shapes() {
    assert_eq!(ends(&path_topology(4).unwrap()), vec![(0, 1), (1, 2), (2, 3)]);
    assert_eq!(ends(&cycle_topology(3).unwrap()), vec![(0, 1), (1, 2), (2, 0)]);
    assert_eq!(ends(&cycle_topology(1).unwrap()), vec![(0, 0)]);
    assert!(ends(&cycle_topology(0).unwrap()).is_empty());
    assert_eq!(ends(&star_topology(3).unwrap()), vec![(0, 1), (0, 2)]);
    assert_eq!(ends(&complete_topology(3).unwrap()), vec![(0, 1), (0, 2), (1, 0), (1, 2), (2, 0), (2, 1)]);
    assert_eq!(ends(&complete_bipartite_topology(2, 2).unwrap()), vec![(0, 2), (0, 3), (1, 2), (1, 3)]);
    let grid = grid_topology(2, 2).unwrap();
    assert_eq!(grid.node_count(), 4);
    assert_eq!(grid.edge_count(), 4);
    assert_eq!(grid_topology(usize::MAX, 2).err(), Some(GraphError::ArithmeticOverflow { operation: "grid dimensions" }));
}
