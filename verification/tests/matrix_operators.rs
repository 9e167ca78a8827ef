use weavatrix_graph::{complement, union, BitMatrix, EdgeEndpoints, GraphError, NodeIndex, Topology};

fn ends(t: &Topology) -> Vec<(u32, u32)> {
    t.endpoints().iter().map(|e| (e.source.0, e.target.0)).collect()
}

#[test]
fn bit_matrix_reads_back_writes() {
    let mut m = BitMatrix::try_new(3).unwrap();
    assert_eq!(m.node_count(), 3);
    assert_eq!(m.storage_bytes(), 8);
    assert_eq!(m.insert(NodeIndex(0), NodeIndex(2)), Ok(true));
    assert_eq!(m.insert(NodeIndex(0), NodeIndex(2)), Ok(false));
    assert!(m.contains(NodeIndex(0), NodeIndex(2)));
    assert!(!m.contains(NodeIndex(2), NodeIndex(0)));
    assert!(!m.contains(NodeIndex(7), NodeIndex(0)));
    assert_eq!(m.insert_undirected(NodeIndex(1), NodeIndex(2)), Ok(2));
    assert_eq!(m.edge_count(), 3);
    assert_eq!(m.outgoing(NodeIndex(2)), vec![NodeIndex(1)]);
    assert_eq!(m.incoming(NodeIndex(2)), vec![NodeIndex(0), NodeIndex(1)]);
    assert!(m.remove(NodeIndex(0), NodeIndex(2)));
    assert!(!m.remove(NodeIndex(0), NodeIndex(2)));
    assert_eq!(m.edges(), vec![EdgeEndpoints::new(NodeIndex(1), NodeIndex(2)), EdgeEndpoints::new(NodeIndex(2), NodeIndex(1))]);
    assert_eq!(ends(&m.to_topology().unwrap()), vec![(1, 2), (2, 1)]);
    assert_eq!(
        m.insert(NodeIndex(3), NodeIndex(0)),
        Err(GraphError::InvalidNodeIndex { node: 3, node_count: 3 })
    );
}

#[test]
fn complement_and_union_project_edge_sets() {
    let g = Topology::try_from_usize_edges(3, vec![(0, 1), (1, 2), (1, 2)]).unwrap();
    let c = complement(&g, false).unwrap();
    assert_eq!(ends(c.topology()), vec![(0, 2), (1, 0), (2, 0), (2, 1)]);
    assert_eq!(c.original_nodes(), &[NodeIndex(0), NodeIndex(1), NodeIndex(2)]);
    assert_eq!(c.original_node(NodeIndex(1)), Some(&NodeIndex(1)));
    assert_eq!(c.original_node(NodeIndex(5)), None);
    let with_loops = complement(&g, true).unwrap();
    assert_eq!(with_loops.topology().edge_count(), 7);
    let h = Topology::try_from_usize_edges(4, vec![(3, 0), (0, 1)]).unwrap();
    let u = union(&g, &h).unwrap();
    let (topology, nodes) = u.into_parts();
    assert_eq!(ends(&topology), vec![(0, 1), (1, 2), (3, 0)]);
    assert_eq!(nodes.len(), 4);
}

#[test]
fn bit_matrix_fast_lookups_agree_with_contains() {
    let mut m = BitMatrix::try_new(3).unwrap();
    assert_eq!(m.insert(NodeIndex(0), NodeIndex(2)), Ok(true));
    assert!(m.contains_fast(NodeIndex(0), NodeIndex(2)));
    assert!(!m.contains_fast(NodeIndex(2), NodeIndex(0)));
    assert!(!m.contains_fast(NodeIndex(9), NodeIndex(0)));
    assert!(m.contains_unchecked(NodeIndex(0), NodeIndex(2)));
    assert!(!m.contains_unchecked(NodeIndex(1), NodeIndex(1)));
}
