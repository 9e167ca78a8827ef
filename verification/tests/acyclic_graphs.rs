use weavatrix_graph::{AcyclicPayloadGraph, GraphError, StablePayloadGraph};

#[test]
fn acyclic_graph_refuses_cycle_closing_edges() {
    let mut g: AcyclicPayloadGraph<&str, u32> = AcyclicPayloadGraph::new();
    let a = g.add_node("a").unwrap();
    let b = g.add_node("b").unwrap();
    let c = g.add_node("c").unwrap();
    let ab = g.add_edge(a, b, 1).unwrap();
    g.add_edge(b, c, 2).unwrap();
    assert_eq!(g.add_edge(c, a, 3), Err(GraphError::CycleWouldBeCreated));
    assert_eq!(g.add_edge(a, a, 4), Err(GraphError::CycleWouldBeCreated));
    assert!(g.add_edge(a, c, 5).is_ok());
    assert_eq!(g.graph().edge_count(), 3);
    assert_eq!(g.edge(ab), Some(&1));
    if let Some(p) = g.edge_mut(ab) {
        *p = 9;
    }
    assert_eq!(g.edge(ab), Some(&9));
    assert_eq!(g.node(b), Some(&"b"));
}

#[test]
fn acyclic_graph_moves_edges_only_when_no_cycle_closes() {
    let mut g: AcyclicPayloadGraph<u8, u8> = AcyclicPayloadGraph::new();
    let a = g.add_node(0).unwrap();
    let b = g.add_node(1).unwrap();
    let c = g.add_node(2).unwrap();
    let ab = g.add_edge(a, b, 0).unwrap();
    let bc = g.add_edge(b, c, 0).unwrap();
    assert_eq!(g.set_edge_endpoints(bc, b, a), Err(GraphError::CycleWouldBeCreated));
    assert_eq!(g.set_edge_endpoints(ab, b, a), Ok(true));
    assert_eq!(g.remove_edge(bc), Some(0));
    assert_eq!(g.add_edge(c, b, 0).map(|_| ()), Ok(()));
    assert_eq!(g.remove_node(a), Some(0));
    assert_eq!(g.into_inner().node_count(), 2);
}

#[test]
fn acyclic_graph_wraps_only_acyclic_graphs() {
    let mut cyclic: StablePayloadGraph<(), ()> = StablePayloadGraph::new();
    let a = cyclic.add_node(()).unwrap();
    let b = cyclic.add_node(()).unwrap();
    cyclic.add_edge(a, b, ()).unwrap();
    cyclic.add_edge(b, a, ()).unwrap();
    assert_eq!(AcyclicPayloadGraph::try_from_graph(cyclic).err(), Some(GraphError::CycleWouldBeCreated));
    let mut line: StablePayloadGraph<(), ()> = StablePayloadGraph::new();
    let a = line.add_node(()).unwrap();
    let b = line.add_node(()).unwrap();
    line.add_edge(a, b, ()).unwrap();
    let wrapped = AcyclicPayloadGraph::try_from_graph(line).unwrap();
    assert_eq!(wrapped.graph().edge_count(), 1);
}
