use weavatrix_graph::{
    bfs, bfs_filtered, bfs_iter, depth_first_search, dfs, dfs_filtered, dfs_iter, dijkstra, dijkstra_filtered,
    dijkstra_iter, dijkstra_measure, reachable, reachable_filtered, shortest_path, shortest_path_filtered, DfsEvent,
    DfsEventWorkspace, Dijkstra, DijkstraWorkspace, Direction, EdgeIndex, NodeIndex, Topology, TraversalControl,
    TraversalWorkspace,
};

fn sample() -> Topology {
    // 0 -> 1 -> 3, 0 -> 2 -> 3, 3 -> 4, 5 isolated
    Topology::try_from_usize_edges(6, vec![(0, 1), (0, 2), (1, 3), (2, 3), (3, 4)]).unwrap()
}

fn ids(v: &[NodeIndex]) -> Vec<u32> {
    v.iter().map(|n| n.0).collect()
}

#[test]
fn breadth_and_depth_first_orders() {
    let g = sample();
    assert_eq!(ids(&bfs(&g, NodeIndex(0))), vec![0, 1, 2, 3, 4]);
    assert_eq!(ids(&dfs(&g, NodeIndex(0))), vec![0, 1, 3, 4, 2]);
    assert_eq!(ids(&bfs(&g, NodeIndex(5))), vec![5]);
    assert!(bfs(&g, NodeIndex(9)).is_empty());
    assert_eq!(ids(&bfs_filtered(&g, NodeIndex(0), Direction::Outgoing, |e| e.0 != 0)), vec![0, 2, 3, 4]);
    assert_eq!(ids(&dfs_filtered(&g, NodeIndex(4), Direction::Incoming, |_| true)), vec![4, 3, 1, 0, 2]);
}

#[test]
fn lazy_walks_match_the_eager_ones() {
    let g = sample();
    let mut walk = bfs_iter(&g, NodeIndex(0), TraversalWorkspace::new());
    let mut seen = Vec::new();
    while let Some(v) = walk.next() {
        seen.push(v);
    }
    assert_eq!(seen, bfs(&g, NodeIndex(0)));
    let workspace = walk.into_workspace();
    let mut walk = dfs_iter(&g, NodeIndex(0), workspace);
    let mut seen = Vec::new();
    while let Some(v) = walk.next() {
        seen.push(v);
    }
    assert_eq!(seen, dfs(&g, NodeIndex(0)));
}

#[test]
fn reachability_and_unweighted_paths() {
    let g = sample();
    assert!(reachable(&g, NodeIndex(0), NodeIndex(4)));
    assert!(!reachable(&g, NodeIndex(4), NodeIndex(0)));
    assert!(reachable_filtered(&g, NodeIndex(4), NodeIndex(0), Direction::Incoming, |_| true));
    assert!(!reachable_filtered(&g, NodeIndex(0), NodeIndex(3), Direction::Outgoing, |e| e.0 >= 2 && e.0 != 3));
    assert_eq!(shortest_path(&g, NodeIndex(0), NodeIndex(4)).map(|p| ids(&p)), Some(vec![0, 1, 3, 4]));
    assert_eq!(shortest_path(&g, NodeIndex(0), NodeIndex(5)), None);
    assert_eq!(
        shortest_path_filtered(&g, NodeIndex(0), NodeIndex(4), Direction::Outgoing, |e| e != EdgeIndex(2)).map(|p| ids(&p)),
        Some(vec![0, 2, 3, 4])
    );
}

#[test]
fn cheapest_routes_and_their_iterator() {
    let g = sample();
    let weights = [5u64, 1, 1, 1, 2];
    let w = dijkstra(&g, NodeIndex(0), NodeIndex(4), |e| weights[e.0 as usize]).unwrap();
    assert_eq!(w.total_cost(), 4);
    assert_eq!(ids(w.nodes()), vec![0, 2, 3, 4]);
    assert_eq!(ids(&w.clone().into_nodes()), vec![0, 2, 3, 4]);
    assert!(dijkstra(&g, NodeIndex(0), NodeIndex(5), |_| 1).is_none());
    let skip = dijkstra_filtered(&g, NodeIndex(0), NodeIndex(4), Direction::Outgoing, |e| {
        if e.0 == 1 { None } else { Some(weights[e.0 as usize]) }
    })
    .unwrap();
    assert_eq!(skip.total_cost(), 8);
    assert!(dijkstra_measure(&g, NodeIndex(0), NodeIndex(4), |_| u64::MAX).is_err());
    let mut search = dijkstra_iter(&g, NodeIndex(0), DijkstraWorkspace::new(), |e| weights[e.0 as usize]);
    let mut order = Vec::new();
    while let Some(Ok((v, c))) = search.next() {
        order.push((v.0, c));
    }
    assert_eq!(order, vec![(0, 0), (2, 1), (3, 2), (4, 4), (1, 5)]);
    let workspace = search.into_workspace();
    assert_eq!(workspace.distance_at(4), Some(4));
    assert_eq!(workspace.predecessor_at(4), Some(NodeIndex(3)));
    assert_eq!(workspace.path_to(NodeIndex(0), NodeIndex(4)).map(|p| ids(&p)), Some(vec![0, 2, 3, 4]));
    let filtered = Dijkstra::filtered(&g, NodeIndex(5), Direction::Outgoing, DijkstraWorkspace::new(), |_| Some(1));
    assert_eq!(filtered.workspace().distance_at(5), Some(0));
}

#[test]
fn depth_first_events_classify_edges() {
    let g = Topology::try_from_usize_edges(3, vec![(0, 1), (1, 2), (2, 0), (0, 2)]).unwrap();
    let mut workspace = DfsEventWorkspace::new();
    let (completed, events) = depth_first_search(&g, vec![NodeIndex(0)], &mut workspace, |_| TraversalControl::Continue);
    assert!(completed);
    assert_eq!(events.first(), Some(&DfsEvent::Discover(NodeIndex(0))));
    assert!(events.contains(&DfsEvent::BackEdge { edge: EdgeIndex(2), source: NodeIndex(2), target: NodeIndex(0) }));
    assert!(events.contains(&DfsEvent::CrossForwardEdge { edge: EdgeIndex(3), source: NodeIndex(0), target: NodeIndex(2) }));
    assert_eq!(events.last(), Some(&DfsEvent::Finish(NodeIndex(0))));
    let (completed, events) = depth_first_search(&g, vec![NodeIndex(0)], &mut workspace, |event| match event {
        DfsEvent::Discover(v) if v.0 == 1 => TraversalControl::Break,
        _ => TraversalControl::Continue,
    });
    assert!(!completed);
    assert_eq!(events.last(), Some(&DfsEvent::Discover(NodeIndex(1))));
}

#[test]
fn depth_first_events_on_a_two_node_cycle() {
    let g = Topology::try_from_usize_edges(2, vec![(0, 1), (1, 0)]).unwrap();
    let mut workspace = DfsEventWorkspace::new();
    let (completed, events) = depth_first_search(&g, vec![NodeIndex(0)], &mut workspace, |_| TraversalControl::Continue);
    assert!(completed);
    assert_eq!(
        events,
        vec![
            DfsEvent::Discover(NodeIndex(0)),
            DfsEvent::TreeEdge { edge: EdgeIndex(0), source: NodeIndex(0), target: NodeIndex(1) },
            DfsEvent::Discover(NodeIndex(1)),
            DfsEvent::BackEdge { edge: EdgeIndex(1), source: NodeIndex(1), target: NodeIndex(0) },
            DfsEvent::Finish(NodeIndex(1)),
            DfsEvent::Finish(NodeIndex(0)),
        ]
    );
}
