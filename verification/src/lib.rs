//! Deterministic, verified graph core: compact numeric topologies with
//! dual CSR indexes, traversal and path algorithms, interchange formats,
//! generators, and mutable payload graphs with generation-stable keys.

pub mod algo;
pub mod error;
pub mod format;
pub mod generator;
pub mod graph;
pub mod laws;
pub mod matrix;
pub mod model;
pub mod operator;
pub mod payload;
pub mod topology;
mod util;

pub use algo::bidirectional::bidirectional_dijkstra;
pub use algo::signed::{spfa, spfa_filtered, BellmanFord};
pub use algo::community::{label_propagation_communities, Communities};
pub use algo::cores::k_core_numbers;
pub use algo::steiner::{steiner_tree_approximation, SteinerTree};
pub use algo::structure::cycle_basis;
pub use algo::dijkstra::{dijkstra_iter, dijkstra_iter_filtered, Dijkstra, DijkstraWorkspace};
pub use algo::events::{
    depth_first_search, depth_first_search_filtered, DfsEvent, DfsEventWorkspace, TraversalControl,
};
pub use algo::paths::{shortest_path, shortest_path_filtered};
pub use algo::shortest::{dijkstra, dijkstra_filtered, dijkstra_measure, dijkstra_measure_filtered, WeightedPath};
pub use algo::traversal::{bfs, bfs_filtered, dfs, dfs_filtered, reachable, reachable_filtered};
pub use algo::links::accepted_links;
pub use algo::walk::{bfs_iter, bfs_iter_filtered, dfs_iter, dfs_iter_filtered, Bfs, Dfs, TraversalWorkspace};
pub use algo::projection::adjacency;
pub use algo::Direction;
pub use error::{GraphError, Result};
pub use graph::{Graph, GraphBuilder};
pub use matrix::BitMatrix;
pub use model::{Confidence, Edge, EdgeKind, EvidenceKind, Node, NodeId, NodeKind, Provenance};
pub use operator::{complement, union, TopologyProjection};
pub use payload::{
    AcyclicPayloadGraph, FrozenPayloadGraph, KeyedPayloadGraph, PayloadFreezeMap, PayloadGraph, StableEdgeKey, StableNodeKey, StablePayloadGraph,
    UndirectedPayloadGraph,
};
pub use format::dot::{topology_to_dot, undirected_to_dot};
pub use format::dot_read::{topology_from_dot, undirected_from_dot, DotStop};
pub use format::graph6::{graph6_decode, graph6_encode};
pub use format::graphml::{topology_to_graphml, undirected_to_graphml};
pub use format::graphml_read::{graphml_decode, graphml_decode_checked, GraphMlTopology, GraphmlStop};
pub use generator::{
    complete_bipartite_topology, complete_topology, cycle_topology, grid_topology, path_topology,
    star_topology,
};
pub use topology::{EdgeEndpoints, EdgeIndex, GraphModel, NodeIndex, Topology, UndirectedTopology};
