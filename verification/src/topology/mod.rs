pub(crate) mod csr;
mod directed;
mod index;
pub mod model;
mod parallel;
mod undirected;

pub use csr::{edge_ints, lemma_pairs_push, pairs};
pub use directed::{builds, capacity_error, GraphModel, Topology};
pub use index::{EdgeEndpoints, EdgeIndex, NodeIndex};
pub use undirected::{ubuilds, UndirectedTopology};
