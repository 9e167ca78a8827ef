//! The evidence graph: nodes ordered by identifier, edges in one canonical
//! order, and a compact topology over their positions.
pub mod order;
pub mod canonical;
pub mod builder;
pub mod store;

pub use builder::GraphBuilder;
pub use store::{Graph, GraphView};
