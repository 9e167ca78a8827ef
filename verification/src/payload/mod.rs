pub mod acyclic;
pub mod directed;
pub mod frozen;
pub mod keyed;
pub mod keys;
pub mod stable;
pub mod undirected;

pub use acyclic::AcyclicPayloadGraph;
pub use directed::PayloadGraph;
pub use frozen::{FrozenPayloadGraph, PayloadFreezeMap};
pub use keyed::KeyedPayloadGraph;
pub use keys::{StableEdgeKey, StableNodeKey};
pub use stable::StablePayloadGraph;
pub use undirected::UndirectedPayloadGraph;
