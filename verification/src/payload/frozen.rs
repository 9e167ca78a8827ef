use super::directed::PayloadGraph;
use super::keys::{StableEdgeKey, StableNodeKey};
use crate::topology::{EdgeIndex, NodeIndex};
use vstd::prelude::*;

verus! {

/// The index recorded for `slot`, when it was recorded with `generation`.
pub open spec fn lookup<I>(slots: Seq<Option<(u32, I)>>, slot: u32, generation: u32) -> Option<I> {
    if slot < slots.len() {
        match slots[slot as int] {
            Some(p) => if p.0 == generation {
                Some(p.1)
            } else {
                None
            },
            None => None,
        }
    } else {
        None
    }
}

/// Where each live slot of a stable graph went when it was frozen: per
/// slot, the generation it had and its compact index.
#[derive(Debug, Clone, PartialEq, Eq)]
pub struct PayloadFreezeMap {
    nodes: Vec<Option<(u32, NodeIndex)>>,
    edges: Vec<Option<(u32, EdgeIndex)>>,
}

impl PayloadFreezeMap {
    /// The node entry of every slot.
    pub closed spec fn node_slots(&self) -> Seq<Option<(u32, NodeIndex)>> {
        self.nodes@
    }

    /// The edge entry of every slot.
    pub closed spec fn edge_slots(&self) -> Seq<Option<(u32, EdgeIndex)>> {
        self.edges@
    }

    pub(crate) fn from_slots(nodes: Vec<Option<(u32, NodeIndex)>>, edges: Vec<Option<(u32, EdgeIndex)>>) -> (r: Self)
        ensures
            r.node_slots() == nodes@,
            r.edge_slots() == edges@,
    {
        PayloadFreezeMap { nodes, edges }
    }

    /// The compact index of the node `key` named when it was frozen.
    pub fn node(&self, key: StableNodeKey) -> (r: Option<NodeIndex>)
        ensures
            r == lookup(self.node_slots(), key.slot, key.generation),
    {
        let i = key.index();
        if i >= self.nodes.len() {
            return None;
        }
        match self.nodes[i] {
            Some(p) => if p.0 == key.generation {
                Some(p.1)
            } else {
                None
            },
            None => None,
        }
    }

    /// The compact index of the edge `key` named when it was frozen.
    pub fn edge(&self, key: StableEdgeKey) -> (r: Option<EdgeIndex>)
        ensures
            r == lookup(self.edge_slots(), key.slot, key.generation),
    {
        let i = key.index();
        if i >= self.edges.len() {
            return None;
        }
        match self.edges[i] {
            Some(p) => if p.0 == key.generation {
                Some(p.1)
            } else {
                None
            },
            None => None,
        }
    }
}

/// A frozen stable graph: the compact payload graph and the map from stable
/// keys to compact indexes.
pub struct FrozenPayloadGraph<N, E> {
    graph: PayloadGraph<N, E>,
    indices: PayloadFreezeMap,
}

impl<N, E> FrozenPayloadGraph<N, E> {
    /// The compact graph.
    pub closed spec fn frozen(&self) -> PayloadGraph<N, E> {
        self.graph
    }

    /// The key map.
    pub closed spec fn key_map(&self) -> PayloadFreezeMap {
        self.indices
    }

    pub(crate) fn from_parts(graph: PayloadGraph<N, E>, indices: PayloadFreezeMap) -> (r: Self)
        ensures
            r.frozen() == graph,
            r.key_map() == indices,
    {
        FrozenPayloadGraph { graph, indices }
    }

    pub fn graph(&self) -> (r: &PayloadGraph<N, E>)
        ensures
            *r == self.frozen(),
    {
        &self.graph
    }

    pub fn indices(&self) -> (r: &PayloadFreezeMap)
        ensures
            *r == self.key_map(),
    {
        &self.indices
    }

    pub fn into_parts(self) -> (r: (PayloadGraph<N, E>, PayloadFreezeMap))
        ensures
            r.0 == self.frozen(),
            r.1 == self.key_map(),
    {
        (self.graph, self.indices)
    }
}

} // verus!
