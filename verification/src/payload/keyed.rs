//! A stable payload graph whose nodes are also found by integer keys.
use super::keys::{StableEdgeKey, StableNodeKey};
use super::stable::{live_edges, live_nodes, StableModel, StablePayloadGraph};
use crate::error::{GraphError, Result};
use std::collections::HashMap;
use vstd::prelude::*;

verus! {

broadcast use vstd::std_specs::hash::group_hash_axioms;

/// A generation-stable payload graph with a lookup from integer keys to
/// node handles. Algorithms keep using the compact handles of the inner
/// graph.
pub struct KeyedPayloadGraph<N, E> {
    graph: StablePayloadGraph<N, E>,
    keys: HashMap<u64, StableNodeKey>,
}

impl<N, E> View for KeyedPayloadGraph<N, E> {
    type V = (StableModel<N, E>, Map<u64, StableNodeKey>);

    closed spec fn view(&self) -> (StableModel<N, E>, Map<u64, StableNodeKey>) {
        (self.graph@, self.keys@)
    }
}

impl<N, E> KeyedPayloadGraph<N, E> {
    /// The inner graph is well formed.
    pub closed spec fn wf(&self) -> bool {
        self.graph.wf()
    }

    /// The handle that `key` maps to, when it maps to one.
    pub open spec fn handle_of(self, key: u64) -> Option<StableNodeKey> {
        if self@.1.contains_key(key) {
            Some(self@.1[key])
        } else {
            None
        }
    }

    /// An empty keyed graph.
    pub fn new() -> (r: Self)
        ensures
            r.wf(),
            r@.0.nodes.len() == 0,
            r@.0.edges.len() == 0,
            r@.0.free_nodes.len() == 0,
            r@.0.free_edges.len() == 0,
            r@.1 == Map::<u64, StableNodeKey>::empty(),
    {
        KeyedPayloadGraph { graph: StablePayloadGraph::new(), keys: HashMap::new() }
    }

    /// An empty keyed graph; the capacities are allocation hints.
    pub fn with_capacity(nodes: usize, edges: usize) -> (r: Self)
        ensures
            r.wf(),
            r@.0.nodes.len() == 0,
            r@.0.edges.len() == 0,
            r@.0.free_nodes.len() == 0,
            r@.0.free_edges.len() == 0,
            r@.1 == Map::<u64, StableNodeKey>::empty(),
    {
        KeyedPayloadGraph { graph: StablePayloadGraph::with_capacity(nodes, edges), keys: HashMap::with_capacity(nodes) }
    }

    /// Inserts `key` with `payload`, or replaces the payload of the live
    /// node `key` maps to without changing its handle; returns the handle
    /// and the payload it replaced. A key whose node is gone is mapped to
    /// a freshly added node.
    ///
    /// # Errors
    ///
    /// Returns the inner graph's error when no node slot is left.
    pub fn insert_node(&mut self, key: u64, payload: N) -> (r: Result<(StableNodeKey, Option<N>)>)
        requires
            old(self).wf(),
        ensures
            final(self).wf(),
            match old(self).handle_of(key) {
                Some(h) if old(self)@.0.has_node(h) => {
                    &&& r == Ok::<(StableNodeKey, Option<N>), GraphError>((h, old(self)@.0.nodes[h.slot as int].value))
                    &&& final(self)@.0 == old(self)@.0.with_node_value(h.slot as int, payload)
                    &&& final(self)@.1 == old(self)@.1
                },
                _ => {
                    &&& old(self)@.0.add_node_result(
                        payload,
                        final(self)@.0,
                        match r {
                            Ok((h, _)) => Ok(h),
                            Err(e) => Err(e),
                        },
                    )
                    &&& match r {
                        Ok((h, old_payload)) => old_payload is None && final(self)@.1 == old(self)@.1.insert(key, h),
                        Err(_) => final(self)@.1 == old(self)@.1.remove(key),
                    }
                },
            },
    {
        match self.keys.get(&key) {
            Some(found) => {
                let handle = *found;
                if self.graph.contains_node(handle) {
                    let previous = self.graph.replace_node(handle, payload);
                    return Ok((handle, previous));
                }
                self.keys.remove(&key);
            },
            None => {},
        }
        let ghost mid = self.keys@;
        proof {
            assert(mid == old(self)@.1.remove(key));
        }
        match self.graph.add_node(payload) {
            Ok(handle) => {
                self.keys.insert(key, handle);
                Ok((handle, None))
            },
            Err(e) => Err(e),
        }
    }

    /// The handle `key` maps to.
    pub fn node_key(&self, key: u64) -> (r: Option<StableNodeKey>)
        ensures
            r == self.handle_of(key),
    {
        match self.keys.get(&key) {
            Some(h) => Some(*h),
            None => None,
        }
    }

    /// The payload of the live node `key` maps to.
    pub fn node(&self, key: u64) -> (r: Option<&N>)
        requires
            self.wf(),
        ensures
            match self.handle_of(key) {
                Some(h) => match r {
                    Some(p) => self@.0.has_node(h) && self@.0.nodes[h.slot as int].value == Some(*p),
                    None => !self@.0.has_node(h),
                },
                None => r is None,
            },
    {
        match self.node_key(key) {
            Some(h) => self.graph.node(h),
            None => None,
        }
    }

    /// Mutable access to the payload of the live node `key` maps to.
    pub fn node_mut(&mut self, key: u64) -> (r: Option<&mut N>)
        requires
            old(self).wf(),
        ensures
            r is Some <==> (old(self).handle_of(key) matches Some(h) && old(self)@.0.has_node(h)),
            final(self)@.1 == old(self)@.1,
            r is None ==> final(self)@ == old(self)@ && final(self).wf(),
            r is Some ==> Some(*r.unwrap()) == old(self)@.0.nodes[old(self)@.1[key].slot as int].value,
            r is Some ==> final(self)@.0 == old(self)@.0.with_node_value(
                old(self)@.1[key].slot as int,
                *final(r.unwrap()),
            ),
    {
        let handle = match self.keys.get(&key) {
            Some(h) => *h,
            None => {
                return None;
            },
        };
        self.graph.node_mut(handle)
    }

    /// Adds an edge with `payload` from the node `source` maps to to the
    /// node `target` maps to.
    ///
    /// # Errors
    ///
    /// A key that maps to no node gives `MissingKeyedNode`, the source
    /// checked first, and changes nothing; otherwise the inner graph's
    /// errors for dead handles or exhausted edge slots.
    pub fn add_edge(&mut self, source: u64, target: u64, payload: E) -> (r: Result<StableEdgeKey>)
        requires
            old(self).wf(),
        ensures
            final(self).wf(),
            final(self)@.1 == old(self)@.1,
            old(self).handle_of(source) is None ==> r == Err::<StableEdgeKey, GraphError>(
                GraphError::MissingKeyedNode { endpoint: "source" },
            ) && final(self)@ == old(self)@,
            old(self).handle_of(source) is Some && old(self).handle_of(target) is None ==> r == Err::<
                StableEdgeKey,
                GraphError,
            >(GraphError::MissingKeyedNode { endpoint: "target" }) && final(self)@ == old(self)@,
            old(self).handle_of(source) matches Some(s) ==> old(self).handle_of(target) matches Some(t)
                ==> old(self)@.0.add_edge_result(s, t, payload, final(self)@.0, r),
    {
        let s = match self.keys.get(&source) {
            Some(h) => *h,
            None => {
                return Err(GraphError::MissingKeyedNode { endpoint: "source" });
            },
        };
        let t = match self.keys.get(&target) {
            Some(h) => *h,
            None => {
                return Err(GraphError::MissingKeyedNode { endpoint: "target" });
            },
        };
        self.graph.add_edge(s, t, payload)
    }

    /// Unmaps `key` and removes the node it mapped to, with its edges;
    /// returns the node's payload.
    pub fn remove_node(&mut self, key: u64) -> (r: Option<N>)
        requires
            old(self).wf(),
        ensures
            final(self).wf(),
            final(self)@.1 == old(self)@.1.remove(key),
            old(self).handle_of(key) is None ==> r is None && final(self)@.0 == old(self)@.0,
            old(self).handle_of(key) matches Some(h) ==> {
                &&& !old(self)@.0.has_node(h) ==> r is None && final(self)@.0 == old(self)@.0
                &&& old(self)@.0.has_node(h) ==> r == old(self)@.0.nodes[h.slot as int].value && exists|xs: Seq<u32>|
                    {
                        &&& forall|i: int, j: int| 0 <= i < j < xs.len() ==> xs[i] < xs[j]
                        &&& forall|y: u32| #[trigger] xs.contains(y) <==> (old(self)@.0.nodes[h.slot as int].outgoing.contains(y)
                            || old(self)@.0.nodes[h.slot as int].incoming.contains(y))
                        &&& final(self)@.0 == old(self)@.0.drop_edges(xs).drop_node(h.slot as int)
                    }
            },
    {
        match self.keys.remove(&key) {
            Some(h) => self.graph.remove_node(h),
            None => None,
        }
    }

    /// The inner graph.
    pub fn graph(&self) -> (r: &StablePayloadGraph<N, E>)
        requires
            self.wf(),
        ensures
            r.wf(),
            r@ == self@.0,
    {
        &self.graph
    }

    /// How many nodes are live.
    pub fn node_count(&self) -> (r: usize)
        requires
            self.wf(),
        ensures
            r == live_nodes(self@.0.nodes),
    {
        self.graph.node_count()
    }

    /// How many edges are live.
    pub fn edge_count(&self) -> (r: usize)
        requires
            self.wf(),
        ensures
            r == live_edges(self@.0.edges),
    {
        self.graph.edge_count()
    }

    /// The inner graph and the key map.
    pub fn into_parts(self) -> (r: (StablePayloadGraph<N, E>, HashMap<u64, StableNodeKey>))
        ensures
            r.0@ == self@.0,
            r.1@ == self@.1,
            self.wf() ==> r.0.wf(),
    {
        (self.graph, self.keys)
    }
}

} // verus!
