use crate::error::{GraphError, Result};
use crate::topology::{ubuilds, EdgeEndpoints, EdgeIndex, GraphModel, NodeIndex, UndirectedTopology};
use vstd::prelude::*;

verus! {

/// An undirected topology with a payload on every node and every edge.
pub struct UndirectedPayloadGraph<N, E> {
    nodes: Vec<N>,
    edges: Vec<E>,
    topology: UndirectedTopology,
}

/// The error for a payload list whose length differs from the topology's.
pub open spec fn count_error(category: &'static str, expected: usize, actual: usize) -> Option<GraphError> {
    if expected == actual {
        None
    } else {
        Some(GraphError::PayloadCountMismatch { category, expected, actual })
    }
}

pub(crate) fn validate_count(category: &'static str, expected: usize, actual: usize) -> (r: Result<()>)
    ensures
        match count_error(category, expected, actual) {
            Some(e) => r == Err::<(), GraphError>(e),
            None => r is Ok,
        },
{
    if expected == actual {
        Ok(())
    } else {
        Err(GraphError::PayloadCountMismatch { category, expected, actual })
    }
}

impl<N, E> UndirectedPayloadGraph<N, E> {
    #[verifier::type_invariant]
    closed spec fn inv(self) -> bool {
        &&& self.nodes@.len() == self.topology@.node_count
        &&& self.edges@.len() == self.topology@.edges.len()
    }

    /// The node payloads, by node index.
    pub closed spec fn node_payloads(&self) -> Seq<N> {
        self.nodes@
    }

    /// The edge payloads, by edge index.
    pub closed spec fn edge_payloads(&self) -> Seq<E> {
        self.edges@
    }

    /// The underlying topology's model.
    pub closed spec fn model(&self) -> GraphModel {
        self.topology@
    }

    /// Builds the topology of the given edges over one node per payload,
    /// keeping each edge's payload at its edge index.
    pub fn try_from_edges(nodes: Vec<N>, edges: Vec<(EdgeEndpoints<NodeIndex>, E)>) -> (r: Result<Self>)
        ensures
            match r {
                Ok(g) => exists|t: UndirectedTopology|
                    ubuilds(
                        nodes@.len() as usize,
                        edges@.map_values(|p: (EdgeEndpoints<NodeIndex>, E)| p.0),
                        Ok(t),
                    ) && #[trigger] t@ == g.model(),
                Err(e) => ubuilds(
                    nodes@.len() as usize,
                    edges@.map_values(|p: (EdgeEndpoints<NodeIndex>, E)| p.0),
                    Err(e),
                ),
            },
            r matches Ok(g) ==> g.node_payloads() == nodes@ && g.edge_payloads() == edges@.map_values(
                |p: (EdgeEndpoints<NodeIndex>, E)| p.1,
            ),
    {
        let ghost pairs_in = edges@;
        let mut edges = edges;
        let mut back_ends: Vec<EdgeEndpoints<NodeIndex>> = Vec::new();
        let mut back_payloads: Vec<E> = Vec::new();
        while edges.len() > 0
            invariant
                edges@.len() + back_ends@.len() == pairs_in.len(),
                back_payloads@.len() == back_ends@.len(),
                edges@ == pairs_in.subrange(0, edges@.len() as int),
                forall|i: int|
                    0 <= i < back_ends@.len() ==> #[trigger] back_ends@[i] == pairs_in[pairs_in.len() - 1 - i].0,
                forall|i: int|
                    0 <= i < back_ends@.len() ==> #[trigger] back_payloads@[i] == pairs_in[pairs_in.len() - 1 - i].1,
            decreases edges@.len(),
        {
            let (ends, payload) = edges.pop().unwrap();
            back_ends.push(ends);
            back_payloads.push(payload);
        }
        let mut ends: Vec<EdgeEndpoints<NodeIndex>> = Vec::new();
        let mut payloads: Vec<E> = Vec::new();
        while back_ends.len() > 0
            invariant
                back_payloads@.len() == back_ends@.len(),
                ends@.len() == payloads@.len(),
                ends@.len() + back_ends@.len() == pairs_in.len(),
                forall|i: int|
                    0 <= i < back_ends@.len() ==> #[trigger] back_ends@[i] == pairs_in[pairs_in.len() - 1 - i].0,
                forall|i: int|
                    0 <= i < back_ends@.len() ==> #[trigger] back_payloads@[i] == pairs_in[pairs_in.len() - 1 - i].1,
                forall|i: int| 0 <= i < ends@.len() ==> #[trigger] ends@[i] == pairs_in[i].0,
                forall|i: int| 0 <= i < ends@.len() ==> #[trigger] payloads@[i] == pairs_in[i].1,
            decreases back_ends@.len(),
        {
            let e = back_ends.pop().unwrap();
            let p = back_payloads.pop().unwrap();
            ends.push(e);
            payloads.push(p);
        }
        proof {
            assert(ends@ =~= pairs_in.map_values(|p: (EdgeEndpoints<NodeIndex>, E)| p.0));
            assert(payloads@ =~= pairs_in.map_values(|p: (EdgeEndpoints<NodeIndex>, E)| p.1));
        }
        let topology = UndirectedTopology::try_from_edges(nodes.len(), ends);
        match topology {
            Ok(topology) => {
                let g = UndirectedPayloadGraph { nodes, edges: payloads, topology };
                proof {
                    assert(g.model() == g.topology@);
                }
                Ok(g)
            },
            Err(e) => Err(e),
        }
    }

    /// Reattaches payload lists to a prebuilt topology; each list must have
    /// one entry per node, respectively per edge.
    pub fn try_from_parts(topology: UndirectedTopology, nodes: Vec<N>, edges: Vec<E>) -> (r: Result<Self>)
        ensures
            match count_error("node", topology@.node_count as usize, nodes@.len() as usize) {
                Some(e) => r == Err::<Self, GraphError>(e),
                None => match count_error("edge", topology@.edges.len() as usize, edges@.len() as usize) {
                    Some(e) => r == Err::<Self, GraphError>(e),
                    None => r matches Ok(g) && g.model() == topology@ && g.node_payloads() == nodes@
                        && g.edge_payloads() == edges@,
                },
            },
    {
        match validate_count("node", topology.node_count(), nodes.len()) {
            Err(e) => return Err(e),
            Ok(()) => {},
        }
        match validate_count("edge", topology.edge_count(), edges.len()) {
            Err(e) => return Err(e),
            Ok(()) => {},
        }
        Ok(UndirectedPayloadGraph { nodes, edges, topology })
    }

    pub fn topology(&self) -> (r: &UndirectedTopology)
        ensures
            r@ == self.model(),
    {
        &self.topology
    }

    pub fn nodes(&self) -> (r: &[N])
        ensures
            r@ == self.node_payloads(),
    {
        self.nodes.as_slice()
    }

    pub fn edges(&self) -> (r: &[E])
        ensures
            r@ == self.edge_payloads(),
    {
        self.edges.as_slice()
    }

    /// The payload of node `index`, if it exists.
    pub fn node(&self, index: NodeIndex) -> (r: Option<&N>)
        ensures
            match r {
                Some(p) => index.0 < self.node_payloads().len() && *p == self.node_payloads()[index.0 as int],
                None => index.0 >= self.node_payloads().len(),
            },
    {
        if index.index() < self.nodes.len() {
            Some(&self.nodes[index.index()])
        } else {
            None
        }
    }

    /// The payload of edge `index`, if it exists.
    pub fn edge(&self, index: EdgeIndex) -> (r: Option<&E>)
        ensures
            match r {
                Some(p) => index.0 < self.edge_payloads().len() && *p == self.edge_payloads()[index.0 as int],
                None => index.0 >= self.edge_payloads().len(),
            },
    {
        if index.index() < self.edges.len() {
            Some(&self.edges[index.index()])
        } else {
            None
        }
    }

    /// Mutable access to the payload of node `index`, if it exists.
    pub fn node_mut(&mut self, index: NodeIndex) -> (r: Option<&mut N>)
        ensures
            final(self).model() == old(self).model(),
            final(self).edge_payloads() == old(self).edge_payloads(),
            match r {
                Some(p) => index.0 < old(self).node_payloads().len() && *p == old(self).node_payloads()[index.0 as int],
                None => index.0 >= old(self).node_payloads().len() && final(self).node_payloads() == old(self).node_payloads(),
            },
            r is Some ==> final(self).node_payloads() == old(self).node_payloads().update(
                index.0 as int,
                *final(r.unwrap()),
            ),
    {
        proof {
            use_type_invariant(&*self);
        }
        if index.index() < self.nodes.len() {
            Some(&mut self.nodes[index.index()])
        } else {
            None
        }
    }

    /// Mutable access to the payload of edge `index`, if it exists.
    pub fn edge_mut(&mut self, index: EdgeIndex) -> (r: Option<&mut E>)
        ensures
            final(self).model() == old(self).model(),
            final(self).node_payloads() == old(self).node_payloads(),
            match r {
                Some(p) => index.0 < old(self).edge_payloads().len() && *p == old(self).edge_payloads()[index.0 as int],
                None => index.0 >= old(self).edge_payloads().len() && final(self).edge_payloads() == old(self).edge_payloads(),
            },
            r is Some ==> final(self).edge_payloads() == old(self).edge_payloads().update(
                index.0 as int,
                *final(r.unwrap()),
            ),
    {
        proof {
            use_type_invariant(&*self);
        }
        if index.index() < self.edges.len() {
            Some(&mut self.edges[index.index()])
        } else {
            None
        }
    }

    /// The topology and both payload lists.
    pub fn into_parts(self) -> (r: (UndirectedTopology, Vec<N>, Vec<E>))
        ensures
            r.0@ == self.model(),
            r.1@ == self.node_payloads(),
            r.2@ == self.edge_payloads(),
    {
        (self.topology, self.nodes, self.edges)
    }
}

} // verus!
