use super::csr::{edge_ints, pairs, reports_first_invalid, Csr};
use super::index::{EdgeEndpoints, EdgeIndex, NodeIndex};
use super::model::{adj_list, endpoints_valid};
use crate::error::{GraphError, Result};
use vstd::prelude::*;

verus! {

/// The abstract content of a directed topology: a node count and the
/// `(source, target)` pair of every edge, in edge-index order.
pub struct GraphModel {
    pub node_count: nat,
    pub edges: Seq<(int, int)>,
}

impl GraphModel {
    /// Every endpoint names a node.
    pub open spec fn valid(self) -> bool {
        endpoints_valid(self.edges, self.node_count as int)
    }

    /// The outgoing edges of `v`, in increasing edge order.
    pub open spec fn out_edges(self, v: int) -> Seq<int> {
        adj_list(self.edges, self.edges.len(), 0, v)
    }

    /// The incoming edges of `v`, in increasing edge order.
    pub open spec fn in_edges(self, v: int) -> Seq<int> {
        adj_list(self.edges, self.edges.len(), 1, v)
    }
}

/// An immutable directed numeric graph: edges keep their input order, and
/// outgoing and incoming compressed indexes list each node's edges.
#[derive(Debug, PartialEq, Eq)]
pub struct Topology {
    node_count: usize,
    endpoints: Vec<EdgeEndpoints<NodeIndex>>,
    outgoing: Csr,
    incoming: Csr,
}

/// The outcome of validating a node and edge count against compact capacity.
pub open spec fn capacity_error(node_count: usize, edge_count: usize) -> Option<GraphError> {
    if node_count > u32::MAX {
        Some(GraphError::IndexCapacityExceeded { category: "nodes", count: node_count })
    } else if edge_count > u32::MAX {
        Some(GraphError::IndexCapacityExceeded { category: "edges", count: edge_count })
    } else {
        None
    }
}

/// What building a topology from `endpoints` over `node_count` nodes yields.
pub open spec fn builds(
    node_count: usize,
    endpoints: Seq<EdgeEndpoints<NodeIndex>>,
    r: Result<Topology>,
) -> bool {
    match capacity_error(node_count, endpoints.len() as usize) {
        Some(e) => r == Err::<Topology, GraphError>(e),
        None => match r {
            Ok(t) => endpoints_valid(pairs(endpoints), node_count as int) && t@ == GraphModel {
                node_count: node_count as nat,
                edges: pairs(endpoints),
            },
            Err(e) => reports_first_invalid(pairs(endpoints), node_count as int, e),
        },
    }
}

impl Clone for Topology {
    fn clone(&self) -> (r: Self)
        ensures
            r@ == self@,
    {
        proof {
            use_type_invariant(self);
        }
        Topology {
            node_count: self.node_count,
            endpoints: crate::util::copied(self.endpoints.as_slice()),
            outgoing: self.outgoing.duplicate(),
            incoming: self.incoming.duplicate(),
        }
    }
}

impl View for Topology {
    type V = GraphModel;

    closed spec fn view(&self) -> GraphModel {
        GraphModel { node_count: self.node_count as nat, edges: pairs(self.endpoints@) }
    }
}

impl Topology {
    #[verifier::type_invariant]
    closed spec fn inv(self) -> bool {
        &&& self.node_count <= u32::MAX
        &&& self.endpoints@.len() <= u32::MAX
        &&& endpoints_valid(pairs(self.endpoints@), self.node_count as int)
        &&& self.outgoing.indexes(pairs(self.endpoints@), 0, self.node_count as nat)
        &&& self.incoming.indexes(pairs(self.endpoints@), 1, self.node_count as nat)
    }

    /// Checks that the node and edge counts fit compact `u32` indexes.
    pub fn validate_capacity(node_count: usize, edge_count: usize) -> (r: Result<()>)
        ensures
            match capacity_error(node_count, edge_count) {
                Some(e) => r == Err::<(), GraphError>(e),
                None => r is Ok,
            },
    {
        if node_count > u32::MAX as usize {
            return Err(GraphError::IndexCapacityExceeded { category: "nodes", count: node_count });
        }
        if edge_count > u32::MAX as usize {
            return Err(GraphError::IndexCapacityExceeded { category: "edges", count: edge_count });
        }
        Ok(())
    }

    /// Builds a validated topology whose edge indexes follow `edges`.
    ///
    /// # Errors
    ///
    /// Returns an error for excessive capacity or an invalid endpoint.
    pub fn try_from_edges(node_count: usize, edges: Vec<EdgeEndpoints<NodeIndex>>) -> (r: Result<
        Self,
    >)
        ensures
            builds(node_count, edges@, r),
    {
        Self::try_from_collected(node_count, edges)
    }

    pub(crate) fn try_from_collected(node_count: usize, endpoints: Vec<EdgeEndpoints<NodeIndex>>) -> (r:
        Result<Self>)
        ensures
            builds(node_count, endpoints@, r),
    {
        match Self::validate_capacity(node_count, endpoints.len()) {
            Err(e) => return Err(e),
            Ok(()) => {},
        }
        let (outgoing, incoming) = match Csr::try_build_pair(node_count, endpoints.as_slice()) {
            Ok(pair) => pair,
            Err(e) => return Err(e),
        };
        Ok(Self::from_parts(node_count, endpoints, outgoing, incoming))
    }

    pub(crate) fn from_parts(
        node_count: usize,
        endpoints: Vec<EdgeEndpoints<NodeIndex>>,
        outgoing: Csr,
        incoming: Csr,
    ) -> (r: Self)
        requires
            node_count <= u32::MAX,
            endpoints@.len() <= u32::MAX,
            endpoints_valid(pairs(endpoints@), node_count as int),
            outgoing.indexes(pairs(endpoints@), 0, node_count as nat),
            incoming.indexes(pairs(endpoints@), 1, node_count as nat),
        ensures
            r@ == (GraphModel { node_count: node_count as nat, edges: pairs(endpoints@) }),
    {
        Topology { node_count, endpoints, outgoing, incoming }
    }

    /// Builds a topology from plain `(source, target)` positions.
    ///
    /// # Errors
    ///
    /// Returns an error for excessive capacity or an invalid endpoint.
    pub fn try_from_usize_edges(node_count: usize, edges: Vec<(usize, usize)>) -> (r: Result<Self>)
        ensures
            match r {
                Ok(t) => {
                    &&& t@.node_count == node_count
                    &&& t@.edges == edges@.map_values(|p: (usize, usize)| (p.0 as int, p.1 as int))
                },
                Err(e) => {
                    ||| capacity_error(node_count, edges@.len() as usize) == Some(e)
                    ||| exists|i: int|
                        0 <= i < edges@.len() && (edges@[i].0 >= node_count || edges@[i].1
                            >= node_count) && e == (GraphError::InvalidTopologyEndpoint {
                            edge: i as usize,
                            node: if edges@[i].0 >= node_count {
                                edges@[i].0
                            } else {
                                edges@[i].1
                            },
                            node_count,
                        }) && forall|j: int|
                            0 <= j < i ==> edges@[j].0 < node_count && edges@[j].1 < node_count
                },
            },
    {
        match Self::validate_capacity(node_count, edges.len()) {
            Err(e) => return Err(e),
            Ok(()) => {},
        }
        let mut endpoints: Vec<EdgeEndpoints<NodeIndex>> = Vec::new();
        let mut i: usize = 0;
        while i < edges.len()
            invariant
                i <= edges@.len(),
                node_count <= u32::MAX,
                endpoints@.len() == i,
                forall|j: int| 0 <= j < i ==> #[trigger] edges@[j].0 < node_count && edges@[j].1 < node_count,
                forall|j: int|
                    0 <= j < i ==> #[trigger] endpoints@[j] == (EdgeEndpoints {
                        source: NodeIndex(edges@[j].0 as u32),
                        target: NodeIndex(edges@[j].1 as u32),
                    }),
            decreases edges@.len() - i,
        {
            let (source, target) = edges[i];
            proof {
                assert(edges@[i as int] == (source, target));
            }
            if source >= node_count || target >= node_count {
                let node = if source >= node_count {
                    source
                } else {
                    target
                };
                let e = GraphError::InvalidTopologyEndpoint { edge: i, node, node_count };
                proof {
                    let ii = i as int;
                    assert(0 <= ii < edges@.len() && (edges@[ii].0 >= node_count || edges@[ii].1
                        >= node_count) && e == (GraphError::InvalidTopologyEndpoint {
                        edge: ii as usize,
                        node: if edges@[ii].0 >= node_count {
                            edges@[ii].0
                        } else {
                            edges@[ii].1
                        },
                        node_count,
                    }) && forall|j: int|
                        0 <= j < ii ==> edges@[j].0 < node_count && edges@[j].1 < node_count);
                }
                return Err(e);
            }
            endpoints.push(
                EdgeEndpoints::new(NodeIndex::new(source as u32), NodeIndex::new(target as u32)),
            );
            i = i + 1;
        }
        let ghost expected = edges@.map_values(|p: (usize, usize)| (p.0 as int, p.1 as int));
        proof {
            assert(pairs(endpoints@) =~= expected);
        }
        let r = Self::try_from_collected(node_count, endpoints);
        proof {
            if r is Err {
                let e = r->Err_0;
                let f = choose|f: int|
                    0 <= f < expected.len() && super::csr::invalid_at(expected, node_count as int, f)
                        && (forall|g: int|
                        0 <= g < f ==> !super::csr::invalid_at(expected, node_count as int, g))
                        && e == super::csr::endpoint_error(expected, node_count as int, f);
                assert(edges@[f].0 < node_count && edges@[f].1 < node_count);
            }
        }
        r
    }

    /// The number of nodes; every topology's endpoints name existing nodes.
    pub fn node_count(&self) -> (r: usize)
        ensures
            r == self@.node_count,
            self@.valid(),
            self@.node_count <= u32::MAX,
            self@.edges.len() <= u32::MAX,
    {
        proof {
            use_type_invariant(self);
        }
        self.node_count
    }

    pub fn edge_count(&self) -> (r: usize)
        ensures
            r == self@.edges.len(),
            self@.valid(),
            self@.node_count <= u32::MAX,
            self@.edges.len() <= u32::MAX,
    {
        proof {
            use_type_invariant(self);
        }
        self.endpoints.len()
    }

    /// One past the largest node slot; compact topologies use every slot.
    pub fn node_bound(&self) -> (r: usize)
        ensures
            r == self@.node_count,
    {
        self.node_count
    }

    /// One past the largest edge slot.
    pub fn edge_bound(&self) -> (r: usize)
        ensures
            r == self@.edges.len(),
    {
        self.endpoints.len()
    }

    pub fn contains_node(&self, node: NodeIndex) -> (r: bool)
        ensures
            r == (node.0 < self@.node_count),
    {
        node.index() < self.node_count
    }

    pub fn contains_edge(&self, edge: EdgeIndex) -> (r: bool)
        ensures
            r == (edge.0 < self@.edges.len()),
    {
        edge.index() < self.endpoints.len()
    }

    /// The endpoints of `edge`, when it exists.
    pub fn edge_endpoints(&self, edge: EdgeIndex) -> (r: Option<EdgeEndpoints<NodeIndex>>)
        ensures
            match r {
                Some(ends) => edge.0 < self@.edges.len() && self@.edges[edge.0 as int] == (
                    ends.source.0 as int,
                    ends.target.0 as int,
                ),
                None => edge.0 >= self@.edges.len(),
            },
    {
        if edge.index() < self.endpoints.len() {
            Some(self.endpoints[edge.index()])
        } else {
            None
        }
    }

    /// Every edge's endpoints, in edge order.
    pub fn endpoints(&self) -> (r: &[EdgeEndpoints<NodeIndex>])
        ensures
            pairs(r@) == self@.edges,
    {
        self.endpoints.as_slice()
    }

    /// The outgoing edges of `node` in increasing edge order; empty for an
    /// unknown node.
    pub fn outgoing_edges(&self, node: NodeIndex) -> (r: &[EdgeIndex])
        ensures
            edge_ints(r@) == if node.0 < self@.node_count {
                self@.out_edges(node.0 as int)
            } else {
                Seq::empty()
            },
    {
        proof {
            use_type_invariant(self);
        }
        let r = self.outgoing.get(node.index());
        proof {
            if node.0 >= self@.node_count {
                assert(edge_ints(r@) =~= Seq::empty());
            }
        }
        r
    }

    /// The incoming edges of `node` in increasing edge order; empty for an
    /// unknown node.
    pub fn incoming_edges(&self, node: NodeIndex) -> (r: &[EdgeIndex])
        ensures
            edge_ints(r@) == if node.0 < self@.node_count {
                self@.in_edges(node.0 as int)
            } else {
                Seq::empty()
            },
    {
        proof {
            use_type_invariant(self);
        }
        let r = self.incoming.get(node.index());
        proof {
            if node.0 >= self@.node_count {
                assert(edge_ints(r@) =~= Seq::empty());
            }
        }
        r
    }

    /// Every node index, in increasing order.
    pub fn node_indices(&self) -> (r: Vec<NodeIndex>)
        ensures
            r@.len() == self@.node_count,
            forall|i: int| 0 <= i < r@.len() ==> #[trigger] r@[i].0 == i,
    {
        proof {
            use_type_invariant(self);
        }
        let mut nodes: Vec<NodeIndex> = Vec::new();
        let mut i: usize = 0;
        while i < self.node_count
            invariant
                i <= self.node_count <= u32::MAX,
                nodes@.len() == i,
                forall|j: int| 0 <= j < i ==> #[trigger] nodes@[j].0 == j,
            decreases self.node_count - i,
        {
            nodes.push(NodeIndex::new(i as u32));
            i = i + 1;
        }
        nodes
    }
}

} // verus!
