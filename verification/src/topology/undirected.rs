use super::csr::{edge_ints, pairs, reports_first_invalid, saturating_double, Csr};
use super::directed::{capacity_error, GraphModel, Topology};
use super::index::{EdgeEndpoints, EdgeIndex, NodeIndex};
use super::model::{adj_list, endpoints_valid, incidences};
use crate::error::{GraphError, Result};
use vstd::prelude::*;

verus! {

impl GraphModel {
    /// The edges incident to `v` in increasing edge order; a self-loop
    /// appears once.
    pub open spec fn incident(self, v: int) -> Seq<int> {
        adj_list(self.edges, self.edges.len(), 2, v)
    }

    /// The endpoint of edge `e` opposite `v`, when `v` is an endpoint.
    pub open spec fn opposite(self, e: int, v: int) -> Option<int> {
        if 0 <= e < self.edges.len() && self.edges[e].0 == v {
            Some(self.edges[e].1)
        } else if 0 <= e < self.edges.len() && self.edges[e].1 == v {
            Some(self.edges[e].0)
        } else {
            None
        }
    }
}

/// An immutable undirected multigraph with compact incidence rows.
#[derive(Debug, PartialEq, Eq)]
pub struct UndirectedTopology {
    node_count: usize,
    endpoints: Vec<EdgeEndpoints<NodeIndex>>,
    incidence: Csr,
}

/// What building an undirected topology from `endpoints` yields.
pub open spec fn ubuilds(
    node_count: usize,
    endpoints: Seq<EdgeEndpoints<NodeIndex>>,
    r: Result<UndirectedTopology>,
) -> bool {
    match capacity_error(node_count, endpoints.len() as usize) {
        Some(e) => r == Err::<UndirectedTopology, GraphError>(e),
        None => match r {
            Ok(t) => {
                &&& endpoints_valid(pairs(endpoints), node_count as int)
                &&& incidences(pairs(endpoints), endpoints.len()) <= u32::MAX
                &&& t@ == GraphModel { node_count: node_count as nat, edges: pairs(endpoints) }
            },
            Err(e) => {
                ||| reports_first_invalid(pairs(endpoints), node_count as int, e)
                ||| {
                    &&& endpoints_valid(pairs(endpoints), node_count as int)
                    &&& incidences(pairs(endpoints), endpoints.len()) > u32::MAX
                    &&& e == GraphError::IndexCapacityExceeded {
                        category: "csr entries",
                        count: saturating_double(endpoints.len() as usize),
                    }
                }
            },
        },
    }
}

impl View for UndirectedTopology {
    type V = GraphModel;

    closed spec fn view(&self) -> GraphModel {
        GraphModel { node_count: self.node_count as nat, edges: pairs(self.endpoints@) }
    }
}

impl Clone for UndirectedTopology {
    fn clone(&self) -> (r: Self)
        ensures
            r@ == self@,
    {
        proof {
            use_type_invariant(self);
        }
        UndirectedTopology {
            node_count: self.node_count,
            endpoints: crate::util::copied(self.endpoints.as_slice()),
            incidence: self.incidence.duplicate(),
        }
    }
}

impl UndirectedTopology {
    #[verifier::type_invariant]
    closed spec fn inv(self) -> bool {
        &&& self.node_count <= u32::MAX
        &&& self.endpoints@.len() <= u32::MAX
        &&& endpoints_valid(pairs(self.endpoints@), self.node_count as int)
        &&& self.incidence.indexes(pairs(self.endpoints@), 2, self.node_count as nat)
    }

    /// Builds an undirected topology whose edge indexes follow `edges`.
    ///
    /// # Errors
    ///
    /// Returns an error for excessive capacity or an invalid endpoint.
    pub fn try_from_edges(node_count: usize, edges: Vec<EdgeEndpoints<NodeIndex>>) -> (r: Result<
        Self,
    >)
        ensures
            ubuilds(node_count, edges@, r),
    {
        match Topology::validate_capacity(node_count, edges.len()) {
            Err(e) => return Err(e),
            Ok(()) => {},
        }
        let incidence = match Csr::try_build_undirected(node_count, edges.as_slice()) {
            Ok(csr) => csr,
            Err(e) => return Err(e),
        };
        Ok(UndirectedTopology { node_count, endpoints: edges, incidence })
    }

    /// The number of nodes; every topology's endpoints name existing nodes.
    pub fn node_count(&self) -> (r: usize)
        ensures
            r == self@.node_count,
            self@.valid(),
            self@.node_count <= u32::MAX,
            self@.edges.len() <= u32::MAX,
    {
        proof {
            use_type_invariant(self);
        }
        self.node_count
    }

    pub fn edge_count(&self) -> (r: usize)
        ensures
            r == self@.edges.len(),
            self@.valid(),
            self@.node_count <= u32::MAX,
            self@.edges.len() <= u32::MAX,
    {
        proof {
            use_type_invariant(self);
        }
        self.endpoints.len()
    }

    pub fn node_bound(&self) -> (r: usize)
        ensures
            r == self@.node_count,
    {
        self.node_count
    }

    pub fn edge_bound(&self) -> (r: usize)
        ensures
            r == self@.edges.len(),
    {
        self.endpoints.len()
    }

    pub fn contains_node(&self, node: NodeIndex) -> (r: bool)
        ensures
            r == (node.0 < self@.node_count),
    {
        node.index() < self.node_count
    }

    pub fn contains_edge(&self, edge: EdgeIndex) -> (r: bool)
        ensures
            r == (edge.0 < self@.edges.len()),
    {
        edge.index() < self.endpoints.len()
    }

    /// The endpoints of `edge`, when it exists.
    pub fn edge_endpoints(&self, edge: EdgeIndex) -> (r: Option<EdgeEndpoints<NodeIndex>>)
        ensures
            match r {
                Some(ends) => edge.0 < self@.edges.len() && self@.edges[edge.0 as int] == (
                    ends.source.0 as int,
                    ends.target.0 as int,
                ),
                None => edge.0 >= self@.edges.len(),
            },
    {
        if edge.index() < self.endpoints.len() {
            Some(self.endpoints[edge.index()])
        } else {
            None
        }
    }

    /// Every edge's endpoints, in edge order.
    pub fn endpoints(&self) -> (r: &[EdgeEndpoints<NodeIndex>])
        ensures
            pairs(r@) == self@.edges,
    {
        self.endpoints.as_slice()
    }

    /// The edges incident to `node` in increasing edge order; empty for an
    /// unknown node.
    pub fn incident_edges(&self, node: NodeIndex) -> (r: &[EdgeIndex])
        ensures
            edge_ints(r@) == if node.0 < self@.node_count {
                self@.incident(node.0 as int)
            } else {
                Seq::empty()
            },
    {
        proof {
            use_type_invariant(self);
        }
        let r = self.incidence.get(node.index());
        proof {
            if node.0 >= self@.node_count {
                assert(edge_ints(r@) =~= Seq::empty());
            }
        }
        r
    }

    /// The `offset`-th incident edge of `node`.
    pub fn incident_edge_at(&self, node: NodeIndex, offset: usize) -> (r: Option<EdgeIndex>)
        ensures
            match r {
                Some(e) => node.0 < self@.node_count && offset < self@.incident(node.0 as int).len()
                    && e.0 == self@.incident(node.0 as int)[offset as int],
                None => node.0 >= self@.node_count || offset >= self@.incident(
                    node.0 as int,
                ).len(),
            },
    {
        let row = self.incident_edges(node);
        proof {
            assert(edge_ints(row@).len() == row@.len());
        }
        if offset < row.len() {
            proof {
                assert(edge_ints(row@)[offset as int] == row@[offset as int].0 as int);
            }
            Some(row[offset])
        } else {
            None
        }
    }

    /// The endpoint of `edge` opposite `node`.
    pub fn opposite(&self, edge: EdgeIndex, node: NodeIndex) -> (r: Option<NodeIndex>)
        ensures
            match r {
                Some(other) => self@.opposite(edge.0 as int, node.0 as int) == Some(other.0 as int),
                None => self@.opposite(edge.0 as int, node.0 as int) is None,
            },
    {
        match self.edge_endpoints(edge) {
            None => None,
            Some(ends) => {
                if ends.source == node {
                    Some(ends.target)
                } else if ends.target == node {
                    Some(ends.source)
                } else {
                    None
                }
            },
        }
    }

    /// Every node index, in increasing order.
    pub fn node_indices(&self) -> (r: Vec<NodeIndex>)
        ensures
            r@.len() == self@.node_count,
            forall|i: int| 0 <= i < r@.len() ==> #[trigger] r@[i].0 == i,
    {
        proof {
            use_type_invariant(self);
        }
        let mut nodes: Vec<NodeIndex> = Vec::new();
        let mut i: usize = 0;
        while i < self.node_count
            invariant
                i <= self.node_count <= u32::MAX,
                nodes@.len() == i,
                forall|j: int| 0 <= j < i ==> #[trigger] nodes@[j].0 == j,
            decreases self.node_count - i,
        {
            nodes.push(NodeIndex::new(i as u32));
            i = i + 1;
        }
        nodes
    }
}

} // verus!
