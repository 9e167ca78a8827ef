use super::csr::{pairs, reports_first_invalid, Csr};
use super::directed::{builds, Topology};
use super::index::{EdgeEndpoints, NodeIndex};
use super::model::endpoints_valid;
use crate::error::Result;
use vstd::prelude::*;

verus! {

/// What building one direction of a directed index yields.
pub(crate) open spec fn rows_built(
    r: Result<Csr>,
    node_count: usize,
    endpoints: Seq<EdgeEndpoints<NodeIndex>>,
    mode: int,
) -> bool {
    match r {
        Ok(csr) => {
            &&& endpoints_valid(pairs(endpoints), node_count as int)
            &&& csr.indexes(pairs(endpoints), mode, node_count as nat)
        },
        Err(e) => reports_first_invalid(pairs(endpoints), node_count as int, e),
    }
}

/// Calls `rayon::join` on the outgoing and incoming index builds.
///
/// `rayon::join` runs both closures, potentially in parallel, and returns
/// their results as a pair; each closure only calls the verified
/// `Csr::try_build_rows`, so each component is what that function ensures.
#[verifier::external_body]
fn join_rows(node_count: usize, endpoints: &[EdgeEndpoints<NodeIndex>]) -> (r: (
    Result<Csr>,
    Result<Csr>,
))
    requires
        node_count <= u32::MAX,
        endpoints@.len() <= u32::MAX,
    ensures
        rows_built(r.0, node_count, endpoints@, 0),
        rows_built(r.1, node_count, endpoints@, 1),
{
    rayon::join(
        || Csr::try_build_rows(node_count, endpoints, 0),
        || Csr::try_build_rows(node_count, endpoints, 1),
    )
}

impl Topology {
    /// Chooses the sequential or the parallel builder from the edge count;
    /// the result is identical to [`Self::try_from_edges`].
    ///
    /// # Errors
    ///
    /// Returns an error for excessive capacity or an invalid endpoint.
    pub fn try_from_edges_auto(node_count: usize, edges: Vec<EdgeEndpoints<NodeIndex>>) -> (r:
        Result<Self>)
        ensures
            builds(node_count, edges@, r),
    {
        if edges.len() < 1_500_000 {
            return Self::try_from_collected(node_count, edges);
        }
        Self::try_from_collected_parallel(node_count, edges, true)
    }

    /// Builds a validated topology while constructing both index directions
    /// in parallel. Edge indexes and adjacency order follow the input.
    ///
    /// # Errors
    ///
    /// Returns an error for excessive capacity or an invalid endpoint.
    pub fn try_from_edges_parallel(node_count: usize, edges: Vec<EdgeEndpoints<NodeIndex>>) -> (r:
        Result<Self>)
        ensures
            builds(node_count, edges@, r),
    {
        Self::try_from_collected_parallel(node_count, edges, true)
    }

    /// Builds both index directions concurrently without promising an
    /// adjacency order; this builder in fact keeps the input order.
    ///
    /// # Errors
    ///
    /// Returns an error for excessive capacity or an invalid endpoint.
    pub fn try_from_edges_parallel_unordered(
        node_count: usize,
        edges: Vec<EdgeEndpoints<NodeIndex>>,
    ) -> (r: Result<Self>)
        ensures
            builds(node_count, edges@, r),
    {
        Self::try_from_collected_parallel(node_count, edges, false)
    }

    /// The direct-write parallel builder; written safely, it shares the
    /// parallel builder and its stable adjacency order.
    ///
    /// # Errors
    ///
    /// Returns an error for excessive capacity or an invalid endpoint.
    pub fn try_from_edges_parallel_fast(node_count: usize, edges: Vec<EdgeEndpoints<NodeIndex>>) -> (r:
        Result<Self>)
        ensures
            builds(node_count, edges@, r),
    {
        Self::try_from_collected_parallel(node_count, edges, true)
    }

    /// The direct-write parallel builder without an adjacency-order promise.
    ///
    /// # Errors
    ///
    /// Returns an error for excessive capacity or an invalid endpoint.
    pub fn try_from_edges_parallel_unordered_fast(
        node_count: usize,
        edges: Vec<EdgeEndpoints<NodeIndex>>,
    ) -> (r: Result<Self>)
        ensures
            builds(node_count, edges@, r),
    {
        Self::try_from_collected_parallel(node_count, edges, false)
    }

    fn try_from_collected_parallel(
        node_count: usize,
        endpoints: Vec<EdgeEndpoints<NodeIndex>>,
        stable_order: bool,
    ) -> (r: Result<Self>)
        ensures
            builds(node_count, endpoints@, r),
    {
        match Self::validate_capacity(node_count, endpoints.len()) {
            Err(e) => return Err(e),
            Ok(()) => {},
        }
        let (outgoing, incoming) = join_rows(node_count, endpoints.as_slice());
        let outgoing = match outgoing {
            Ok(csr) => csr,
            Err(e) => return Err(e),
        };
        let incoming = match incoming {
            Ok(csr) => csr,
            Err(e) => return Err(e),
        };
        Ok(Self::from_parts(node_count, endpoints, outgoing, incoming))
    }
}

} // verus!
