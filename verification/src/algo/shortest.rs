use super::dijkstra::{overflow_error, overflows, settled_count, Dijkstra, DijkstraWorkspace};
use super::reach::{node_ints, Direction};
use super::routes::{
    affordable, cheapest, quote, quote_total, quoted, quoted_total, route_between, route_cost,
};
use crate::error::{GraphError, Result};
use crate::topology::{EdgeIndex, GraphModel, NodeIndex, Topology};
use vstd::prelude::*;

verus! {

/// A route's nodes, from source to target, and its total cost.
#[derive(Debug, Clone, PartialEq, Eq)]
pub struct WeightedPath {
    nodes: Vec<NodeIndex>,
    total_cost: u64,
}

impl WeightedPath {
    /// The nodes of the route.
    pub closed spec fn path(&self) -> Seq<NodeIndex> {
        self.nodes@
    }

    /// The total cost of the route.
    pub closed spec fn cost(&self) -> int {
        self.total_cost as int
    }

    pub fn nodes(&self) -> (r: &[NodeIndex])
        ensures
            r@ == self.path(),
    {
        self.nodes.as_slice()
    }

    pub fn total_cost(&self) -> (r: u64)
        ensures
            r == self.cost(),
    {
        self.total_cost
    }

    pub(crate) fn from_parts(nodes: Vec<NodeIndex>, total_cost: u64) -> (r: Self)
        ensures
            r.path() == nodes@,
            r.cost() == total_cost,
    {
        WeightedPath { nodes, total_cost }
    }

    pub fn into_nodes(self) -> (r: Vec<NodeIndex>)
        ensures
            r@ == self.path(),
    {
        self.nodes
    }
}

/// What a cheapest-route query answers: a cheapest route and its cost
/// exactly when both ends are nodes and some route between them costs at
/// most `u64::MAX`.
pub open spec fn shortest_route(
    g: GraphModel,
    table: Seq<Option<u64>>,
    dir: Direction,
    s: int,
    t: int,
    r: Option<WeightedPath>,
) -> bool {
    match r {
        Some(w) => {
            &&& 0 <= s < g.node_count
            &&& 0 <= t < g.node_count
            &&& cheapest(g, table, dir, s, t, w.cost())
            &&& exists|es: Seq<int>|
                #[trigger] route_between(g, table, dir, node_ints(w.path()), es, s, t) && route_cost(table, es)
                    == w.cost()
        },
        None => !(0 <= s < g.node_count && 0 <= t < g.node_count && affordable(g, table, dir, s, t)),
    }
}

/// Settles nodes in cost order until `target`, then rebuilds its route.
fn cheapest_route(
    graph: &Topology,
    source: NodeIndex,
    target: NodeIndex,
    direction: Direction,
    table: Vec<Option<u64>>,
    strict: bool,
) -> (r: Result<Option<WeightedPath>>)
    requires
        table@.len() == graph@.edges.len(),
        source.0 < graph@.node_count,
        target.0 < graph@.node_count,
    ensures
        match r {
            Ok(w) => shortest_route(graph@, table@, direction, source.0 as int, target.0 as int, w),
            Err(e) => strict && e == overflow_error() && overflows(graph@, table@, direction, source.0 as int),
        },
{
    let ghost g = graph@;
    let ghost tb = table@;
    let ghost s = source.0 as int;
    let ghost t = target.0 as int;
    let n = graph.node_count();
    let mut search = Dijkstra::start(graph, source, direction, DijkstraWorkspace::new(), table, strict);
    proof {
        lemma_none_settled(n as nat);
    }
    loop
        invariant
            search.inv(),
            g == graph@,
            tb == table@,
            s == source.0,
            t == target.0,
            search.model() == g,
            search.prices() == tb,
            search.heading() == direction,
            search.origin() == s,
            search.is_strict() == strict,
            !search.has_failed(),
            n == g.node_count,
            0 <= t < n,
            0 <= s < n,
            !search.settled_nodes()[t],
            search.settled_nodes().len() == n,
            settled_count(search.settled_nodes()) < n,
        decreases n - settled_count(search.settled_nodes()),
    {
        let ghost before = search.settled_nodes();
        let ghost failed_before = search.has_failed();
        let step = search.next();
        match step {
            None => {
                proof {
                    assert(!failed_before);
                    if affordable(g, tb, direction, s, t) {
                        assert(before[t]);
                    }
                }
                return Ok(None);
            },
            Some(Err(e)) => {
                return Err(e);
            },
            Some(Ok((v, c))) => {
                assert(search.cost_of(v.0 as int) == c);
                if v.0 == target.0 {
                    let nodes = search.route_to(target);
                    let w = WeightedPath { nodes, total_cost: c };
                    proof {
                        assert(search.cost_of(t) == c);
                        let es = choose|es: Seq<int>|
                            #[trigger] route_between(g, tb, direction, node_ints(nodes@), es, s, t) && route_cost(
                                tb,
                                es,
                            ) == search.cost_of(t);
                        assert(route_between(g, tb, direction, node_ints(w.path()), es, s, t));
                    }
                    return Ok(Some(w));
                }
                proof {
                    crate::algo::dijkstra::lemma_count_update(before, v.0 as int);
                    let after = search.settled_nodes();
                    assert(!after[t]);
                    crate::algo::dijkstra::lemma_count_bound_strict(after, t);
                }
            },
        }
    }
}

pub(crate) proof fn lemma_none_settled(n: nat)
    ensures
        settled_count(Seq::new(n, |v: int| false)) == 0,
    decreases n,
{
    if n > 0 {
        lemma_none_settled((n - 1) as nat);
        assert(Seq::new(n, |v: int| false).drop_last() =~= Seq::new((n - 1) as nat, |v: int| false));
    }
}

/// A cheapest route from `source` to `target` in `direction`, with prices
/// asked once per edge from `edge_cost`; edges priced `None` are not
/// followed, and routes whose cost leaves `u64` are not considered.
pub fn dijkstra_filtered<F: Fn(EdgeIndex) -> Option<u64>>(
    graph: &Topology,
    source: NodeIndex,
    target: NodeIndex,
    direction: Direction,
    edge_cost: F,
) -> (r: Option<WeightedPath>)
    requires
        forall|e: EdgeIndex| call_requires(edge_cost, (e,)),
    ensures
        if source.0 < graph@.node_count && target.0 < graph@.node_count {
            exists|table: Seq<Option<u64>>|
                quoted(edge_cost, graph@, table) && shortest_route(
                    graph@,
                    table,
                    direction,
                    source.0 as int,
                    target.0 as int,
                    r,
                )
        } else {
            r is None
        },
{
    if !graph.contains_node(source) || !graph.contains_node(target) {
        return None;
    }
    let table = quote(graph, &edge_cost);
    let ghost tb = table@;
    match cheapest_route(graph, source, target, direction, table, false) {
        Ok(w) => w,
        Err(_) => None,
    }
}

/// A cheapest route from `source` to `target` along outgoing edges, with
/// prices asked once per edge from `edge_cost`.
pub fn dijkstra<F: Fn(EdgeIndex) -> u64>(
    graph: &Topology,
    source: NodeIndex,
    target: NodeIndex,
    edge_cost: F,
) -> (r: Option<WeightedPath>)
    requires
        forall|e: EdgeIndex| call_requires(edge_cost, (e,)),
    ensures
        if source.0 < graph@.node_count && target.0 < graph@.node_count {
            exists|table: Seq<Option<u64>>|
                quoted_total(edge_cost, graph@, table) && shortest_route(
                    graph@,
                    table,
                    Direction::Outgoing,
                    source.0 as int,
                    target.0 as int,
                    r,
                )
        } else {
            r is None
        },
{
    if !graph.contains_node(source) || !graph.contains_node(target) {
        return None;
    }
    let table = quote_total(graph, &edge_cost);
    match cheapest_route(graph, source, target, Direction::Outgoing, table, false) {
        Ok(w) => w,
        Err(_) => None,
    }
}

/// Like `dijkstra_filtered`, but a route cost that leaves `u64` during the
/// search is an error rather than a route not taken.
pub fn dijkstra_measure_filtered<F: Fn(EdgeIndex) -> Option<u64>>(
    graph: &Topology,
    source: NodeIndex,
    target: NodeIndex,
    direction: Direction,
    edge_cost: F,
) -> (r: Result<Option<WeightedPath>>)
    requires
        forall|e: EdgeIndex| call_requires(edge_cost, (e,)),
    ensures
        if source.0 < graph@.node_count && target.0 < graph@.node_count {
            exists|table: Seq<Option<u64>>|
                quoted(edge_cost, graph@, table) && match r {
                    Ok(w) => shortest_route(graph@, table, direction, source.0 as int, target.0 as int, w),
                    Err(e) => e == overflow_error() && overflows(graph@, table, direction, source.0 as int),
                }
        } else {
            r == Ok::<Option<WeightedPath>, GraphError>(None)
        },
{
    if !graph.contains_node(source) || !graph.contains_node(target) {
        return Ok(None);
    }
    let table = quote(graph, &edge_cost);
    cheapest_route(graph, source, target, direction, table, true)
}

/// Like `dijkstra`, but a route cost that leaves `u64` during the search is
/// an error rather than a route not taken.
pub fn dijkstra_measure<F: Fn(EdgeIndex) -> u64>(
    graph: &Topology,
    source: NodeIndex,
    target: NodeIndex,
    edge_cost: F,
) -> (r: Result<Option<WeightedPath>>)
    requires
        forall|e: EdgeIndex| call_requires(edge_cost, (e,)),
    ensures
        if source.0 < graph@.node_count && target.0 < graph@.node_count {
            exists|table: Seq<Option<u64>>|
                quoted_total(edge_cost, graph@, table) && match r {
                    Ok(w) => shortest_route(
                        graph@,
                        table,
                        Direction::Outgoing,
                        source.0 as int,
                        target.0 as int,
                        w,
                    ),
                    Err(e) => e == overflow_error() && overflows(
                        graph@,
                        table,
                        Direction::Outgoing,
                        source.0 as int,
                    ),
                }
        } else {
            r == Ok::<Option<WeightedPath>, GraphError>(None)
        },
{
    if !graph.contains_node(source) || !graph.contains_node(target) {
        return Ok(None);
    }
    let table = quote_total(graph, &edge_cost);
    cheapest_route(graph, source, target, Direction::Outgoing, table, true)
}

} // verus!
