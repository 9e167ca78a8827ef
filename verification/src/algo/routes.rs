use super::reach::{follows, Direction};
use crate::topology::{EdgeIndex, GraphModel, Topology};
use vstd::prelude::*;

verus! {

/// The edges that a price table prices; an unpriced edge is not followed.
pub open spec fn priced(table: Seq<Option<u64>>) -> Seq<bool> {
    Seq::new(table.len(), |e: int| table[e] is Some)
}

/// The price of edge `e`, zero when it has none.
pub open spec fn price(table: Seq<Option<u64>>, e: int) -> int {
    match table[e] {
        Some(w) => w as int,
        None => 0,
    }
}

/// `p` visits nodes and `es` names, for each step, a priced edge that leads
/// from one node of `p` to the next in direction `dir`.
pub open spec fn route(
    g: GraphModel,
    table: Seq<Option<u64>>,
    dir: Direction,
    p: Seq<int>,
    es: Seq<int>,
) -> bool {
    &&& p.len() == es.len() + 1
    &&& forall|i: int| 0 <= i < p.len() ==> 0 <= #[trigger] p[i] < g.node_count
    &&& forall|i: int| 0 <= i < es.len() ==> #[trigger] follows(g, priced(table), dir, es[i], p[i], p[i + 1])
}

/// The summed price of the edges of a route.
pub open spec fn route_cost(table: Seq<Option<u64>>, es: Seq<int>) -> int
    decreases es.len(),
{
    if es.len() == 0 {
        0
    } else {
        route_cost(table, es.drop_last()) + price(table, es.last())
    }
}

/// A route from `s` to `t`.
pub open spec fn route_between(
    g: GraphModel,
    table: Seq<Option<u64>>,
    dir: Direction,
    p: Seq<int>,
    es: Seq<int>,
    s: int,
    t: int,
) -> bool {
    route(g, table, dir, p, es) && p[0] == s && p.last() == t
}

/// Some route from `s` to `t` costs at most `u64::MAX`.
pub open spec fn affordable(g: GraphModel, table: Seq<Option<u64>>, dir: Direction, s: int, t: int) -> bool {
    exists|p: Seq<int>, es: Seq<int>|
        #[trigger] route_between(g, table, dir, p, es, s, t) && route_cost(table, es) <= u64::MAX
}

/// `c` is what the cheapest route from `s` to `t` costs, among the routes
/// that cost at most `u64::MAX`.
pub open spec fn cheapest(g: GraphModel, table: Seq<Option<u64>>, dir: Direction, s: int, t: int, c: int) -> bool {
    &&& c <= u64::MAX
    &&& exists|p: Seq<int>, es: Seq<int>| #[trigger]
        route_between(g, table, dir, p, es, s, t) && route_cost(table, es) == c
    &&& forall|p: Seq<int>, es: Seq<int>|
        #[trigger] route_between(g, table, dir, p, es, s, t) && route_cost(table, es) <= u64::MAX ==> c
            <= route_cost(table, es)
}

/// `table` records what `edge_cost` answered for every edge of `g`.
pub open spec fn quoted<F: Fn(EdgeIndex) -> Option<u64>>(
    edge_cost: F,
    g: GraphModel,
    table: Seq<Option<u64>>,
) -> bool {
    &&& table.len() == g.edges.len()
    &&& forall|e: int|
        0 <= e < table.len() ==> call_ensures(edge_cost, (EdgeIndex(e as u32),), #[trigger] table[e])
}

/// `table` records what the total `edge_cost` answered for every edge of `g`.
pub open spec fn quoted_total<F: Fn(EdgeIndex) -> u64>(
    edge_cost: F,
    g: GraphModel,
    table: Seq<Option<u64>>,
) -> bool {
    &&& table.len() == g.edges.len()
    &&& forall|e: int|
        0 <= e < table.len() ==> (#[trigger] table[e] matches Some(w) && call_ensures(
            edge_cost,
            (EdgeIndex(e as u32),),
            w,
        ))
}

/// Prices are never negative, so a route costs at least each of its prefixes.
pub proof fn lemma_cost_nonneg(table: Seq<Option<u64>>, es: Seq<int>)
    ensures
        route_cost(table, es) >= 0,
    decreases es.len(),
{
    if es.len() > 0 {
        lemma_cost_nonneg(table, es.drop_last());
    }
}

/// Dropping the last step of a route leaves a route to the previous node.
pub proof fn lemma_route_drop(g: GraphModel, table: Seq<Option<u64>>, dir: Direction, p: Seq<int>, es: Seq<int>)
    requires
        route(g, table, dir, p, es),
        es.len() >= 1,
    ensures
        route(g, table, dir, p.drop_last(), es.drop_last()),
        follows(g, priced(table), dir, es.last(), p[p.len() - 2], p.last()),
        route_cost(table, es) == route_cost(table, es.drop_last()) + price(table, es.last()),
        price(table, es.last()) >= 0,
{
    let q = p.drop_last();
    let fs = es.drop_last();
    assert forall|i: int| 0 <= i < fs.len() implies #[trigger] follows(
        g,
        priced(table),
        dir,
        fs[i],
        q[i],
        q[i + 1],
    ) by {
        assert(follows(g, priced(table), dir, es[i], p[i], p[i + 1]));
    }
    let i = es.len() - 1;
    assert(follows(g, priced(table), dir, es[i], p[i], p[i + 1]));
}

/// Extending a route by one priced step.
pub proof fn lemma_route_push(
    g: GraphModel,
    table: Seq<Option<u64>>,
    dir: Direction,
    p: Seq<int>,
    es: Seq<int>,
    e: int,
    w: int,
)
    requires
        route(g, table, dir, p, es),
        follows(g, priced(table), dir, e, p.last(), w),
        0 <= w < g.node_count,
    ensures
        route(g, table, dir, p.push(w), es.push(e)),
        route_cost(table, es.push(e)) == route_cost(table, es) + price(table, e),
        p.push(w)[0] == p[0],
{
    let q = p.push(w);
    let fs = es.push(e);
    assert(fs.drop_last() =~= es);
    assert forall|i: int| 0 <= i < fs.len() implies #[trigger] follows(
        g,
        priced(table),
        dir,
        fs[i],
        q[i],
        q[i + 1],
    ) by {
        if i < es.len() {
            assert(follows(g, priced(table), dir, es[i], p[i], p[i + 1]));
        }
    }
    assert forall|i: int| 0 <= i < q.len() implies 0 <= #[trigger] q[i] < g.node_count by {
        if i < p.len() {
            assert(q[i] == p[i]);
        }
    }
}

/// Putting one priced step in front of a route.
pub proof fn lemma_route_prepend(
    g: GraphModel,
    table: Seq<Option<u64>>,
    dir: Direction,
    p: Seq<int>,
    es: Seq<int>,
    e: int,
    u: int,
)
    requires
        route(g, table, dir, p, es),
        follows(g, priced(table), dir, e, u, p[0]),
        0 <= u < g.node_count,
    ensures
        route(g, table, dir, seq![u] + p, seq![e] + es),
        route_cost(table, seq![e] + es) == price(table, e) + route_cost(table, es),
    decreases es.len(),
{
    let q = seq![u] + p;
    let fs = seq![e] + es;
    assert forall|i: int| 0 <= i < fs.len() implies #[trigger] follows(
        g,
        priced(table),
        dir,
        fs[i],
        q[i],
        q[i + 1],
    ) by {
        if i > 0 {
            assert(fs[i] == es[i - 1]);
            assert(q[i] == p[i - 1]);
            assert(q[i + 1] == p[i]);
            assert(follows(g, priced(table), dir, es[i - 1], p[i - 1], p[i - 1 + 1]));
        }
    }
    assert forall|i: int| 0 <= i < q.len() implies 0 <= #[trigger] q[i] < g.node_count by {
        if i > 0 {
            assert(q[i] == p[i - 1]);
        }
    }
    if es.len() > 0 {
        lemma_route_drop(g, table, dir, p, es);
        lemma_route_prepend(g, table, dir, p.drop_last(), es.drop_last(), e, u);
        assert(fs.drop_last() =~= seq![e] + es.drop_last());
        assert(fs.last() == es.last());
        assert(route_cost(table, fs) == route_cost(table, fs.drop_last()) + price(table, fs.last()));
    } else {
        assert(fs.drop_last() =~= Seq::<int>::empty());
        assert(route_cost(table, fs) == route_cost(table, fs.drop_last()) + price(table, fs.last()));
    }
}

/// Asks `edge_cost` once for the price of every edge of `graph`.
pub fn quote<F: Fn(EdgeIndex) -> Option<u64>>(graph: &Topology, edge_cost: &F) -> (r: Vec<Option<u64>>)
    requires
        forall|e: EdgeIndex| call_requires(*edge_cost, (e,)),
    ensures
        quoted(*edge_cost, graph@, r@),
{
    let m = graph.edge_count();
    let mut table: Vec<Option<u64>> = Vec::new();
    let mut i: usize = 0;
    while i < m
        invariant
            m == graph@.edges.len() <= u32::MAX,
            i <= m,
            table@.len() == i,
            forall|e: EdgeIndex| call_requires(*edge_cost, (e,)),
            forall|e: int| 0 <= e < i ==> call_ensures(*edge_cost, (EdgeIndex(e as u32),), #[trigger] table@[e]),
        decreases m - i,
    {
        let w = edge_cost(EdgeIndex::new(i as u32));
        table.push(w);
        i = i + 1;
    }
    table
}

/// Asks the total `edge_cost` once for the price of every edge of `graph`.
pub fn quote_total<F: Fn(EdgeIndex) -> u64>(graph: &Topology, edge_cost: &F) -> (r: Vec<Option<u64>>)
    requires
        forall|e: EdgeIndex| call_requires(*edge_cost, (e,)),
    ensures
        quoted_total(*edge_cost, graph@, r@),
{
    let m = graph.edge_count();
    let mut table: Vec<Option<u64>> = Vec::new();
    let mut i: usize = 0;
    while i < m
        invariant
            m == graph@.edges.len() <= u32::MAX,
            i <= m,
            table@.len() == i,
            forall|e: EdgeIndex| call_requires(*edge_cost, (e,)),
            forall|e: int|
                0 <= e < i ==> (#[trigger] table@[e] matches Some(w) && call_ensures(
                    *edge_cost,
                    (EdgeIndex(e as u32),),
                    w,
                )),
        decreases m - i,
    {
        let w = edge_cost(EdgeIndex::new(i as u32));
        table.push(Some(w));
        i = i + 1;
    }
    table
}

} // verus!
