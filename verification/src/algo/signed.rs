//! Single-source walks with signed edge weights, by the queue-based
//! Bellman-Ford method (SPFA).
use super::reach::{follows, Direction};
use crate::error::{GraphError, Result};
use crate::topology::{edge_ints, EdgeIndex, GraphModel, NodeIndex, Topology};
use crate::topology::model::lemma_adj_members;
use super::rounds::{
    best, costly_walk_from, lemma_best, lemma_stable_least, negative_cycle_from, opt_int, relax_rounds,
};
use vstd::prelude::*;

verus! {

/// The edges that a weight table weighs; an unweighed edge is skipped.
pub open spec fn weighed(table: Seq<Option<i64>>) -> Seq<bool> {
    Seq::new(table.len(), |e: int| table[e] is Some)
}

/// The weight of edge `e`, zero when it has none.
pub open spec fn weight(table: Seq<Option<i64>>, e: int) -> int {
    match table[e] {
        Some(w) => w as int,
        None => 0,
    }
}

/// `p` visits nodes and `es` names, for each step, a weighed edge from one
/// node of `p` to the next.
pub open spec fn signed_walk(g: GraphModel, table: Seq<Option<i64>>, p: Seq<int>, es: Seq<int>) -> bool {
    &&& p.len() == es.len() + 1
    &&& forall|i: int| 0 <= i < p.len() ==> 0 <= #[trigger] p[i] < g.node_count
    &&& forall|i: int| 0 <= i < es.len() ==> #[trigger] follows(g, weighed(table), Direction::Outgoing, es[i], p[i], p[i + 1])
}

/// The summed weight of the edges of a walk.
pub open spec fn walk_cost(table: Seq<Option<i64>>, es: Seq<int>) -> int
    decreases es.len(),
{
    if es.len() == 0 {
        0
    } else {
        walk_cost(table, es.drop_last()) + weight(table, es.last())
    }
}

/// A walk from `s` to `t`.
pub open spec fn signed_walk_between(
    g: GraphModel,
    table: Seq<Option<i64>>,
    p: Seq<int>,
    es: Seq<int>,
    s: int,
    t: int,
) -> bool {
    signed_walk(g, table, p, es) && p[0] == s && p.last() == t
}

/// Some walk leads from `s` to `t`.
pub open spec fn signed_reaches(g: GraphModel, table: Seq<Option<i64>>, s: int, t: int) -> bool {
    exists|p: Seq<int>, es: Seq<int>| #[trigger] signed_walk_between(g, table, p, es, s, t)
}

/// `d` is what the least costly walk from `s` to `t` costs.
pub open spec fn least_walk(g: GraphModel, table: Seq<Option<i64>>, s: int, t: int, d: int) -> bool {
    &&& exists|p: Seq<int>, es: Seq<int>| #[trigger]
        signed_walk_between(g, table, p, es, s, t) && walk_cost(table, es) == d
    &&& forall|p: Seq<int>, es: Seq<int>|
        #[trigger] signed_walk_between(g, table, p, es, s, t) ==> d <= walk_cost(table, es)
}

/// `table` records what `edge_cost` answered for every edge of `g`.
pub open spec fn weights_asked<F: Fn(EdgeIndex) -> Option<i64>>(
    edge_cost: F,
    g: GraphModel,
    table: Seq<Option<i64>>,
) -> bool {
    &&& table.len() == g.edges.len()
    &&& forall|e: int|
        0 <= e < table.len() ==> call_ensures(edge_cost, (EdgeIndex(e as u32),), #[trigger] table[e])
}

/// `table` records what the total `edge_cost` answered for every edge.
pub open spec fn total_weights_asked<F: Fn(EdgeIndex) -> i64>(
    edge_cost: F,
    g: GraphModel,
    table: Seq<Option<i64>>,
) -> bool {
    &&& table.len() == g.edges.len()
    &&& forall|e: int|
        0 <= e < table.len() ==> (#[trigger] table[e] matches Some(w) && call_ensures(
            edge_cost,
            (EdgeIndex(e as u32),),
            w,
        ))
}

/// Extending a walk by one weighed edge.
pub proof fn lemma_walk_push(g: GraphModel, table: Seq<Option<i64>>, p: Seq<int>, es: Seq<int>, e: int, w: int)
    requires
        signed_walk(g, table, p, es),
        follows(g, weighed(table), Direction::Outgoing, e, p.last(), w),
        0 <= w < g.node_count,
    ensures
        signed_walk(g, table, p.push(w), es.push(e)),
        walk_cost(table, es.push(e)) == walk_cost(table, es) + weight(table, e),
        p.push(w)[0] == p[0],
{
    let q = p.push(w);
    let fs = es.push(e);
    assert(fs.drop_last() =~= es);
    assert forall|i: int| 0 <= i < fs.len() implies #[trigger] follows(
        g,
        weighed(table),
        Direction::Outgoing,
        fs[i],
        q[i],
        q[i + 1],
    ) by {
        if i < es.len() {
            assert(follows(g, weighed(table), Direction::Outgoing, es[i], p[i], p[i + 1]));
        }
    }
    assert forall|i: int| 0 <= i < q.len() implies 0 <= #[trigger] q[i] < g.node_count by {
        if i < p.len() {
            assert(q[i] == p[i]);
        }
    }
}

/// Dropping the last step of a walk leaves a walk to the previous node.
pub proof fn lemma_walk_drop(g: GraphModel, table: Seq<Option<i64>>, p: Seq<int>, es: Seq<int>)
    requires
        signed_walk(g, table, p, es),
        es.len() >= 1,
    ensures
        signed_walk(g, table, p.drop_last(), es.drop_last()),
        follows(g, weighed(table), Direction::Outgoing, es.last(), p[p.len() - 2], p.last()),
        walk_cost(table, es) == walk_cost(table, es.drop_last()) + weight(table, es.last()),
{
    let q = p.drop_last();
    let fs = es.drop_last();
    assert forall|i: int| 0 <= i < fs.len() implies #[trigger] follows(
        g,
        weighed(table),
        Direction::Outgoing,
        fs[i],
        q[i],
        q[i + 1],
    ) by {
        assert(follows(g, weighed(table), Direction::Outgoing, es[i], p[i], p[i + 1]));
    }
    let i = es.len() - 1;
    assert(follows(g, weighed(table), Direction::Outgoing, es[i], p[i], p[i + 1]));
}

/// Asks `edge_cost` once for the weight of every edge of `graph`.
fn ask_weights<F: Fn(EdgeIndex) -> Option<i64>>(graph: &Topology, edge_cost: &F) -> (r: Vec<Option<i64>>)
    requires
        forall|e: EdgeIndex| call_requires(*edge_cost, (e,)),
    ensures
        weights_asked(*edge_cost, graph@, r@),
{
    let m = graph.edge_count();
    let mut table: Vec<Option<i64>> = Vec::new();
    let mut i: usize = 0;
    while i < m
        invariant
            m == graph@.edges.len() <= u32::MAX,
            i <= m,
            table@.len() == i,
            forall|e: EdgeIndex| call_requires(*edge_cost, (e,)),
            forall|e: int| 0 <= e < i ==> call_ensures(*edge_cost, (EdgeIndex(e as u32),), #[trigger] table@[e]),
        decreases m - i,
    {
        let w = edge_cost(EdgeIndex::new(i as u32));
        table.push(w);
        i = i + 1;
    }
    table
}

/// Asks the total `edge_cost` once for the weight of every edge of `graph`.
fn ask_total_weights<F: Fn(EdgeIndex) -> i64>(graph: &Topology, edge_cost: &F) -> (r: Vec<Option<i64>>)
    requires
        forall|e: EdgeIndex| call_requires(*edge_cost, (e,)),
    ensures
        total_weights_asked(*edge_cost, graph@, r@),
{
    let m = graph.edge_count();
    let mut table: Vec<Option<i64>> = Vec::new();
    let mut i: usize = 0;
    while i < m
        invariant
            m == graph@.edges.len() <= u32::MAX,
            i <= m,
            table@.len() == i,
            forall|e: EdgeIndex| call_requires(*edge_cost, (e,)),
            forall|e: int|
                0 <= e < i ==> (#[trigger] table@[e] matches Some(w) && call_ensures(
                    *edge_cost,
                    (EdgeIndex(e as u32),),
                    w,
                )),
        decreases m - i,
    {
        let w = edge_cost(EdgeIndex::new(i as u32));
        table.push(Some(w));
        i = i + 1;
    }
    table
}

/// Least walk costs from one source, with the node each was reached
/// from.
#[derive(Debug, Clone, PartialEq, Eq)]
pub struct BellmanFord {
    source: NodeIndex,
    distances: Vec<Option<i64>>,
    predecessors: Vec<Option<NodeIndex>>,
}

impl BellmanFord {
    /// The least walk cost of each node from the source; `None` where no
    /// walk leads.
    pub closed spec fn distance_table(&self) -> Seq<Option<i64>> {
        self.distances@
    }

    /// The node each node was last reached from.
    pub closed spec fn predecessor_table(&self) -> Seq<Option<NodeIndex>> {
        self.predecessors@
    }

    /// The source of the search.
    pub closed spec fn origin(&self) -> NodeIndex {
        self.source
    }

    /// The source of the search.
    pub fn source(&self) -> (r: NodeIndex)
        ensures
            r == self.origin(),
    {
        self.source
    }

    /// The least walk cost of `node` from the source, if a walk leads
    /// there.
    pub fn distance(&self, node: NodeIndex) -> (r: Option<i64>)
        ensures
            r == if node.0 < self.distance_table().len() {
                self.distance_table()[node.0 as int]
            } else {
                None
            },
    {
        if node.index() < self.distances.len() {
            self.distances[node.index()]
        } else {
            None
        }
    }

    /// The node that `node` is reached from on a least costly walk.
    pub fn predecessor(&self, node: NodeIndex) -> (r: Option<NodeIndex>)
        ensures
            r == if node.0 < self.predecessor_table().len() {
                self.predecessor_table()[node.0 as int]
            } else {
                None
            },
    {
        if node.index() < self.predecessors.len() {
            self.predecessors[node.index()]
        } else {
            None
        }
    }
}

/// What a completed search from `s` answers: for every node, its least
/// walk cost exactly when a walk leads there, and for every node with a
/// predecessor, a weighed edge from it on which the costs agree.
pub open spec fn least_walks(g: GraphModel, table: Seq<Option<i64>>, s: int, bf: BellmanFord) -> bool {
    let d = bf.distance_table();
    let pred = bf.predecessor_table();
    &&& bf.origin().0 == s
    &&& d.len() == g.node_count
    &&& pred.len() == g.node_count
    &&& forall|v: int|
        0 <= v < g.node_count ==> (#[trigger] d[v] is Some <==> signed_reaches(g, table, s, v))
    &&& forall|v: int|
        0 <= v < g.node_count && #[trigger] d[v] is Some ==> least_walk(g, table, s, v, d[v]->0 as int)
    &&& forall|v: int| 0 <= v < g.node_count && v != s && #[trigger] d[v] is Some ==> pred[v] is Some
    &&& forall|v: int|
        0 <= v < g.node_count && #[trigger] pred[v] is Some ==> {
            let u = slot_of(pred[v]);
            &&& 0 <= u < g.node_count
            &&& d[u] is Some
            &&& d[v] is Some
            &&& exists|e: int|
                #[trigger] follows(g, weighed(table), Direction::Outgoing, e, u, v) && d[v]->0 == d[u]->0 + weight(
                    table,
                    e,
                )
        }
}

/// The slot of a recorded node, `-1` for none.
pub open spec fn slot_of(p: Option<NodeIndex>) -> int {
    match p {
        Some(x) => x.0 as int,
        None => -1,
    }
}

/// The error a search stops on: a cost beyond `i64`, or a node improved
/// as many times as there are nodes.
pub open spec fn walk_error(e: GraphError) -> bool {
    ||| e == GraphError::ArithmeticOverflow { operation: "SPFA relaxation" }
    ||| e == GraphError::NegativeCycle { algorithm: "SPFA" }
}

/// Every reached node has a walk from `s` costing what is recorded.
spec fn walked(g: GraphModel, table: Seq<Option<i64>>, s: int, dist: Seq<i64>, reach: Seq<bool>) -> bool {
    forall|v: int|
        0 <= v < g.node_count && #[trigger] reach[v] ==> exists|p: Seq<int>, es: Seq<int>|
            #[trigger] signed_walk_between(g, table, p, es, s, v) && walk_cost(table, es) == dist[v]
}

/// Every weighed edge out of a reached node that is not waiting in the
/// queue has been relaxed.
spec fn relaxed(g: GraphModel, table: Seq<Option<i64>>, dist: Seq<i64>, reach: Seq<bool>, queued: Seq<bool>) -> bool {
    forall|e: int, u: int, v: int|
        #![trigger follows(g, weighed(table), Direction::Outgoing, e, u, v), queued[u]]
        follows(g, weighed(table), Direction::Outgoing, e, u, v) && reach[u] && !queued[u] ==> reach[v] && dist[v]
            <= dist[u] + weight(table, e)
}

/// Every reached node but the source has a recorded predecessor.
spec fn linked(reach: Seq<bool>, pred: Seq<Option<NodeIndex>>, s: int) -> bool {
    forall|v: int| 0 <= v < reach.len() && v != s && #[trigger] reach[v] ==> pred[v] is Some
}

/// Every recorded predecessor is a reached node with a weighed edge on
/// which the recorded cost is reached or beaten.
spec fn preceded(
    g: GraphModel,
    table: Seq<Option<i64>>,
    dist: Seq<i64>,
    reach: Seq<bool>,
    pred: Seq<Option<NodeIndex>>,
) -> bool {
    forall|v: int|
        0 <= v < g.node_count && #[trigger] pred[v] is Some ==> {
            let u = slot_of(pred[v]);
            &&& 0 <= u < g.node_count
            &&& reach[u]
            &&& reach[v]
            &&& exists|e: int|
                #[trigger] follows(g, weighed(table), Direction::Outgoing, e, u, v) && dist[v] >= dist[u] + weight(
                    table,
                    e,
                )
        }
}

/// The waiting part `queue[head..]` holds each queued node once.
spec fn waiting(queue: Seq<usize>, head: int, queued: Seq<bool>, n: int) -> bool {
    &&& 0 <= head <= queue.len()
    &&& forall|i: int| head <= i < queue.len() ==> #[trigger] queue[i] < n && queued[queue[i] as int]
    &&& forall|i: int, j: int| head <= i < j < queue.len() ==> #[trigger] queue[i] != #[trigger] queue[j]
    &&& forall|v: int| 0 <= v < n && #[trigger] queued[v] ==> exists|i: int| head <= i < queue.len() && queue[i] == v
}

/// How many more improvements the nodes may take before one is refused.
spec fn budget(relax: Seq<usize>, n: int) -> int
    decreases relax.len(),
{
    if relax.len() == 0 {
        0
    } else {
        budget(relax.drop_last(), n) + (n - relax.last())
    }
}

proof fn lemma_budget_step(relax: Seq<usize>, n: int, v: int, x: usize)
    requires
        0 <= v < relax.len(),
        x == relax[v] + 1,
    ensures
        budget(relax.update(v, x), n) == budget(relax, n) - 1,
    decreases relax.len(),
{
    let after = relax.update(v, x);
    if v == relax.len() - 1 {
        assert(after.drop_last() =~= relax.drop_last());
    } else {
        lemma_budget_step(relax.drop_last(), n, v, x);
        assert(after.drop_last() =~= relax.drop_last().update(v, x));
    }
}

proof fn lemma_budget_nonneg(relax: Seq<usize>, n: int)
    requires
        forall|i: int| 0 <= i < relax.len() ==> #[trigger] relax[i] < n,
    ensures
        budget(relax, n) >= 0,
    decreases relax.len(),
{
    if relax.len() > 0 {
        lemma_budget_nonneg(relax.drop_last(), n);
    }
}

/// Every weighed edge out of a reached node other than `x` that is not
/// waiting has been relaxed.
spec fn relaxed_but(
    g: GraphModel,
    table: Seq<Option<i64>>,
    dist: Seq<i64>,
    reach: Seq<bool>,
    queued: Seq<bool>,
    x: int,
) -> bool {
    forall|e: int, u: int, v: int|
        #![trigger follows(g, weighed(table), Direction::Outgoing, e, u, v), queued[u]]
        u != x && follows(g, weighed(table), Direction::Outgoing, e, u, v) && reach[u] && !queued[u] ==> reach[v]
            && dist[v] <= dist[u] + weight(table, e)
}

/// Edge `e` out of `x` has been relaxed.
spec fn relaxed_edge(g: GraphModel, table: Seq<Option<i64>>, dist: Seq<i64>, reach: Seq<bool>, x: int, e: int) -> bool {
    forall|v: int|
        #[trigger] follows(g, weighed(table), Direction::Outgoing, e, x, v) ==> reach[v] && dist[v] <= dist[x]
            + weight(table, e)
}

/// With nothing waiting, every node on a walk from `s` is reached, at a
/// recorded cost no greater than the walk's.
proof fn lemma_walk_bound(
    g: GraphModel,
    table: Seq<Option<i64>>,
    s: int,
    dist: Seq<i64>,
    reach: Seq<bool>,
    queued: Seq<bool>,
    p: Seq<int>,
    es: Seq<int>,
)
    requires
        signed_walk(g, table, p, es),
        p[0] == s,
        reach[s],
        dist[s] <= 0,
        relaxed(g, table, dist, reach, queued),
        forall|v: int| 0 <= v < g.node_count ==> !#[trigger] queued[v],
    ensures
        reach[p.last()],
        dist[p.last()] <= walk_cost(table, es),
    decreases es.len(),
{
    if es.len() > 0 {
        lemma_walk_drop(g, table, p, es);
        lemma_walk_bound(g, table, s, dist, reach, queued, p.drop_last(), es.drop_last());
        let u = p[p.len() - 2];
        assert(p.drop_last().last() == u);
        assert(0 <= u < g.node_count);
        assert(!queued[u]);
        assert(follows(g, weighed(table), Direction::Outgoing, es.last(), u, p.last()));
    } else {
        assert(es =~= Seq::<int>::empty());
    }
}

/// The least walk costs from `source` under the weights `table`.
fn walk_search(graph: &Topology, source: NodeIndex, table: Vec<Option<i64>>) -> (r: Result<BellmanFord>)
    requires
        source.0 < graph@.node_count,
        table@.len() == graph@.edges.len(),
    ensures
        match r {
            Ok(bf) => least_walks(graph@, table@, source.0 as int, bf),
            Err(e) => walk_error(e),
        },
{
    let ghost g = graph@;
    let ghost tb = table@;
    let ghost s = source.0 as int;
    let n = graph.node_count();
    let mut dist: Vec<i64> = crate::util::filled_vec(0i64, n);
    let mut reach: Vec<bool> = crate::util::filled_vec(false, n);
    let mut pred: Vec<Option<NodeIndex>> = crate::util::filled_vec(None, n);
    let mut queued: Vec<bool> = crate::util::filled_vec(false, n);
    let mut relax: Vec<usize> = crate::util::filled_vec(0usize, n);
    let si = source.index();
    reach.set(si, true);
    queued.set(si, true);
    let mut queue: Vec<usize> = Vec::new();
    queue.push(si);
    let mut head: usize = 0;
    proof {
        assert(signed_walk_between(g, tb, seq![s], Seq::<int>::empty(), s, s));
        assert forall|v: int| 0 <= v < n && #[trigger] reach@[v] implies exists|p: Seq<int>, es: Seq<int>|
            #[trigger] signed_walk_between(g, tb, p, es, s, v) && walk_cost(tb, es) == dist@[v] by {
            assert(v == s);
            assert(signed_walk_between(g, tb, seq![s], Seq::<int>::empty(), s, s));
        }
        assert(waiting(queue@, 0, queued@, n as int)) by {
            assert forall|v: int| 0 <= v < n && #[trigger] queued@[v] implies exists|i: int|
                0 <= i < queue@.len() && queue@[i] == v by {
                assert(queue@[0] == v);
            }
        }
    }
    while head < queue.len()
        invariant
            g == graph@,
            tb == table@,
            n == g.node_count,
            n <= u32::MAX,
            g.valid(),
            tb.len() == g.edges.len(),
            0 <= s < n,
            s == source.0,
            dist@.len() == n,
            reach@.len() == n,
            pred@.len() == n,
            queued@.len() == n,
            relax@.len() == n,
            reach@[s],
            dist@[s] <= 0,
            walked(g, tb, s, dist@, reach@),
            relaxed(g, tb, dist@, reach@, queued@),
            preceded(g, tb, dist@, reach@, pred@),
            linked(reach@, pred@, s),
            waiting(queue@, head as int, queued@, n as int),
            forall|i: int| 0 <= i < n ==> #[trigger] relax@[i] < n,
            forall|v: int| 0 <= v < n && #[trigger] queued@[v] ==> reach@[v],
        decreases budget(relax@, n as int), queue@.len() - head,
    {
        let x = queue[head];
        head += 1;
        queued.set(x, false);
        let ghost xs = x as int;
        let ghost b0 = budget(relax@, n as int);
        let ghost len0 = queue@.len();
        proof {
            lemma_budget_nonneg(relax@, n as int);
            assert(waiting(queue@, head as int, queued@, n as int)) by {
                assert forall|i: int| head <= i < queue@.len() implies #[trigger] queue@[i] < n && queued@[queue@[i] as int] by {
                    assert(queue@[i] != queue@[head - 1]);
                }
                assert forall|v: int| 0 <= v < n && #[trigger] queued@[v] implies exists|i: int|
                    head <= i < queue@.len() && queue@[i] == v by {
                    let i = choose|i: int| head - 1 <= i < queue@.len() && queue@[i] == v;
                }
            }
        }
        let out = graph.outgoing_edges(NodeIndex::new(x as u32));
        let ghost row = edge_ints(out@);
        let mut k: usize = 0;
        while k < out.len()
            invariant
                g == graph@,
                tb == table@,
                n == g.node_count,
                n <= u32::MAX,
                g.valid(),
                tb.len() == g.edges.len(),
                0 <= s < n,
                s == source.0,
                0 <= xs < n,
                xs == x as int,
                row == edge_ints(out@),
                row == g.out_edges(xs),
                k <= out@.len(),
                dist@.len() == n,
                reach@.len() == n,
                pred@.len() == n,
                queued@.len() == n,
                relax@.len() == n,
                reach@[s],
                dist@[s] <= 0,
                reach@[xs],
                walked(g, tb, s, dist@, reach@),
                relaxed_but(g, tb, dist@, reach@, queued@, xs),
                queued@[xs] || forall|j: int| 0 <= j < k ==> #[trigger] relaxed_edge(g, tb, dist@, reach@, xs, row[j]),
                preceded(g, tb, dist@, reach@, pred@),
                linked(reach@, pred@, s),
                waiting(queue@, head as int, queued@, n as int),
                forall|i: int| 0 <= i < n ==> #[trigger] relax@[i] < n,
                forall|v: int| 0 <= v < n && #[trigger] queued@[v] ==> reach@[v],
                budget(relax@, n as int) <= b0,
                budget(relax@, n as int) < b0 || queue@.len() == len0,
                head <= len0,
            decreases out@.len() - k,
        {
            let e = out[k];
            let ghost ei = e.0 as int;
            proof {
                assert(row[k as int] == ei);
                lemma_adj_members(g.edges, g.edges.len(), 0, xs);
            }
            match table[e.index()] {
                None => {
                    proof {
                        assert forall|v: int| #[trigger] follows(g, weighed(tb), Direction::Outgoing, ei, xs, v) implies reach@[v]
                            && dist@[v] <= dist@[xs] + weight(tb, ei) by {
                            assert(weighed(tb)[ei]);
                        }
                    }
                },
                Some(w) => {
                    let ends = graph.edge_endpoints(e);
                    let y = match ends {
                        Some(ends) => ends.target.index(),
                        None => {
                            proof {
                                assert(false);
                            }
                            0
                        },
                    };
                    proof {
                        assert(g.edges[ei].0 == xs);
                        assert(0 <= y < n);
                        assert(weight(tb, ei) == w);
                        assert(follows(g, weighed(tb), Direction::Outgoing, ei, xs, y as int));
                    }
                    let candidate = match dist[x].checked_add(w) {
                        Some(c) => c,
                        None => {
                            return Err(GraphError::ArithmeticOverflow { operation: "SPFA relaxation" });
                        },
                    };
                    if !reach[y] || candidate < dist[y] {
                        let ghost d0 = dist@;
                        let ghost r0 = reach@;
                        let ghost q0 = queued@;
                        let ghost p0 = pred@;
                        let ghost relax0 = relax@;
                        let ghost queue0 = queue@;
                        proof {
                            let (pw, ew) = choose|p: Seq<int>, es: Seq<int>|
                                #[trigger] signed_walk_between(g, tb, p, es, s, xs) && walk_cost(tb, es) == dist@[xs];
                            lemma_walk_push(g, tb, pw, ew, ei, y as int);
                            assert(signed_walk_between(g, tb, pw.push(y as int), ew.push(ei), s, y as int));
                        }
                        reach.set(y, true);
                        dist.set(y, candidate);
                        pred.set(y, Some(NodeIndex::new(x as u32)));
                        proof {
                            assert forall|v: int| 0 <= v < reach@.len() && v != s && #[trigger] reach@[v] implies pred@[v] is Some by {
                                if v != y as int {
                                    assert(r0[v]);
                                }
                            }
                        }
                        let bumped = relax[y] + 1;
                        relax.set(y, bumped);
                        proof {
                            lemma_budget_step(relax0, n as int, y as int, bumped);
                        }
                        if bumped >= n {
                            return Err(GraphError::NegativeCycle { algorithm: "SPFA" });
                        }
                        if !queued[y] {
                            queued.set(y, true);
                            queue.push(y);
                        }
                        proof {
                            let yi = y as int;
                            assert(queued@[yi]);
                            assert forall|v: int| 0 <= v < n && #[trigger] reach@[v] implies exists|p: Seq<int>, es: Seq<int>|
                                #[trigger] signed_walk_between(g, tb, p, es, s, v) && walk_cost(tb, es) == dist@[v] by {
                                if v != yi {
                                    assert(r0[v]);
                                    let (pw, ew) = choose|p: Seq<int>, es: Seq<int>|
                                        #[trigger] signed_walk_between(g, tb, p, es, s, v) && walk_cost(tb, es) == d0[v];
                                    assert(signed_walk_between(g, tb, pw, ew, s, v));
                                } else {
                                    let (pw, ew) = choose|p: Seq<int>, es: Seq<int>|
                                        #[trigger] signed_walk_between(g, tb, p, es, s, xs) && walk_cost(tb, es) == d0[xs];
                                    lemma_walk_push(g, tb, pw, ew, ei, yi);
                                    assert(signed_walk_between(g, tb, pw.push(yi), ew.push(ei), s, yi));
                                }
                            }
                            assert(preceded(g, tb, dist@, reach@, pred@)) by {
                                assert forall|v: int| 0 <= v < n && #[trigger] pred@[v] is Some implies {
                                    let u = slot_of(pred@[v]);
                                    &&& 0 <= u < n
                                    &&& reach@[u]
                                    &&& reach@[v]
                                    &&& exists|e: int|
                                        #[trigger] follows(g, weighed(tb), Direction::Outgoing, e, u, v) && dist@[v] >= dist@[u]
                                            + weight(tb, e)
                                } by {
                                    if v == yi {
                                        assert(slot_of(pred@[v]) == xs);
                                        assert(follows(g, weighed(tb), Direction::Outgoing, ei, xs, yi));
                                    } else {
                                        assert(p0[v] is Some);
                                        let u = slot_of(p0[v]);
                                        let e2 = choose|e: int|
                                            #[trigger] follows(g, weighed(tb), Direction::Outgoing, e, u, v) && d0[v] >= d0[u]
                                                + weight(tb, e);
                                        assert(follows(g, weighed(tb), Direction::Outgoing, e2, u, v));
                                    }
                                }
                            }
                            assert(waiting(queue@, head as int, queued@, n as int)) by {
                                if !q0[yi] {
                                    assert forall|i: int| head <= i < queue@.len() implies #[trigger] queue@[i] < n
                                        && queued@[queue@[i] as int] by {
                                        if i < queue@.len() - 1 {
                                            assert(queue@[i] == queue0[i]);
                                        }
                                    }
                                    assert forall|i: int, j: int| head <= i < j < queue@.len() implies #[trigger] queue@[i]
                                        != #[trigger] queue@[j] by {
                                        if j == queue@.len() - 1 {
                                            if queue@[i] == yi as usize {
                                                assert(q0[queue@[i] as int]);
                                            }
                                        }
                                    }
                                    assert forall|v: int| 0 <= v < n && #[trigger] queued@[v] implies exists|i: int|
                                        head <= i < queue@.len() && queue@[i] == v by {
                                        if v != yi {
                                            assert(q0[v]);
                                            let i = choose|i: int| head <= i < queue0.len() && queue0[i] == v;
                                            assert(queue@[i] == v);
                                        } else {
                                            assert(queue@[queue@.len() - 1] == v);
                                        }
                                    }
                                }
                            }
                            assert forall|e2: int, u: int, v: int|
                                #![trigger follows(g, weighed(tb), Direction::Outgoing, e2, u, v), queued@[u]]
                                u != xs && follows(g, weighed(tb), Direction::Outgoing, e2, u, v) && reach@[u] && !queued@[u]
                                    implies reach@[v] && dist@[v] <= dist@[u] + weight(tb, e2) by {
                                assert(u != yi);
                                assert(!q0[u]);
                                assert(r0[u]);
                            }
                            if !queued@[xs] {
                                assert(xs != yi);
                                assert forall|j: int| 0 <= j < k + 1 implies #[trigger] relaxed_edge(
                                    g,
                                    tb,
                                    dist@,
                                    reach@,
                                    xs,
                                    row[j],
                                ) by {
                                    if j < k {
                                        assert(relaxed_edge(g, tb, d0, r0, xs, row[j]));
                                    }
                                    assert forall|v: int| #[trigger] follows(g, weighed(tb), Direction::Outgoing, row[j], xs, v) implies reach@[v]
                                        && dist@[v] <= dist@[xs] + weight(tb, row[j]) by {
                                        if j < k {
                                            assert(relaxed_edge(g, tb, d0, r0, xs, row[j]));
                                        } else {
                                            assert(g.edges[ei].1 == v);
                                        }
                                    }
                                }
                            }
                        }
                    } else {
                        proof {
                            assert forall|v: int| #[trigger] follows(g, weighed(tb), Direction::Outgoing, ei, xs, v) implies reach@[v]
                                && dist@[v] <= dist@[xs] + weight(tb, ei) by {
                                assert(g.edges[ei].1 == v);
                            }
                        }
                    }
                },
            }
            k += 1;
        }
        proof {
            lemma_budget_nonneg(relax@, n as int);
            lemma_adj_members(g.edges, g.edges.len(), 0, xs);
            assert forall|e2: int, u: int, v: int|
                #![trigger follows(g, weighed(tb), Direction::Outgoing, e2, u, v), queued@[u]]
                follows(g, weighed(tb), Direction::Outgoing, e2, u, v) && reach@[u] && !queued@[u] implies reach@[v]
                    && dist@[v] <= dist@[u] + weight(tb, e2) by {
                if u == xs {
                    assert(g.edges[e2].0 == xs);
                    assert(row.contains(e2));
                    let j = choose|j: int| 0 <= j < row.len() && row[j] == e2;
                    assert(relaxed_edge(g, tb, dist@, reach@, xs, row[j]));
                }
            }
        }
    }
    proof {
        assert forall|v: int| 0 <= v < n implies !#[trigger] queued@[v] by {
            if queued@[v] {
                let i = choose|i: int| head <= i < queue@.len() && queue@[i] == v;
            }
        }
    }
    let mut distances: Vec<Option<i64>> = Vec::new();
    let mut v: usize = 0;
    while v < n
        invariant
            n == dist@.len(),
            n == reach@.len(),
            v <= n,
            distances@.len() == v,
            forall|i: int|
                0 <= i < v ==> #[trigger] distances@[i] == if reach@[i] {
                    Some(dist@[i])
                } else {
                    None
                },
        decreases n - v,
    {
        if reach[v] {
            distances.push(Some(dist[v]));
        } else {
            distances.push(None);
        }
        v += 1;
    }
    let bf = BellmanFord { source, distances, predecessors: pred };
    proof {
        let d = bf.distance_table();
        assert forall|t: int| 0 <= t < n implies (#[trigger] d[t] is Some <==> signed_reaches(g, tb, s, t)) by {
            if signed_reaches(g, tb, s, t) {
                let (p, es) = choose|p: Seq<int>, es: Seq<int>| #[trigger] signed_walk_between(g, tb, p, es, s, t);
                lemma_walk_bound(g, tb, s, dist@, reach@, queued@, p, es);
            }
            if d[t] is Some {
                assert(reach@[t]);
                let (p, es) = choose|p: Seq<int>, es: Seq<int>|
                    #[trigger] signed_walk_between(g, tb, p, es, s, t) && walk_cost(tb, es) == dist@[t];
                assert(signed_walk_between(g, tb, p, es, s, t));
            }
        }
        assert forall|t: int| 0 <= t < n && #[trigger] d[t] is Some implies least_walk(g, tb, s, t, d[t]->0 as int) by {
            assert(reach@[t]);
            assert forall|p: Seq<int>, es: Seq<int>| #[trigger] signed_walk_between(g, tb, p, es, s, t) implies d[t]->0
                <= walk_cost(tb, es) by {
                lemma_walk_bound(g, tb, s, dist@, reach@, queued@, p, es);
            }
        }
        let pr = bf.predecessor_table();
        assert forall|t: int| 0 <= t < n && #[trigger] pr[t] is Some implies {
            let u = slot_of(pr[t]);
            &&& 0 <= u < n
            &&& d[u] is Some
            &&& d[t] is Some
            &&& exists|e: int|
                #[trigger] follows(g, weighed(tb), Direction::Outgoing, e, u, t) && d[t]->0 == d[u]->0 + weight(tb, e)
        } by {
            let u = slot_of(pr[t]);
            let e2 = choose|e: int|
                #[trigger] follows(g, weighed(tb), Direction::Outgoing, e, u, t) && dist@[t] >= dist@[u] + weight(tb, e);
            assert(!queued@[u]);
            assert(follows(g, weighed(tb), Direction::Outgoing, e2, u, t));
        }
    }
    Ok(bf)
}

/// Least walk costs from `source` by rounds of relaxation, with each
/// reached node other than the source linked to a node it is reached from
/// at its least cost.
fn settle_rounds(graph: &Topology, source: NodeIndex, table: Vec<Option<i64>>) -> (r: Result<BellmanFord>)
    requires
        source.0 < graph@.node_count,
        table@.len() == graph@.edges.len(),
    ensures
        match r {
            Ok(bf) => least_walks(graph@, table@, source.0 as int, bf),
            Err(e) => {
                ||| e == GraphError::NegativeCycle { algorithm: "SPFA" } && negative_cycle_from(
                    graph@,
                    table@,
                    source.0 as int,
                )
                ||| e == GraphError::ArithmeticOverflow { operation: "SPFA relaxation" } && costly_walk_from(
                    graph@,
                    table@,
                    source.0 as int,
                )
            },
        },
{
    let n = graph.node_count();
    let m = graph.edge_count();
    let ghost g = graph@;
    let ghost tb = table@;
    let ghost s = source.0 as int;
    let distances = match relax_rounds(graph, source, &table) {
        Ok(d) => d,
        Err(e) => return Err(e),
    };
    let ghost k = (n - 1) as nat;
    let mut pred: Vec<Option<NodeIndex>> = Vec::new();
    let mut i: usize = 0;
    while i < n
        invariant
            i <= n,
            pred@.len() == i,
            forall|v: int| 0 <= v < i ==> (#[trigger] pred@[v]) is None,
        decreases n - i,
    {
        pred.push(None);
        i += 1;
    }
    let mut e: usize = 0;
    while e < m
        invariant
            g == graph@,
            tb == table@,
            n == g.node_count,
            m == g.edges.len(),
            m <= u32::MAX,
            g.valid(),
            tb.len() == m,
            e <= m,
            s == source.0 as int,
            distances@.len() == n,
            pred@.len() == n,
            forall|t: int|
                0 <= t < n && #[trigger] pred@[t] is Some ==> {
                    let u = slot_of(pred@[t]);
                    &&& 0 <= u < n
                    &&& distances@[u] is Some
                    &&& distances@[t] is Some
                    &&& exists|x: int|
                        #[trigger] follows(g, weighed(tb), Direction::Outgoing, x, u, t) && distances@[t]->0
                            == distances@[u]->0 + weight(tb, x)
                },
            forall|x: int|
                0 <= x < e && #[trigger] tb[x] is Some && g.edges[x].1 != s && distances@[g.edges[x].0] is Some
                    && distances@[g.edges[x].1] is Some && distances@[g.edges[x].1]->0 == distances@[g.edges[x].0]->0
                    + weight(tb, x) ==> pred@[g.edges[x].1] is Some,
        decreases m - e,
    {
        proof {
            assert((e as u32) as int == e as int);
        }
        match (table[e], graph.edge_endpoints(EdgeIndex(e as u32))) {
            (Some(w), Some(ends)) => {
                let u = ends.source.0 as usize;
                let v = ends.target.0 as usize;
                proof {
                    assert(0 <= g.edges[e as int].0 < n && 0 <= g.edges[e as int].1 < n);
                }
                if v != source.0 as usize && pred[v].is_none() {
                    match (distances[u], distances[v]) {
                        (Some(du), Some(dv)) => {
                            let tight = match du.checked_add(w) {
                                Some(c) => c == dv,
                                None => false,
                            };
                            if tight {
                                let ghost before = pred@;
                                pred.set(v, Some(NodeIndex(u as u32)));
                                proof {
                                    assert(follows(g, weighed(tb), Direction::Outgoing, e as int, u as int, v as int));
                                    assert forall|t: int|
                                        0 <= t < n && #[trigger] pred@[t] is Some implies {
                                            let uu = slot_of(pred@[t]);
                                            &&& 0 <= uu < n
                                            &&& distances@[uu] is Some
                                            &&& distances@[t] is Some
                                            &&& exists|x: int|
                                                #[trigger] follows(g, weighed(tb), Direction::Outgoing, x, uu, t)
                                                    && distances@[t]->0 == distances@[uu]->0 + weight(tb, x)
                                        } by {
                                        if t != v as int {
                                            assert(before[t] is Some);
                                        }
                                    }
                                }
                            }
                            assert(du + w == dv ==> pred@[v as int] is Some);
                        },
                        _ => {},
                    }
                    assert(distances@[u as int] is Some && distances@[v as int] is Some && distances@[v as int]->0
                        == distances@[u as int]->0 + w ==> pred@[v as int] is Some);
                }
                proof {
                    let x = e as int;
                    assert(tb[x] == Some(w));
                    assert(weight(tb, x) == w);
                    assert(g.edges[x].0 == u as int && g.edges[x].1 == v as int);
                    if g.edges[x].1 != s && distances@[u as int] is Some && distances@[v as int] is Some
                        && distances@[v as int]->0 == distances@[u as int]->0 + w {
                        if pred@[v as int] is None {
                            assert(false);
                        }
                    }
                }
            },
            _ => {},
        }
        proof {
            let ghost x = e as int;
            if tb[x] is Some && g.edges[x].1 != s && distances@[g.edges[x].0] is Some && distances@[g.edges[x].1] is Some
                && distances@[g.edges[x].1]->0 == distances@[g.edges[x].0]->0 + weight(tb, x) {
                assert(pred@[g.edges[x].1] is Some);
            }
        }
        e += 1;
    }
    let bf = BellmanFord { source, distances, predecessors: pred };
    proof {
        let d = bf.distance_table();
        assert forall|t: int| 0 <= t < n implies (#[trigger] d[t] is Some <==> signed_reaches(g, tb, s, t)) by {
            lemma_best(g, tb, s, k, t);
            lemma_stable_least(g, tb, s, t);
            assert(opt_int(d[t]) == best(g, tb, s, k, t));
            if signed_reaches(g, tb, s, t) {
                let (p, es) = choose|p: Seq<int>, es: Seq<int>| #[trigger] signed_walk_between(g, tb, p, es, s, t);
                assert(signed_walk_between(g, tb, p, es, s, t));
            }
            if d[t] is Some {
                let c = best(g, tb, s, k, t)->0;
                let (p, es) = choose|p: Seq<int>, es: Seq<int>|
                    #[trigger] signed_walk_between(g, tb, p, es, s, t) && es.len() <= k && walk_cost(tb, es) == c;
                assert(signed_walk_between(g, tb, p, es, s, t));
            }
        }
        assert forall|t: int| 0 <= t < n && #[trigger] d[t] is Some implies least_walk(g, tb, s, t, d[t]->0 as int) by {
            lemma_best(g, tb, s, k, t);
            lemma_stable_least(g, tb, s, t);
            assert(opt_int(d[t]) == best(g, tb, s, k, t));
            let c = best(g, tb, s, k, t)->0;
            let (p, es) = choose|p: Seq<int>, es: Seq<int>|
                #[trigger] signed_walk_between(g, tb, p, es, s, t) && es.len() <= k && walk_cost(tb, es) == c;
            assert(signed_walk_between(g, tb, p, es, s, t) && walk_cost(tb, es) == d[t]->0 as int);
        }
        assert forall|t: int| 0 <= t < n && t != s && #[trigger] d[t] is Some implies bf.predecessor_table()[t] is Some by {
            assert(least_walk(g, tb, s, t, d[t]->0 as int));
            let (p, es) = choose|p: Seq<int>, es: Seq<int>|
                #[trigger] signed_walk_between(g, tb, p, es, s, t) && walk_cost(tb, es) == d[t]->0 as int;
            assert(es.len() >= 1) by {
                if es.len() == 0 {
                    assert(p.len() == 1);
                }
            }
            lemma_walk_drop(g, tb, p, es);
            let u = p[p.len() - 2];
            let x = es.last();
            assert(signed_walk_between(g, tb, p.drop_last(), es.drop_last(), s, u));
            assert(signed_reaches(g, tb, s, u));
            assert(0 <= u < n);
            assert(d[u] is Some);
            assert(least_walk(g, tb, s, u, d[u]->0 as int));
            let (q, fs) = choose|q: Seq<int>, fs: Seq<int>|
                #[trigger] signed_walk_between(g, tb, q, fs, s, u) && walk_cost(tb, fs) == d[u]->0 as int;
            assert(q.last() == u);
            lemma_walk_push(g, tb, q, fs, x, t);
            assert(signed_walk_between(g, tb, q.push(t), fs.push(x), s, t));
            assert(d[t]->0 <= d[u]->0 + weight(tb, x));
            assert(d[u]->0 <= walk_cost(tb, es.drop_last()));
            assert(g.edges[x].0 == u && g.edges[x].1 == t);
            assert(tb[x] is Some);
        }
    }
    Ok(bf)
}

/// Least walk costs from `source` with signed weights asked once per edge
/// from `edge_cost`; edges weighed `None` are skipped. The queue-based
/// search runs first; should it improve some node as many times as there
/// are nodes, or meet a cost beyond `i64`, the answer is settled by rounds
/// of relaxation instead.
///
/// # Errors
///
/// Returns `NegativeCycle` only when a walk from the source reaches a closed
/// walk of negative cost, and `ArithmeticOverflow` only when a walk from the
/// source with at most as many edges as there are nodes costs beyond `i64`;
/// otherwise the least walk costs are returned.
pub fn spfa_filtered<F: Fn(EdgeIndex) -> Option<i64>>(graph: &Topology, source: NodeIndex, edge_cost: F) -> (r:
    Result<Option<BellmanFord>>)
    requires
        forall|e: EdgeIndex| call_requires(edge_cost, (e,)),
    ensures
        if source.0 < graph@.node_count {
            exists|table: Seq<Option<i64>>|
                weights_asked(edge_cost, graph@, table) && signed_outcome(graph@, table, source.0 as int, r)
        } else {
            r == Ok::<Option<BellmanFord>, GraphError>(None)
        },
{
    if !graph.contains_node(source) {
        return Ok(None);
    }
    let table = ask_weights(graph, &edge_cost);
    let ghost tb = table@;
    let kept = crate::util::copied(table.as_slice());
    match walk_search(graph, source, table) {
        Ok(bf) => Ok(Some(bf)),
        Err(_) => match settle_rounds(graph, source, kept) {
            Ok(bf) => Ok(Some(bf)),
            Err(e) => Err(e),
        },
    }
}

/// What a search from `s` owes: least walk costs when it succeeds, a
/// negative cycle reachable from `s` when it reports one, a walk from `s`
/// of at most as many edges as nodes costing beyond `i64` when it reports
/// an overflow; and success whenever there is neither.
pub open spec fn signed_outcome(g: GraphModel, table: Seq<Option<i64>>, s: int, r: Result<Option<BellmanFord>>) -> bool {
    &&& match r {
        Ok(Some(bf)) => least_walks(g, table, s, bf),
        Ok(None) => false,
        Err(e) => {
            ||| e == GraphError::NegativeCycle { algorithm: "SPFA" } && negative_cycle_from(g, table, s)
            ||| e == GraphError::ArithmeticOverflow { operation: "SPFA relaxation" } && costly_walk_from(g, table, s)
        },
    }
    &&& !negative_cycle_from(g, table, s) && !costly_walk_from(g, table, s) ==> r is Ok
}

/// Least walk costs from `source` with signed weights asked once per edge
/// from `edge_cost`.
///
/// # Errors
///
/// As for `spfa_filtered`.
pub fn spfa<F: Fn(EdgeIndex) -> i64>(graph: &Topology, source: NodeIndex, edge_cost: F) -> (r: Result<
    Option<BellmanFord>,
>)
    requires
        forall|e: EdgeIndex| call_requires(edge_cost, (e,)),
    ensures
        if source.0 < graph@.node_count {
            exists|table: Seq<Option<i64>>|
                total_weights_asked(edge_cost, graph@, table) && signed_outcome(graph@, table, source.0 as int, r)
        } else {
            r == Ok::<Option<BellmanFord>, GraphError>(None)
        },
{
    if !graph.contains_node(source) {
        return Ok(None);
    }
    let table = ask_total_weights(graph, &edge_cost);
    let ghost tb = table@;
    let kept = crate::util::copied(table.as_slice());
    match walk_search(graph, source, table) {
        Ok(bf) => Ok(Some(bf)),
        Err(_) => match settle_rounds(graph, source, kept) {
            Ok(bf) => Ok(Some(bf)),
            Err(e) => Err(e),
        },
    }
}

} // verus!
