use super::reach::{follows, node_ints, Direction};
use super::routes::{
    affordable, cheapest, lemma_cost_nonneg, lemma_route_drop, lemma_route_prepend, lemma_route_push,
    price, priced, quote, quote_total, quoted, quoted_total, route, route_between, route_cost,
};
use crate::error::{GraphError, Result};
use crate::topology::model::lemma_adj_members;
use crate::topology::{edge_ints, EdgeIndex, GraphModel, NodeIndex, Topology};
use vstd::prelude::*;

verus! {

/// The tentative distance of `v`, zero when it has none.
pub open spec fn dist(d: Seq<Option<u64>>, v: int) -> int {
    match d[v] {
        Some(c) => c as int,
        None => 0,
    }
}

/// The predecessor position of `v`, `-1` when it has none.
pub open spec fn pred_of(pred: Seq<Option<NodeIndex>>, v: int) -> int {
    match pred[v] {
        Some(u) => u.0 as int,
        None => -1,
    }
}

/// The edge that reached `v`, `-1` when there is none.
pub open spec fn link_of(link: Seq<Option<EdgeIndex>>, v: int) -> int {
    match link[v] {
        Some(e) => e.0 as int,
        None => -1,
    }
}

/// `v` was reached from a settled predecessor along a priced edge, and its
/// distance is the predecessor's plus the edge's price.
pub open spec fn linked(
    g: GraphModel,
    table: Seq<Option<u64>>,
    dir: Direction,
    d: Seq<Option<u64>>,
    pred: Seq<Option<NodeIndex>>,
    link: Seq<Option<EdgeIndex>>,
    done: Seq<bool>,
    v: int,
) -> bool {
    let u = pred_of(pred, v);
    let e = link_of(link, v);
    &&& pred[v] is Some
    &&& link[v] is Some
    &&& 0 <= u < g.node_count
    &&& done[u]
    &&& d[u] is Some
    &&& follows(g, priced(table), dir, e, u, v)
    &&& dist(d, v) == dist(d, u) + price(table, e)
}

/// No cheaper way to `y` through edge `e` out of `x` is left unrecorded.
pub open spec fn relaxed_from(table: Seq<Option<u64>>, d: Seq<Option<u64>>, x: int, e: int, y: int) -> bool {
    (table[e] is Some && dist(d, x) + price(table, e) <= u64::MAX) ==> (d[y] is Some && dist(d, y) <= dist(d, x)
        + price(table, e))
}

/// Everything a cheapest-route search from `s` keeps, except that settled
/// nodes have been relaxed.
pub open spec fn search_core(
    g: GraphModel,
    table: Seq<Option<u64>>,
    dir: Direction,
    s: int,
    d: Seq<Option<u64>>,
    pred: Seq<Option<NodeIndex>>,
    link: Seq<Option<EdgeIndex>>,
    done: Seq<bool>,
) -> bool {
    let n = g.node_count;
    &&& g.valid()
    &&& table.len() == g.edges.len()
    &&& d.len() == n && pred.len() == n && link.len() == n && done.len() == n
    &&& 0 <= s < n ==> d[s] == Some(0u64) && pred[s] is None
    &&& !(0 <= s < n) ==> forall|v: int| 0 <= v < n ==> (#[trigger] d[v]) is None
    &&& forall|v: int| 0 <= v < n && #[trigger] done[v] ==> d[v] is Some
    &&& forall|v: int| 0 <= v < n && #[trigger] pred[v] is Some ==> done[pred_of(pred, v)]
    &&& forall|v: int|
        #![trigger d[v]]
        0 <= v < n && v != s && d[v] is Some ==> linked(g, table, dir, d, pred, link, done, v)
    &&& forall|v: int|
        #![trigger d[v]]
        0 <= v < n && d[v] is Some ==> exists|p: Seq<int>, es: Seq<int>|
            #[trigger] route_between(g, table, dir, p, es, s, v) && route_cost(table, es) == dist(d, v)
    &&& forall|v: int, p: Seq<int>, es: Seq<int>|
        #![trigger done[v], route_between(g, table, dir, p, es, s, v)]
        0 <= v < n && done[v] && route_between(g, table, dir, p, es, s, v) && route_cost(table, es)
            <= u64::MAX ==> dist(d, v) <= route_cost(table, es)
    &&& forall|x: int, y: int|
        #![trigger done[x], done[y]]
        0 <= x < n && 0 <= y < n && done[x] && !done[y] && d[y] is Some ==> dist(d, x) <= dist(d, y)
}

/// The state of a cheapest-route search from `s` between two settlements.
pub open spec fn tracks(
    g: GraphModel,
    table: Seq<Option<u64>>,
    dir: Direction,
    s: int,
    d: Seq<Option<u64>>,
    pred: Seq<Option<NodeIndex>>,
    link: Seq<Option<EdgeIndex>>,
    done: Seq<bool>,
) -> bool {
    &&& search_core(g, table, dir, s, d, pred, link, done)
    &&& forall|x: int, e: int, y: int|
        #![trigger done[x], follows(g, priced(table), dir, e, x, y)]
        0 <= x < g.node_count && done[x] && follows(g, priced(table), dir, e, x, y) ==> relaxed_from(
            table,
            d,
            x,
            e,
            y,
        )
}

/// The state while `u`, just settled, has its edges relaxed.
pub open spec fn settling(
    g: GraphModel,
    table: Seq<Option<u64>>,
    dir: Direction,
    s: int,
    d: Seq<Option<u64>>,
    pred: Seq<Option<NodeIndex>>,
    link: Seq<Option<EdgeIndex>>,
    done: Seq<bool>,
    u: int,
) -> bool {
    &&& search_core(g, table, dir, s, d, pred, link, done)
    &&& 0 <= u < g.node_count
    &&& done[u]
    &&& forall|x: int| 0 <= x < g.node_count && #[trigger] done[x] ==> dist(d, x) <= dist(d, u)
    &&& forall|x: int, e: int, y: int|
        #![trigger done[x], follows(g, priced(table), dir, e, x, y)]
        0 <= x < g.node_count && x != u && done[x] && follows(g, priced(table), dir, e, x, y)
            ==> relaxed_from(table, d, x, e, y)
}

/// Some settled node has a priced edge whose price, added to the node's
/// cheapest cost, exceeds `u64::MAX`.
pub open spec fn overflows(g: GraphModel, table: Seq<Option<u64>>, dir: Direction, s: int) -> bool {
    exists|u: int, c: int, e: int, y: int|
        #![trigger cheapest(g, table, dir, s, u, c), follows(g, priced(table), dir, e, u, y)]
        cheapest(g, table, dir, s, u, c) && follows(g, priced(table), dir, e, u, y) && c + price(table, e)
            > u64::MAX
}

/// The error of a search whose costs left `u64`.
pub open spec fn overflow_error() -> GraphError {
    GraphError::ArithmeticOverflow { operation: "generic Dijkstra path cost" }
}

/// How many nodes are settled.
pub open spec fn settled_count(done: Seq<bool>) -> nat
    decreases done.len(),
{
    if done.len() == 0 {
        0
    } else {
        settled_count(done.drop_last()) + if done.last() {
            1nat
        } else {
            0nat
        }
    }
}

/// A node left unsettled keeps the count below the length.
pub proof fn lemma_count_bound_strict(done: Seq<bool>, v: int)
    requires
        0 <= v < done.len(),
        !done[v],
    ensures
        settled_count(done) < done.len(),
    decreases done.len(),
{
    if v == done.len() - 1 {
        lemma_count_bound(done.drop_last());
    } else {
        lemma_count_bound_strict(done.drop_last(), v);
    }
}

pub proof fn lemma_count_bound(done: Seq<bool>)
    ensures
        settled_count(done) <= done.len(),
    decreases done.len(),
{
    if done.len() > 0 {
        lemma_count_bound(done.drop_last());
    }
}

pub proof fn lemma_count_update(done: Seq<bool>, v: int)
    requires
        0 <= v < done.len(),
        !done[v],
    ensures
        settled_count(done.update(v, true)) == settled_count(done) + 1,
    decreases done.len(),
{
    let after = done.update(v, true);
    if v == done.len() - 1 {
        assert(after.drop_last() =~= done.drop_last());
    } else {
        lemma_count_update(done.drop_last(), v);
        assert(after.drop_last() =~= done.drop_last().update(v, true));
    }
}

/// No node is settled yet.
#[verifier::opaque]
pub open spec fn nothing_settled(done: Seq<bool>) -> bool {
    forall|w: int| 0 <= w < done.len() ==> !#[trigger] done[w]
}

/// Reusable distance, predecessor and settlement storage for searches.
pub struct DijkstraWorkspace {
    distances: Vec<Option<u64>>,
    predecessors: Vec<Option<NodeIndex>>,
    links: Vec<Option<EdgeIndex>>,
    settled: Vec<bool>,
    rank: Ghost<Seq<nat>>,
}

impl DijkstraWorkspace {
    /// The tables have one entry per slot, and following predecessors
    /// strictly lowers a rank, so every predecessor chain ends.
    pub closed spec fn wf(&self) -> bool {
        let n = self.distances@.len();
        &&& self.predecessors@.len() == n
        &&& self.links@.len() == n
        &&& self.settled@.len() == n
        &&& self.rank@.len() == n
        &&& forall|v: int|
            0 <= v < n && #[trigger] self.predecessors@[v] is Some ==> 0 <= pred_of(self.predecessors@, v) < n
                && self.rank@[pred_of(self.predecessors@, v)] < self.rank@[v]
    }

    /// The recorded distance of every slot.
    pub closed spec fn distance_table(&self) -> Seq<Option<u64>> {
        self.distances@
    }

    /// Which slots are settled.
    pub closed spec fn settled_table(&self) -> Seq<bool> {
        self.settled@
    }

    /// The recorded predecessor of every slot.
    pub closed spec fn predecessor_table(&self) -> Seq<Option<NodeIndex>> {
        self.predecessors@
    }

    /// An empty workspace.
    pub fn new() -> (r: Self)
        ensures
            r.wf(),
            r.distance_table().len() == 0,
    {
        DijkstraWorkspace {
            distances: Vec::new(),
            predecessors: Vec::new(),
            links: Vec::new(),
            settled: Vec::new(),
            rank: Ghost(Seq::empty()),
        }
    }

    /// The distance recorded for `slot`, if any.
    pub fn distance_at(&self, slot: usize) -> (r: Option<u64>)
        ensures
            r == if slot < self.distance_table().len() {
                self.distance_table()[slot as int]
            } else {
                None
            },
    {
        if slot < self.distances.len() {
            self.distances[slot]
        } else {
            None
        }
    }

    /// The predecessor recorded for `slot`, if any.
    pub fn predecessor_at(&self, slot: usize) -> (r: Option<NodeIndex>)
        requires
            self.wf(),
        ensures
            r == if slot < self.predecessor_table().len() {
                self.predecessor_table()[slot as int]
            } else {
                None
            },
    {
        if slot < self.predecessors.len() {
            self.predecessors[slot]
        } else {
            None
        }
    }

    /// The nodes from `source` to `target` along recorded predecessors,
    /// when `target` has a distance and its predecessors lead to `source`.
    pub fn path_to(&self, source: NodeIndex, target: NodeIndex) -> (r: Option<Vec<NodeIndex>>)
        requires
            self.wf(),
        ensures
            match r {
                Some(p) => target.0 < self.distance_table().len() && self.distance_table()[target.0 as int]
                    is Some && chain(self.predecessor_table(), p@, source, target),
                None => !(target.0 < self.distance_table().len() && self.distance_table()[target.0 as int]
                    is Some && exists|p: Seq<NodeIndex>| #[trigger]
                    chain(self.predecessor_table(), p, source, target)),
            },
    {
        let ghost pred = self.predecessors@;
        let ghost rank = self.rank@;
        let ghost n = pred.len();
        if self.distance_at(target.index()).is_none() {
            return None;
        }
        let mut back: Vec<NodeIndex> = Vec::new();
        back.push(target);
        let mut cursor = target;
        while cursor.0 != source.0
            invariant
                self.wf(),
                pred == self.predecessors@,
                rank == self.rank@,
                n == pred.len(),
                0 <= cursor.0 < n,
                back@.len() >= 1,
                back@[0] == target,
                back@.last() == cursor,
                forall|i: int| 0 <= i < back@.len() ==> 0 <= #[trigger] back@[i].0 < n,
                forall|i: int| 1 <= i < back@.len() ==> #[trigger] pred[back@[i - 1].0 as int] == Some(back@[i]),
                forall|i: int| 0 <= i < back@.len() - 1 ==> #[trigger] back@[i].0 != source.0,
                forall|p: Seq<NodeIndex>|
                    #[trigger] chain(pred, p, source, target) ==> p.len() >= back@.len() && forall|j: int|
                        0 <= j < back@.len() ==> p[p.len() - 1 - j] == #[trigger] back@[j],
            decreases rank[cursor.0 as int],
        {
            let next = self.predecessor_at(cursor.index());
            match next {
                Some(u) => {
                    proof {
                        assert(pred[cursor.0 as int] is Some);
                        assert forall|p: Seq<NodeIndex>| #[trigger]
                            chain(pred, p, source, target) implies p.len() >= back@.len() + 1 && forall|j: int|
                            0 <= j < back@.len() + 1 ==> p[p.len() - 1 - j] == #[trigger] back@.push(u)[j] by {
                            let k = p.len() - back@.len();
                            assert(p[p.len() - 1 - (back@.len() - 1)] == back@[back@.len() - 1]);
                            assert(p[k] == cursor);
                            if k == 0 {
                                assert(p[0].0 == source.0);
                            }
                            assert(k >= 1);
                            let j = k - 1;
                            assert(pred[p[j + 1].0 as int] == Some(p[j]));
                            assert forall|j: int| 0 <= j < back@.len() + 1 implies p[p.len() - 1 - j]
                                == #[trigger] back@.push(u)[j] by {
                                if j < back@.len() {
                                    assert(back@.push(u)[j] == back@[j]);
                                }
                            }
                        }
                    }
                    back.push(u);
                    cursor = u;
                },
                None => {
                    proof {
                        assert forall|p: Seq<NodeIndex>| !#[trigger] chain(pred, p, source, target) by {
                            if chain(pred, p, source, target) {
                                let k = p.len() - back@.len();
                                assert(p[p.len() - 1 - (back@.len() - 1)] == back@[back@.len() - 1]);
                                if k == 0 {
                                    assert(p[0].0 == source.0);
                                } else {
                                    let j = k - 1;
                            assert(pred[p[j + 1].0 as int] == Some(p[j]));
                                }
                            }
                        }
                    }
                    return None;
                },
            }
        }
        let mut forward: Vec<NodeIndex> = Vec::new();
        let mut i: usize = back.len();
        while i > 0
            invariant
                i <= back@.len(),
                forward@.len() == back@.len() - i,
                forall|j: int| 0 <= j < forward@.len() ==> #[trigger] forward@[j] == back@[back@.len() - 1 - j],
            decreases i,
        {
            i = i - 1;
            forward.push(back[i]);
        }
        proof {
            let m = back@.len();
            assert(forward@.len() == m);
            assert forall|j: int| 1 <= j < m implies #[trigger] forward@[j].0 != source.0 by {
                assert(forward@[j] == back@[m - 1 - j]);
            }
            assert forall|j: int| 0 <= j < m - 1 implies #[trigger] pred[forward@[j + 1].0 as int] == Some(
                forward@[j],
            ) by {
                assert(forward@[j + 1] == back@[m - 1 - (j + 1)]);
                assert(forward@[j] == back@[m - 1 - j]);
                assert(pred[back@[(m - 1 - j) - 1].0 as int] == Some(back@[m - 1 - j]));
            }
            assert(forward@[0] == back@[m - 1]);
            assert(forward@[m - 1] == back@[0]);
        }
        Some(forward)
    }

    /// Clears the tables to `n` slots, with only `source` reached, at zero.
    fn begin(&mut self, n: usize, source: NodeIndex)
        ensures
            final(self).wf(),
            final(self).distances@.len() == n,
            final(self).settled@ == Seq::new(n as nat, |v: int| false),
            final(self).predecessors@ == Seq::new(n as nat, |v: int| None::<NodeIndex>),
            forall|v: int|
                0 <= v < n ==> #[trigger] final(self).distances@[v] == if v == source.0 {
                    Some(0u64)
                } else {
                    None
                },
    {
        self.distances = crate::util::filled_vec(None, n);
        self.predecessors = crate::util::filled_vec(None, n);
        self.links = crate::util::filled_vec(None, n);
        self.settled = crate::util::filled_vec(false, n);
        self.rank = Ghost(Seq::new(n as nat, |v: int| 0nat));
        if source.index() < n {
            self.distances.set(source.index(), Some(0));
        }
    }
}

/// `p` runs from `source` to `target`, meets `source` only at its start,
/// and each node after the first has the one before it as predecessor.
pub open spec fn chain(pred: Seq<Option<NodeIndex>>, p: Seq<NodeIndex>, source: NodeIndex, target: NodeIndex) -> bool {
    &&& p.len() >= 1
    &&& p[0].0 == source.0
    &&& p.last() == target
    &&& forall|j: int| 1 <= j < p.len() ==> #[trigger] p[j].0 != source.0
    &&& forall|j: int| 0 <= j < p.len() - 1 ==> #[trigger] pred[p[j + 1].0 as int] == Some(p[j])
}

/// A route to an unsettled node leaves the settled nodes somewhere: some
/// unsettled node already has a distance no larger than the route's cost.
proof fn lemma_exit(
    g: GraphModel,
    table: Seq<Option<u64>>,
    dir: Direction,
    s: int,
    d: Seq<Option<u64>>,
    pred: Seq<Option<NodeIndex>>,
    link: Seq<Option<EdgeIndex>>,
    done: Seq<bool>,
    p: Seq<int>,
    es: Seq<int>,
    v: int,
)
    requires
        tracks(g, table, dir, s, d, pred, link, done),
        route_between(g, table, dir, p, es, s, v),
        route_cost(table, es) <= u64::MAX,
        !done[v],
    ensures
        exists|y: int|
            0 <= y < g.node_count && !#[trigger] done[y] && d[y] is Some && dist(d, y) <= route_cost(table, es),
    decreases es.len(),
{
    assert(0 <= p[p.len() - 1] < g.node_count);
    if es.len() == 0 {
        assert(0 <= p[0] < g.node_count);
        assert(d[s] == Some(0u64));
        assert(!done[s] && d[s] is Some && dist(d, s) <= route_cost(table, es));
    } else {
        lemma_route_drop(g, table, dir, p, es);
        let q = p.drop_last();
        let fs = es.drop_last();
        let x = q.last();
        let e = es.last();
        lemma_cost_nonneg(table, fs);
        assert(q[0] == s);
        assert(route_between(g, table, dir, q, fs, s, x));
        assert(0 <= q[q.len() - 1] < g.node_count);
        if done[x] {
            assert(dist(d, x) <= route_cost(table, fs));
            assert(follows(g, priced(table), dir, e, x, v));
            assert(relaxed_from(table, d, x, e, v));
            assert(priced(table)[e]);
            assert(0 <= v < g.node_count);
            assert(!done[v] && d[v] is Some && dist(d, v) <= route_cost(table, es));
        } else {
            lemma_exit(g, table, dir, s, d, pred, link, done, q, fs, x);
        }
    }
}

/// Lowering the distance of the unsettled `w` to the cost through the
/// settling node `u` and edge `e` keeps the search state.
proof fn lemma_improve(
    g: GraphModel,
    table: Seq<Option<u64>>,
    dir: Direction,
    s: int,
    d: Seq<Option<u64>>,
    pred: Seq<Option<NodeIndex>>,
    link: Seq<Option<EdgeIndex>>,
    done: Seq<bool>,
    un: NodeIndex,
    en: EdgeIndex,
    w: int,
    cand: u64,
)
    requires
        settling(g, table, dir, s, d, pred, link, done, un.0 as int),
        0 <= w < g.node_count,
        !done[w],
        follows(g, priced(table), dir, en.0 as int, un.0 as int, w),
        cand == dist(d, un.0 as int) + price(table, en.0 as int),
        d[w] is None || cand < dist(d, w),
    ensures
        settling(
            g,
            table,
            dir,
            s,
            d.update(w, Some(cand)),
            pred.update(w, Some(un)),
            link.update(w, Some(en)),
            done,
            un.0 as int,
        ),
        w != s,
        w != un.0,
{
    let u = un.0 as int;
    let e = en.0 as int;
    let n = g.node_count;
    let d2 = d.update(w, Some(cand));
    let pred2 = pred.update(w, Some(un));
    let link2 = link.update(w, Some(en));
    assert(d[u] is Some);
    assert(u != w);
    if 0 <= s < n {
        assert(d[s] == Some(0u64));
        assert(w != s);
    } else {
        assert(d[u] is None);
    }
    assert(dist(d2, u) == dist(d, u));
    assert forall|v: int| 0 <= v < n && #[trigger] pred2[v] is Some implies done[pred_of(pred2, v)] by {
        if v != w {
            assert(pred[v] is Some);
        }
    }
    assert forall|v: int| #![trigger d2[v]] 0 <= v < n && v != s && d2[v] is Some implies linked(
        g,
        table,
        dir,
        d2,
        pred2,
        link2,
        done,
        v,
    ) by {
        if v != w {
            assert(d[v] is Some);
            assert(linked(g, table, dir, d, pred, link, done, v));
            let pu = pred_of(pred, v);
            assert(done[pu]);
            assert(pu != w);
            assert(d2[pu] == d[pu]);
        }
    }
    assert forall|v: int| #![trigger d2[v]] 0 <= v < n && d2[v] is Some implies exists|p: Seq<int>, es: Seq<int>|
        #[trigger] route_between(g, table, dir, p, es, s, v) && route_cost(table, es) == dist(d2, v) by {
        if v == w {
            assert(d[u] is Some);
            let (p, es) = choose|p: Seq<int>, es: Seq<int>|
                #[trigger] route_between(g, table, dir, p, es, s, u) && route_cost(table, es) == dist(d, u);
            lemma_route_push(g, table, dir, p, es, e, w);
            assert(route_between(g, table, dir, p.push(w), es.push(e), s, w));
        } else {
            assert(d[v] is Some);
        }
    }
    assert forall|v: int, p: Seq<int>, es: Seq<int>|
        #![trigger done[v], route_between(g, table, dir, p, es, s, v)]
        0 <= v < n && done[v] && route_between(g, table, dir, p, es, s, v) && route_cost(table, es)
            <= u64::MAX implies dist(d2, v) <= route_cost(table, es) by {
        assert(v != w);
    }
    assert forall|x: int, y: int|
        #![trigger done[x], done[y]]
        0 <= x < n && 0 <= y < n && done[x] && !done[y] && d2[y] is Some implies dist(d2, x) <= dist(d2, y) by {
        assert(x != w);
        if y != w {
            assert(d[y] is Some);
        } else {
            assert(dist(d, x) <= dist(d, u));
        }
    }
    assert forall|x: int| 0 <= x < n && #[trigger] done[x] implies dist(d2, x) <= dist(d2, u) by {
        assert(x != w);
    }
    assert forall|x: int, f: int, y: int|
        #![trigger done[x], follows(g, priced(table), dir, f, x, y)]
        0 <= x < n && x != u && done[x] && follows(g, priced(table), dir, f, x, y) implies relaxed_from(
            table,
            d2,
            x,
            f,
            y,
        ) by {
        assert(x != w);
        assert(relaxed_from(table, d, x, f, y));
    }
    assert forall|v: int| 0 <= v < n && #[trigger] done[v] implies d2[v] is Some by {
        assert(v != w);
    }
}

/// The unsettled node with the least distance, the lowest such slot on ties.
fn pick(ws: &DijkstraWorkspace) -> (r: Option<(usize, u64)>)
    requires
        ws.wf(),
    ensures
        match r {
            Some(x) => x.0 < ws.distances@.len() && !ws.settled@[x.0 as int] && ws.distances@[x.0 as int]
                == Some(x.1) && forall|v: int|
                0 <= v < ws.distances@.len() && !#[trigger] ws.settled@[v] && ws.distances@[v] is Some ==> x.1
                    <= dist(ws.distances@, v),
            None => forall|v: int|
                0 <= v < ws.distances@.len() && !#[trigger] ws.settled@[v] ==> ws.distances@[v] is None,
        },
{
    let n = ws.distances.len();
    let mut best: Option<(usize, u64)> = None;
    let mut v: usize = 0;
    while v < n
        invariant
            v <= n,
            n == ws.distances@.len(),
            ws.wf(),
            match best {
                Some(x) => x.0 < v && !ws.settled@[x.0 as int] && ws.distances@[x.0 as int] == Some(x.1)
                    && forall|w: int|
                    0 <= w < v && !#[trigger] ws.settled@[w] && ws.distances@[w] is Some ==> x.1 <= dist(
                        ws.distances@,
                        w,
                    ),
                None => forall|w: int| 0 <= w < v && !#[trigger] ws.settled@[w] ==> ws.distances@[w] is None,
            },
        decreases n - v,
    {
        if !ws.settled[v] {
            match ws.distances[v] {
                Some(c) => {
                    let better = match best {
                        None => true,
                        Some(x) => c < x.1,
                    };
                    if better {
                        best = Some((v, c));
                    }
                },
                None => {},
            }
        }
        v = v + 1;
    }
    best
}

/// Relaxes the edges of one adjacency row of the settling `node`.
fn relax_row(
    ws: &mut DijkstraWorkspace,
    graph: &Topology,
    table: &Vec<Option<u64>>,
    row: &[EdgeIndex],
    use_target: bool,
    node: NodeIndex,
    cost: u64,
    strict: bool,
    Ghost(s): Ghost<int>,
    Ghost(dir): Ghost<Direction>,
) -> (ok: bool)
    requires
        old(ws).wf(),
        settling(
            graph@,
            table@,
            dir,
            s,
            old(ws).distances@,
            old(ws).predecessors@,
            old(ws).links@,
            old(ws).settled@,
            node.0 as int,
        ),
        old(ws).distances@[node.0 as int] == Some(cost),
        forall|k: int|
            0 <= k < row@.len() ==> 0 <= #[trigger] row@[k].0 < graph@.edges.len() && (if use_target {
                graph@.edges[row@[k].0 as int].0 == node.0 && dir != Direction::Incoming
            } else {
                graph@.edges[row@[k].0 as int].1 == node.0 && dir != Direction::Outgoing
            }),
    ensures
        final(ws).wf(),
        final(ws).settled@ == old(ws).settled@,
        final(ws).distances@[node.0 as int] == Some(cost),
        settling(
            graph@,
            table@,
            dir,
            s,
            final(ws).distances@,
            final(ws).predecessors@,
            final(ws).links@,
            final(ws).settled@,
            node.0 as int,
        ),
        forall|v: int|
            0 <= v < graph@.node_count && (#[trigger] old(ws).distances@[v]) is Some ==> final(ws).distances@[v]
                is Some && dist(final(ws).distances@, v) <= dist(old(ws).distances@, v),
        ok ==> forall|k: int|
            0 <= k < row@.len() ==> relaxed_from(
                table@,
                final(ws).distances@,
                node.0 as int,
                #[trigger] row@[k].0 as int,
                if use_target {
                    graph@.edges[row@[k].0 as int].1
                } else {
                    graph@.edges[row@[k].0 as int].0
                },
            ),
        !ok ==> strict && exists|e: int, y: int|
            #[trigger] follows(graph@, priced(table@), dir, e, node.0 as int, y) && cost + price(table@, e)
                > u64::MAX,
        !strict ==> ok,
{
    let ghost g = graph@;
    let ghost u = node.0 as int;
    let ghost d0 = ws.distances@;
    let mut k: usize = 0;
    while k < row.len()
        invariant
            k <= row@.len(),
            g == graph@,
            u == node.0,
            table@.len() == g.edges.len(),
            ws.wf(),
            ws.settled@ == old(ws).settled@,
            ws.distances@[u] == Some(cost),
            settling(g, table@, dir, s, ws.distances@, ws.predecessors@, ws.links@, ws.settled@, u),
            forall|k: int|
                0 <= k < row@.len() ==> 0 <= #[trigger] row@[k].0 < g.edges.len() && (if use_target {
                    g.edges[row@[k].0 as int].0 == u && dir != Direction::Incoming
                } else {
                    g.edges[row@[k].0 as int].1 == u && dir != Direction::Outgoing
                }),
            forall|v: int|
                0 <= v < g.node_count && (#[trigger] d0[v]) is Some ==> ws.distances@[v] is Some && dist(
                    ws.distances@,
                    v,
                ) <= dist(d0, v),
            d0 == old(ws).distances@,
            forall|j: int|
                0 <= j < k ==> relaxed_from(
                    table@,
                    ws.distances@,
                    u,
                    #[trigger] row@[j].0 as int,
                    if use_target {
                        g.edges[row@[j].0 as int].1
                    } else {
                        g.edges[row@[j].0 as int].0
                    },
                ),
        decreases row@.len() - k,
    {
        let edge = row[k];
        let ends = match graph.edge_endpoints(edge) {
            Some(ends) => ends,
            None => {
                k = k + 1;
                continue;
            },
        };
        let far = if use_target {
            ends.target
        } else {
            ends.source
        };
        let ghost w = far.0 as int;
        let ghost e = edge.0 as int;
        proof {
            assert(0 <= g.edges[e].0 < g.node_count && 0 <= g.edges[e].1 < g.node_count);
            assert(w == if use_target { g.edges[e].1 } else { g.edges[e].0 });
        }
        match table[edge.index()] {
            None => {},
            Some(weight) => {
                proof {
                    assert(priced(table@)[e]);
                    assert(follows(g, priced(table@), dir, e, u, w));
                }
                match cost.checked_add(weight) {
                    None => {
                        if strict {
                            proof {
                                assert(follows(g, priced(table@), dir, e, u, w) && cost + price(table@, e)
                                    > u64::MAX);
                            }
                            return false;
                        }
                    },
                    Some(cand) => {
                        if !ws.settled[far.index()] {
                            let improves = match ws.distances[far.index()] {
                                None => true,
                                Some(known) => cand < known,
                            };
                            if improves {
                                let ghost dp = ws.distances@;
                                let ghost pp = ws.predecessors@;
                                let ghost rp = ws.rank@;
                                proof {
                                    assert forall|v: int| 0 <= v < dp.len() && #[trigger] pp[v] is Some implies 0
                                        <= pred_of(pp, v) < dp.len() && rp[pred_of(pp, v)] < rp[v] by {
                                        assert(ws.predecessors@[v] is Some);
                                    }
                                }
                                proof {
                                    lemma_improve(
                                        g,
                                        table@,
                                        dir,
                                        s,
                                        ws.distances@,
                                        ws.predecessors@,
                                        ws.links@,
                                        ws.settled@,
                                        node,
                                        edge,
                                        w,
                                        cand,
                                    );
                                }
                                ws.distances.set(far.index(), Some(cand));
                                ws.predecessors.set(far.index(), Some(node));
                                ws.links.set(far.index(), Some(edge));
                                ws.rank = Ghost(ws.rank@.update(w, ws.rank@[u] + 1));
                                proof {
                                    assert forall|v: int|
                                        0 <= v < ws.distances@.len() && #[trigger] ws.predecessors@[v] is Some implies 0
                                            <= pred_of(ws.predecessors@, v) < ws.distances@.len()
                                            && ws.rank@[pred_of(ws.predecessors@, v)] < ws.rank@[v] by {
                                        if v != w {
                                            assert(pp[v] is Some);
                                            assert(ws.settled@[pred_of(pp, v)]);
                                            assert(pred_of(ws.predecessors@, v) == pred_of(pp, v));
                                        }
                                    }
                                    assert forall|j: int| 0 <= j < k implies relaxed_from(
                                        table@,
                                        ws.distances@,
                                        u,
                                        #[trigger] row@[j].0 as int,
                                        if use_target {
                                            g.edges[row@[j].0 as int].1
                                        } else {
                                            g.edges[row@[j].0 as int].0
                                        },
                                    ) by {
                                        let y = if use_target {
                                            g.edges[row@[j].0 as int].1
                                        } else {
                                            g.edges[row@[j].0 as int].0
                                        };
                                        assert(relaxed_from(table@, dp, u, row@[j].0 as int, y));
                                    }
                                }
                            }
                        } else {
                            proof {
                                assert(dist(ws.distances@, w) <= dist(ws.distances@, u));
                            }
                        }
                    },
                }
            },
        }
        k = k + 1;
    }
    true
}

/// Relaxes every edge that leaves the settling `node` in direction `dir`.
fn relax(
    ws: &mut DijkstraWorkspace,
    graph: &Topology,
    table: &Vec<Option<u64>>,
    dir: Direction,
    node: NodeIndex,
    cost: u64,
    strict: bool,
    Ghost(s): Ghost<int>,
) -> (ok: bool)
    requires
        old(ws).wf(),
        settling(
            graph@,
            table@,
            dir,
            s,
            old(ws).distances@,
            old(ws).predecessors@,
            old(ws).links@,
            old(ws).settled@,
            node.0 as int,
        ),
        old(ws).distances@[node.0 as int] == Some(cost),
    ensures
        final(ws).wf(),
        final(ws).settled@ == old(ws).settled@,
        ok ==> tracks(
            graph@,
            table@,
            dir,
            s,
            final(ws).distances@,
            final(ws).predecessors@,
            final(ws).links@,
            final(ws).settled@,
        ),
        !ok ==> strict && exists|e: int, y: int|
            #[trigger] follows(graph@, priced(table@), dir, e, node.0 as int, y) && cost + price(table@, e)
                > u64::MAX,
        !strict ==> ok,
{
    let ghost g = graph@;
    let ghost u = node.0 as int;
    let ghost d0 = ws.distances@;
    if dir != Direction::Incoming {
        let row = graph.outgoing_edges(node);
        proof {
            lemma_adj_members(g.edges, g.edges.len(), 0, u);
            assert forall|k: int| 0 <= k < row@.len() implies 0 <= #[trigger] row@[k].0 < g.edges.len()
                && g.edges[row@[k].0 as int].0 == u by {
                assert(edge_ints(row@)[k] == row@[k].0 as int);
            }
        }
        let ok = relax_row(ws, graph, table, row, true, node, cost, strict, Ghost(s), Ghost(dir));
        if !ok {
            return false;
        }
        proof {
            assert forall|e: int| 0 <= e < g.edges.len() && g.edges[e].0 == u implies #[trigger] relaxed_from(
                table@,
                ws.distances@,
                u,
                e,
                g.edges[e].1,
            ) by {
                assert(g.out_edges(u).contains(e));
                let k = choose|k: int| 0 <= k < g.out_edges(u).len() && g.out_edges(u)[k] == e;
                assert(edge_ints(row@)[k] == row@[k].0 as int);
                assert(row@[k].0 == e);
            }
        }
    }
    let ghost d1 = ws.distances@;
    if dir != Direction::Outgoing {
        let row = graph.incoming_edges(node);
        proof {
            lemma_adj_members(g.edges, g.edges.len(), 1, u);
            assert forall|k: int| 0 <= k < row@.len() implies 0 <= #[trigger] row@[k].0 < g.edges.len()
                && g.edges[row@[k].0 as int].1 == u by {
                assert(edge_ints(row@)[k] == row@[k].0 as int);
            }
        }
        let ok = relax_row(ws, graph, table, row, false, node, cost, strict, Ghost(s), Ghost(dir));
        if !ok {
            return false;
        }
        proof {
            assert forall|e: int| 0 <= e < g.edges.len() && g.edges[e].1 == u implies #[trigger] relaxed_from(
                table@,
                ws.distances@,
                u,
                e,
                g.edges[e].0,
            ) by {
                assert(g.in_edges(u).contains(e));
                let k = choose|k: int| 0 <= k < g.in_edges(u).len() && g.in_edges(u)[k] == e;
                assert(edge_ints(row@)[k] == row@[k].0 as int);
                assert(row@[k].0 == e);
            }
        }
    }
    proof {
        let d = ws.distances@;
        assert forall|x: int, e: int, y: int|
            #![trigger ws.settled@[x], follows(g, priced(table@), dir, e, x, y)]
            0 <= x < g.node_count && ws.settled@[x] && follows(g, priced(table@), dir, e, x, y) implies relaxed_from(
                table@,
                d,
                x,
                e,
                y,
            ) by {
            if x == u {
                if dir != Direction::Incoming && g.edges[e].0 == u && g.edges[e].1 == y {
                    assert(relaxed_from(table@, d1, u, e, g.edges[e].1));
                    if d1[y] is Some {
                        assert(d[y] is Some && dist(d, y) <= dist(d1, y));
                    }
                } else {
                    assert(relaxed_from(table@, d, u, e, g.edges[e].0));
                }
            }
        }
    }
    true
}

/// A lazy cheapest-route search that settles one node per step, in order of
/// cost, along priced edges in one direction.
pub struct Dijkstra<'g> {
    graph: &'g Topology,
    workspace: DijkstraWorkspace,
    direction: Direction,
    table: Vec<Option<u64>>,
    source: NodeIndex,
    strict: bool,
    failed: bool,
}

impl<'g> Dijkstra<'g> {
    /// The search state is consistent with its graph, prices and source.
    pub closed spec fn inv(&self) -> bool {
        &&& self.workspace.wf()
        &&& self.table@.len() == self.graph@.edges.len()
        &&& self.workspace.distances@.len() == self.graph@.node_count
        &&& !self.failed ==> tracks(
            self.graph@,
            self.table@,
            self.direction,
            self.source.0 as int,
            self.workspace.distances@,
            self.workspace.predecessors@,
            self.workspace.links@,
            self.workspace.settled@,
        )
    }

    /// The searched graph.
    pub closed spec fn model(&self) -> GraphModel {
        self.graph@
    }

    /// The price of every edge.
    pub closed spec fn prices(&self) -> Seq<Option<u64>> {
        self.table@
    }

    /// The direction edges are followed in.
    pub closed spec fn heading(&self) -> Direction {
        self.direction
    }

    /// The position of the source.
    pub closed spec fn origin(&self) -> int {
        self.source.0 as int
    }

    /// Whether a cost overflow stops the search with an error.
    pub closed spec fn is_strict(&self) -> bool {
        self.strict
    }

    /// Whether the search stopped on an error.
    pub closed spec fn has_failed(&self) -> bool {
        self.failed
    }

    /// Which nodes have been settled.
    pub closed spec fn settled_nodes(&self) -> Seq<bool> {
        self.workspace.settled@
    }

    /// The distance recorded for `v`.
    pub closed spec fn cost_of(&self, v: int) -> int {
        dist(self.workspace.distances@, v)
    }

    pub(crate) fn start(
        graph: &'g Topology,
        source: NodeIndex,
        direction: Direction,
        workspace: DijkstraWorkspace,
        table: Vec<Option<u64>>,
        strict: bool,
    ) -> (r: Self)
        requires
            table@.len() == graph@.edges.len(),
        ensures
            r.inv(),
            r.model() == graph@,
            r.prices() == table@,
            r.heading() == direction,
            r.origin() == source.0,
            r.is_strict() == strict,
            !r.has_failed(),
            r.settled_nodes() == Seq::new(graph@.node_count, |v: int| false),
    {
        let n = graph.node_count();
        let mut workspace = workspace;
        workspace.begin(n, source);
        let r = Dijkstra {
            graph,
            workspace,
            direction,
            table,
            source,
            strict,
            failed: false,
        };
        proof {
            let g = graph@;
            let s = source.0 as int;
            let d = r.workspace.distances@;
            if 0 <= s < n {
                let p = seq![s];
                let es = Seq::<int>::empty();
                assert(route_between(g, r.table@, direction, p, es, s, s));
                assert(route_cost(r.table@, es) == dist(d, s));
            }
            assert forall|v: int| #![trigger d[v]] 0 <= v < n && d[v] is Some implies exists|p: Seq<int>, es: Seq<int>|
                #[trigger] route_between(g, r.table@, direction, p, es, s, v) && route_cost(r.table@, es)
                    == dist(d, v) by {
                let p = seq![s];
                let es = Seq::<int>::empty();
                assert(route_between(g, r.table@, direction, p, es, s, v));
            }
        }
        r
    }

    /// A strict search from `source` in `direction` with prices asked once
    /// per edge from `edge_cost`; edges priced `None` are not followed.
    pub fn filtered<F: Fn(EdgeIndex) -> Option<u64>>(
        graph: &'g Topology,
        source: NodeIndex,
        direction: Direction,
        workspace: DijkstraWorkspace,
        edge_cost: F,
    ) -> (r: Self)
        requires
            forall|e: EdgeIndex| call_requires(edge_cost, (e,)),
        ensures
            r.inv(),
            r.model() == graph@,
            quoted(edge_cost, graph@, r.prices()),
            r.heading() == direction,
            r.origin() == source.0,
            r.is_strict(),
            !r.has_failed(),
            r.settled_nodes() == Seq::new(graph@.node_count, |v: int| false),
    {
        let table = quote(graph, &edge_cost);
        Self::start(graph, source, direction, workspace, table, true)
    }

    /// Settles the next node: the unsettled one with the cheapest route from
    /// the source (lowest slot on ties), with that route's cost. `None` once
    /// every node with such a route is settled, or after an error. The first
    /// node settled is the source, at cost zero.
    #[verifier::spinoff_prover]
    #[verifier::rlimit(40)]
    pub fn next(&mut self) -> (r: Option<Result<(NodeIndex, u64)>>)
        requires
            old(self).inv(),
        ensures
            final(self).inv(),
            final(self).model() == old(self).model(),
            final(self).prices() == old(self).prices(),
            final(self).heading() == old(self).heading(),
            final(self).origin() == old(self).origin(),
            final(self).is_strict() == old(self).is_strict(),
            !final(self).has_failed() ==> forall|v: int|
                0 <= v < final(self).model().node_count && #[trigger] final(self).settled_nodes()[v] ==> cheapest(
                    final(self).model(),
                    final(self).prices(),
                    final(self).heading(),
                    final(self).origin(),
                    v,
                    final(self).cost_of(v),
                ),
            match r {
                None => final(self).settled_nodes() == old(self).settled_nodes() && final(self).has_failed()
                    == old(self).has_failed() && (!old(self).has_failed() ==> forall|v: int|
                    affordable(
                        old(self).model(),
                        old(self).prices(),
                        old(self).heading(),
                        old(self).origin(),
                        v,
                    ) ==> #[trigger] old(self).settled_nodes()[v]),
                Some(Ok((v, c))) => {
                    &&& !old(self).has_failed()
                    &&& !final(self).has_failed()
                    &&& nothing_settled(old(self).settled_nodes()) ==> v.0 == old(self).origin() && c == 0
                    &&& 0 <= v.0 < old(self).model().node_count
                    &&& !old(self).settled_nodes()[v.0 as int]
                    &&& final(self).settled_nodes() == old(self).settled_nodes().update(v.0 as int, true)
                    &&& final(self).cost_of(v.0 as int) == c
                    &&& cheapest(
                        old(self).model(),
                        old(self).prices(),
                        old(self).heading(),
                        old(self).origin(),
                        v.0 as int,
                        c as int,
                    )
                    &&& forall|w: int, p: Seq<int>, es: Seq<int>|
                        !old(self).settled_nodes()[w] && #[trigger] route_between(
                            old(self).model(),
                            old(self).prices(),
                            old(self).heading(),
                            p,
                            es,
                            old(self).origin(),
                            w,
                        ) && route_cost(old(self).prices(), es) <= u64::MAX ==> c <= route_cost(
                            old(self).prices(),
                            es,
                        )
                },
                Some(Err(err)) => {
                    &&& old(self).is_strict()
                    &&& !old(self).has_failed()
                    &&& final(self).has_failed()
                    &&& err == overflow_error()
                    &&& overflows(old(self).model(), old(self).prices(), old(self).heading(), old(self).origin())
                },
            },
            !old(self).is_strict() ==> !(r matches Some(Err(_))),
    {
        if self.failed {
            return None;
        }
        let ghost g = self.graph@;
        let ghost table = self.table@;
        let ghost dir = self.direction;
        let ghost s = self.source.0 as int;
        let _n = self.graph.node_count();
        let picked = pick(&self.workspace);
        match picked {
            None => {
                proof {
                    let d = self.workspace.distances@;
                    let done = self.workspace.settled@;
                    assert forall|v: int| affordable(g, table, dir, s, v) implies #[trigger] done[v] by {
                        let (p, es) = choose|p: Seq<int>, es: Seq<int>|
                            #[trigger] route_between(g, table, dir, p, es, s, v) && route_cost(table, es)
                                <= u64::MAX;
                        if !done[v] {
                            lemma_exit(
                                g,
                                table,
                                dir,
                                s,
                                d,
                                self.workspace.predecessors@,
                                self.workspace.links@,
                                done,
                                p,
                                es,
                                v,
                            );
                            let y = choose|y: int|
                                0 <= y < g.node_count && !#[trigger] done[y] && d[y] is Some && dist(d, y)
                                    <= route_cost(table, es);
                            assert(d[y] is None);
                        }
                    }
                    self.lemma_settled_cheapest();
                }
                None
            },
            Some((u, c)) => {
                let ghost d = self.workspace.distances@;
                let ghost pred = self.workspace.predecessors@;
                let ghost link = self.workspace.links@;
                let ghost done = self.workspace.settled@;
                proof {
                    assert forall|w: int, p: Seq<int>, es: Seq<int>|
                        !done[w] && #[trigger] route_between(g, table, dir, p, es, s, w) && route_cost(table, es)
                            <= u64::MAX implies c <= route_cost(table, es) by {
                        lemma_exit(g, table, dir, s, d, pred, link, done, p, es, w);
                        let y = choose|y: int|
                            0 <= y < g.node_count && !#[trigger] done[y] && d[y] is Some && dist(d, y)
                                <= route_cost(table, es);
                    }
                    assert(d[u as int] is Some);
                    if nothing_settled(done) {
                        reveal(nothing_settled);
                        if u as int != s {
                            assert(linked(g, table, dir, d, pred, link, done, u as int));
                            assert(done[pred_of(pred, u as int)]);
                        }
                    }
                    let (p, es) = choose|p: Seq<int>, es: Seq<int>|
                        #[trigger] route_between(g, table, dir, p, es, s, u as int) && route_cost(table, es) == dist(
                            d,
                            u as int,
                        );
                    assert(cheapest(g, table, dir, s, u as int, c as int));
                }
                self.workspace.settled.set(u, true);
                proof {
                    let done2 = self.workspace.settled@;
                    assert(search_core(g, table, dir, s, d, pred, link, done2)) by {
                        assert forall|v: int, p: Seq<int>, es: Seq<int>|
                            #![trigger done2[v], route_between(g, table, dir, p, es, s, v)]
                            0 <= v < g.node_count && done2[v] && route_between(g, table, dir, p, es, s, v)
                                && route_cost(table, es) <= u64::MAX implies dist(d, v) <= route_cost(table, es) by {
                            if v != u {
                                assert(done[v]);
                            }
                        }
                        assert forall|x: int, y: int|
                            #![trigger done2[x], done2[y]]
                            0 <= x < g.node_count && 0 <= y < g.node_count && done2[x] && !done2[y] && d[y] is Some
                                implies dist(d, x) <= dist(d, y) by {
                            if x != u {
                                assert(done[x]);
                            }
                        }
                        assert forall|v: int| 0 <= v < g.node_count && #[trigger] pred[v] is Some implies done2[pred_of(pred, v)] by {
                            assert(done[pred_of(pred, v)]);
                        }
                        assert forall|v: int| #![trigger d[v]] 0 <= v < g.node_count && v != s && d[v] is Some implies linked(
                            g, table, dir, d, pred, link, done2, v) by {
                            assert(linked(g, table, dir, d, pred, link, done, v));
                        }
                        assert forall|v: int| 0 <= v < g.node_count && #[trigger] done2[v] implies d[v] is Some by {
                            if v != u {
                                assert(done[v]);
                            }
                        }
                    }
                    assert forall|x: int| 0 <= x < g.node_count && #[trigger] done2[x] implies dist(d, x) <= dist(d, u as int) by {
                        if x != u {
                            assert(done[x]);
                        }
                    }
                    assert forall|x: int, e: int, y: int|
                        #![trigger done2[x], follows(g, priced(table), dir, e, x, y)]
                        0 <= x < g.node_count && x != u && done2[x] && follows(g, priced(table), dir, e, x, y)
                            implies relaxed_from(table, d, x, e, y) by {
                        assert(done[x]);
                    }
                    assert(done2[u as int]);
                    assert(settling(g, table, dir, s, d, pred, link, done2, u as int));
                }
                let node = NodeIndex::new(u as u32);
                let ok = relax(
                    &mut self.workspace,
                    self.graph,
                    &self.table,
                    self.direction,
                    node,
                    c,
                    self.strict,
                    Ghost(s),
                );
                if !ok {
                    self.failed = true;
                    proof {
                        let (e, y) = choose|e: int, y: int|
                            #[trigger] follows(g, priced(table), dir, e, u as int, y) && c + price(table, e) > u64::MAX;
                        assert(cheapest(g, table, dir, s, u as int, c as int));
                        assert(overflows(g, table, dir, s));
                    }
                    return Some(Err(GraphError::ArithmeticOverflow { operation: "generic Dijkstra path cost" }));
                }
                proof {
                    self.lemma_settled_cheapest();
                    assert(self.workspace.settled@ =~= done.update(u as int, true));
                }
                Some(Ok((node, c)))
            },
        }
    }

    /// Every settled node's recorded distance is its cheapest cost.
    proof fn lemma_settled_cheapest(&self)
        requires
            self.inv(),
            !self.failed,
        ensures
            forall|v: int|
                0 <= v < self.model().node_count && #[trigger] self.settled_nodes()[v] ==> cheapest(
                    self.model(),
                    self.prices(),
                    self.heading(),
                    self.origin(),
                    v,
                    self.cost_of(v),
                ),
    {
        let g = self.graph@;
        let table = self.table@;
        let dir = self.direction;
        let s = self.source.0 as int;
        let d = self.workspace.distances@;
        assert forall|v: int|
            0 <= v < g.node_count && #[trigger] self.workspace.settled@[v] implies cheapest(g, table, dir, s, v, dist(d, v)) by {
            assert(d[v] is Some);
        }
    }

    /// One flag per node, and every settled node holds its cheapest cost.
    pub(crate) proof fn lemma_settled(&self)
        requires
            self.inv(),
        ensures
            self.settled_nodes().len() == self.model().node_count,
            self.prices().len() == self.model().edges.len(),
            !self.has_failed() ==> forall|v: int|
                0 <= v < self.model().node_count && #[trigger] self.settled_nodes()[v] ==> cheapest(
                    self.model(),
                    self.prices(),
                    self.heading(),
                    self.origin(),
                    v,
                    self.cost_of(v),
                ),
    {
        if !self.failed {
            let g = self.graph@;
            let d = self.workspace.distances@;
            assert forall|v: int|
                0 <= v < g.node_count && #[trigger] self.workspace.settled@[v] implies cheapest(
                g,
                self.table@,
                self.direction,
                self.source.0 as int,
                v,
                dist(d, v),
            ) by {
                assert(d[v] is Some);
            }
        }
    }

    /// Whether `v` has been settled.
    pub(crate) fn is_settled(&self, v: NodeIndex) -> (r: bool)
        requires
            self.inv(),
            v.0 < self.model().node_count,
        ensures
            r == self.settled_nodes()[v.0 as int],
    {
        self.workspace.settled[v.index()]
    }

    /// The cost recorded for the settled node `v`.
    pub(crate) fn settled_cost(&self, v: NodeIndex) -> (r: u64)
        requires
            self.inv(),
            !self.has_failed(),
            v.0 < self.model().node_count,
            self.settled_nodes()[v.0 as int],
        ensures
            r == self.cost_of(v.0 as int),
    {
        match self.workspace.distances[v.index()] {
            Some(c) => c,
            None => 0,
        }
    }

    /// The nodes of a cheapest route from the source to the reached
    /// `target`, rebuilt along recorded predecessors.
    pub(crate) fn route_to(&self, target: NodeIndex) -> (r: Vec<NodeIndex>)
        requires
            self.inv(),
            !self.has_failed(),
            0 <= target.0 < self.model().node_count,
            self.settled_nodes()[target.0 as int],
        ensures
            exists|es: Seq<int>|
                #[trigger] route_between(
                    self.model(),
                    self.prices(),
                    self.heading(),
                    node_ints(r@),
                    es,
                    self.origin(),
                    target.0 as int,
                ) && route_cost(self.prices(), es) == self.cost_of(target.0 as int),
    {
        let ghost g = self.graph@;
        let ghost table = self.table@;
        let ghost dir = self.direction;
        let ghost s = self.source.0 as int;
        let ghost d = self.workspace.distances@;
        let ghost pred = self.workspace.predecessors@;
        let ghost link = self.workspace.links@;
        let ghost rank = self.workspace.rank@;
        let ghost t = target.0 as int;
        let mut back: Vec<NodeIndex> = Vec::new();
        back.push(target);
        let mut cursor = target;
        let ghost mut p: Seq<int> = seq![t];
        let ghost mut es: Seq<int> = Seq::empty();
        proof {
            assert(d[t] is Some);
            assert(route(g, table, dir, p, es));
        }
        while cursor.0 != self.source.0
            invariant
                self.inv(),
                !self.failed,
                g == self.graph@,
                table == self.table@,
                dir == self.direction,
                s == self.source.0,
                d == self.workspace.distances@,
                pred == self.workspace.predecessors@,
                link == self.workspace.links@,
                rank == self.workspace.rank@,
                0 <= t < g.node_count,
                d[t] is Some,
                0 <= cursor.0 < g.node_count,
                d[cursor.0 as int] is Some,
                route(g, table, dir, p, es),
                p[0] == cursor.0,
                p.last() == t,
                route_cost(table, es) == dist(d, t) - dist(d, cursor.0 as int),
                back@.len() == p.len(),
                forall|i: int| 0 <= i < back@.len() ==> #[trigger] back@[i].0 == p[p.len() - 1 - i],
            decreases rank[cursor.0 as int],
        {
            let ghost v = cursor.0 as int;
            proof {
                assert(linked(g, table, dir, d, pred, link, self.workspace.settled@, v));
            }
            let u = match self.workspace.predecessors[cursor.index()] {
                Some(u) => u,
                None => {
                    proof {
                        assert(false);
                    }
                    return back;
                },
            };
            proof {
                let e = link_of(link, v);
                lemma_route_prepend(g, table, dir, p, es, e, u.0 as int);
                let p2 = seq![u.0 as int] + p;
                assert forall|i: int| 0 <= i < back@.len() + 1 implies #[trigger] back@.push(u)[i].0 == p2[p2.len() - 1 - i] by {
                    if i < back@.len() {
                        assert(back@.push(u)[i] == back@[i]);
                    }
                }
                p = p2;
                es = seq![e] + es;
            }
            back.push(u);
            cursor = u;
        }
        let mut forward: Vec<NodeIndex> = Vec::new();
        let mut i: usize = back.len();
        while i > 0
            invariant
                i <= back@.len(),
                forward@.len() == back@.len() - i,
                forall|j: int| 0 <= j < forward@.len() ==> #[trigger] forward@[j] == back@[back@.len() - 1 - j],
            decreases i,
        {
            i = i - 1;
            forward.push(back[i]);
        }
        proof {
            assert(node_ints(forward@) =~= p) by {
                assert forall|j: int| 0 <= j < p.len() implies #[trigger] node_ints(forward@)[j] == p[j] by {
                    assert(forward@[j] == back@[back@.len() - 1 - j]);
                }
            }
            assert(cursor.0 == s);
            assert(d[s] == Some(0u64));
            assert(dist(d, s) == 0);
            assert(route_cost(table, es) == dist(d, t));
            assert(route_between(g, table, dir, node_ints(forward@), es, s, t));
            assert(self.cost_of(t) == dist(d, t));
            assert(route_between(
                self.model(),
                self.prices(),
                self.heading(),
                node_ints(forward@),
                es,
                self.origin(),
                target.0 as int,
            ) && route_cost(self.prices(), es) == self.cost_of(target.0 as int));
        }
        forward
    }

    /// The workspace holding this search's tables.
    pub fn workspace(&self) -> (r: &DijkstraWorkspace)
        requires
            self.inv(),
        ensures
            r.wf(),
    {
        &self.workspace
    }

    /// Ends the search and hands back its workspace, whose tables hold
    /// the search's distances and settled nodes.
    pub fn into_workspace(self) -> (r: DijkstraWorkspace)
        requires
            self.inv(),
        ensures
            r.wf(),
            r.distance_table().len() == self.model().node_count,
            forall|v: int| 0 <= v < self.model().node_count ==> dist(r.distance_table(), v) == self.cost_of(v),
            r.settled_table() == self.settled_nodes(),
    {
        self.workspace
    }
}

/// A strict search from `source` along outgoing edges, priced once per edge
/// by `edge_cost`.
pub fn dijkstra_iter<'g, F: Fn(EdgeIndex) -> u64>(
    graph: &'g Topology,
    source: NodeIndex,
    workspace: DijkstraWorkspace,
    edge_cost: F,
) -> (r: Dijkstra<'g>)
    requires
        forall|e: EdgeIndex| call_requires(edge_cost, (e,)),
    ensures
        r.inv(),
        r.model() == graph@,
        quoted_total(edge_cost, graph@, r.prices()),
        r.heading() == Direction::Outgoing,
        r.origin() == source.0,
        r.is_strict(),
        !r.has_failed(),
        r.settled_nodes() == Seq::new(graph@.node_count, |v: int| false),
{
    let table = quote_total(graph, &edge_cost);
    Dijkstra::start(graph, source, Direction::Outgoing, workspace, table, true)
}

/// A strict search from `source` in `direction`, priced once per edge by
/// `edge_cost`; edges priced `None` are not followed.
pub fn dijkstra_iter_filtered<'g, F: Fn(EdgeIndex) -> Option<u64>>(
    graph: &'g Topology,
    source: NodeIndex,
    direction: Direction,
    workspace: DijkstraWorkspace,
    edge_cost: F,
) -> (r: Dijkstra<'g>)
    requires
        forall|e: EdgeIndex| call_requires(edge_cost, (e,)),
    ensures
        r.inv(),
        r.model() == graph@,
        quoted(edge_cost, graph@, r.prices()),
        r.heading() == direction,
        r.origin() == source.0,
        r.is_strict(),
        !r.has_failed(),
        r.settled_nodes() == Seq::new(graph@.node_count, |v: int| false),
{
    Dijkstra::filtered(graph, source, direction, workspace, edge_cost)
}

} // verus!
