//! Cheapest routes found by two searches that meet in the middle.
use super::dijkstra::{settled_count, Dijkstra, DijkstraWorkspace};
use super::reach::{follows, node_ints, Direction};
use super::routes::{
    affordable, cheapest, lemma_cost_nonneg, lemma_route_push, price, priced, quote_total, quoted_total, route,
    route_between, route_cost,
};
use super::shortest::{shortest_route, WeightedPath};
use crate::topology::{edge_ints, EdgeIndex, GraphModel, NodeIndex, Topology};
use crate::topology::model::lemma_adj_members;
use vstd::prelude::*;

verus! {

/// The direction that walks the same edges the other way.
pub open spec fn flipped(d: Direction) -> Direction {
    match d {
        Direction::Outgoing => Direction::Incoming,
        Direction::Incoming => Direction::Outgoing,
        Direction::Both => Direction::Both,
    }
}

/// The cost of two routes joined end to end is the sum of their costs.
pub proof fn lemma_cost_concat(table: Seq<Option<u64>>, a: Seq<int>, b: Seq<int>)
    ensures
        route_cost(table, a + b) == route_cost(table, a) + route_cost(table, b),
    decreases b.len(),
{
    if b.len() == 0 {
        assert(a + b =~= a);
    } else {
        lemma_cost_concat(table, a, b.drop_last());
        assert((a + b).drop_last() =~= a + b.drop_last());
        assert((a + b).last() == b.last());
    }
}

/// Reversing the edges of a route keeps its cost.
pub proof fn lemma_cost_reverse(table: Seq<Option<u64>>, es: Seq<int>)
    ensures
        route_cost(table, es.reverse()) == route_cost(table, es),
    decreases es.len(),
{
    if es.len() > 0 {
        lemma_cost_reverse(table, es.drop_last());
        assert(es.reverse() =~= seq![es.last()] + es.drop_last().reverse());
        lemma_cost_concat(table, seq![es.last()], es.drop_last().reverse());
        assert(seq![es.last()].drop_last() =~= Seq::<int>::empty());
        assert(route_cost(table, Seq::<int>::empty()) == 0);
        assert(route_cost(table, seq![es.last()]) == price(table, es.last()));
    } else {
        assert(es.reverse() =~= es);
    }
}

/// A route walked backwards is a route in the flipped direction, at the
/// same cost.
pub proof fn lemma_route_reverse(g: GraphModel, table: Seq<Option<u64>>, d: Direction, p: Seq<int>, es: Seq<int>)
    requires
        route(g, table, d, p, es),
    ensures
        route(g, table, flipped(d), p.reverse(), es.reverse()),
        route_cost(table, es.reverse()) == route_cost(table, es),
        p.reverse()[0] == p.last(),
        p.reverse().last() == p[0],
{
    let q = p.reverse();
    let fs = es.reverse();
    let m = es.len();
    assert forall|i: int| 0 <= i < fs.len() implies #[trigger] follows(
        g,
        priced(table),
        flipped(d),
        fs[i],
        q[i],
        q[i + 1],
    ) by {
        assert(fs[i] == es[m - 1 - i]);
        assert(q[i] == p[m - i]);
        assert(q[i + 1] == p[m - 1 - i]);
        assert(follows(g, priced(table), d, es[m - 1 - i], p[m - 1 - i], p[m - 1 - i + 1]));
    }
    assert forall|i: int| 0 <= i < q.len() implies 0 <= #[trigger] q[i] < g.node_count by {
        assert(q[i] == p[m - i]);
    }
    lemma_cost_reverse(table, es);
}

/// Two routes that meet make one route whose cost is the sum.
pub proof fn lemma_route_concat(
    g: GraphModel,
    table: Seq<Option<u64>>,
    d: Direction,
    p1: Seq<int>,
    es1: Seq<int>,
    p2: Seq<int>,
    es2: Seq<int>,
)
    requires
        route(g, table, d, p1, es1),
        route(g, table, d, p2, es2),
        p1.last() == p2[0],
    ensures
        route(g, table, d, p1 + p2.skip(1), es1 + es2),
        route_cost(table, es1 + es2) == route_cost(table, es1) + route_cost(table, es2),
        (p1 + p2.skip(1))[0] == p1[0],
        (p1 + p2.skip(1)).last() == p2.last(),
{
    let q = p1 + p2.skip(1);
    let fs = es1 + es2;
    let k = es1.len();
    assert forall|i: int| 0 <= i < fs.len() implies #[trigger] follows(g, priced(table), d, fs[i], q[i], q[i + 1]) by {
        if i < k {
            assert(fs[i] == es1[i]);
            assert(q[i] == p1[i]);
            assert(q[i + 1] == p1[i + 1]);
            assert(follows(g, priced(table), d, es1[i], p1[i], p1[i + 1]));
        } else {
            let j = i - k;
            assert(fs[i] == es2[j]);
            assert(q[i] == p2[j]);
            assert(q[i + 1] == p2[j + 1]);
            assert(follows(g, priced(table), d, es2[j], p2[j], p2[j + 1]));
        }
    }
    assert forall|i: int| 0 <= i < q.len() implies 0 <= #[trigger] q[i] < g.node_count by {
        if i < p1.len() {
            assert(q[i] == p1[i]);
        } else {
            assert(q[i] == p2[i - p1.len() + 1]);
        }
    }
    lemma_cost_concat(table, es1, es2);
}

/// A route splits at any of its nodes into two routes whose costs add up.
pub proof fn lemma_route_split(g: GraphModel, table: Seq<Option<u64>>, d: Direction, p: Seq<int>, es: Seq<int>, j: int)
    requires
        route(g, table, d, p, es),
        0 <= j < p.len(),
    ensures
        route(g, table, d, p.take(j + 1), es.take(j)),
        route(g, table, d, p.skip(j), es.skip(j)),
        route_cost(table, es) == route_cost(table, es.take(j)) + route_cost(table, es.skip(j)),
        p.take(j + 1)[0] == p[0],
        p.take(j + 1).last() == p[j],
        p.skip(j)[0] == p[j],
        p.skip(j).last() == p.last(),
{
    let p1 = p.take(j + 1);
    let e1 = es.take(j);
    let p2 = p.skip(j);
    let e2 = es.skip(j);
    assert forall|i: int| 0 <= i < e1.len() implies #[trigger] follows(g, priced(table), d, e1[i], p1[i], p1[i + 1]) by {
        assert(follows(g, priced(table), d, es[i], p[i], p[i + 1]));
    }
    assert forall|i: int| 0 <= i < p1.len() implies 0 <= #[trigger] p1[i] < g.node_count by {
        assert(p1[i] == p[i]);
    }
    assert forall|i: int| 0 <= i < e2.len() implies #[trigger] follows(g, priced(table), d, e2[i], p2[i], p2[i + 1]) by {
        assert(e2[i] == es[i + j]);
        assert(p2[i] == p[i + j]);
        assert(p2[i + 1] == p[i + j + 1]);
        assert(follows(g, priced(table), d, es[i + j], p[i + j], p[i + j + 1]));
    }
    assert forall|i: int| 0 <= i < p2.len() implies 0 <= #[trigger] p2[i] < g.node_count by {
        assert(p2[i] == p[i + j]);
    }
    assert(es =~= e1 + e2);
    lemma_cost_concat(table, e1, e2);
}

/// A cheapest cost is unique.
pub proof fn lemma_cheapest_unique(
    g: GraphModel,
    table: Seq<Option<u64>>,
    d: Direction,
    s: int,
    t: int,
    c1: int,
    c2: int,
)
    requires
        cheapest(g, table, d, s, t, c1),
        cheapest(g, table, d, s, t, c2),
    ensures
        c1 == c2,
{
    let (p1, e1) = choose|p: Seq<int>, es: Seq<int>| #[trigger]
        route_between(g, table, d, p, es, s, t) && route_cost(table, es) == c1;
    let (p2, e2) = choose|p: Seq<int>, es: Seq<int>| #[trigger]
        route_between(g, table, d, p, es, s, t) && route_cost(table, es) == c2;
    assert(route_between(g, table, d, p1, e1, s, t));
    assert(route_between(g, table, d, p2, e2, s, t));
}

/// The cheapest way from a node to itself costs nothing.
pub proof fn lemma_cheapest_self(g: GraphModel, table: Seq<Option<u64>>, d: Direction, s: int, c: int)
    requires
        cheapest(g, table, d, s, s, c),
        0 <= s < g.node_count,
    ensures
        c == 0,
{
    let p = seq![s];
    let es = Seq::<int>::empty();
    assert(route_between(g, table, d, p, es, s, s));
    let (q, fs) = choose|q: Seq<int>, fs: Seq<int>| #[trigger]
        route_between(g, table, d, q, fs, s, s) && route_cost(table, fs) == c;
    lemma_cost_nonneg(table, fs);
}

/// In a sequence whose last entry is marked, some entry is the first
/// marked one.
pub proof fn lemma_first_marked(marks: Seq<bool>, p: Seq<int>)
    requires
        p.len() > 0,
        forall|i: int| 0 <= i < p.len() ==> 0 <= #[trigger] p[i] < marks.len(),
        marks[p.last()],
    ensures
        exists|j: int| 0 <= j < p.len() && marks[p[j]] && forall|k: int| 0 <= k < j ==> !#[trigger] marks[p[k]],
    decreases p.len(),
{
    let q = p.drop_last();
    if exists|i: int| 0 <= i < q.len() && #[trigger] marks[q[i]] {
        let i = choose|i: int| 0 <= i < q.len() && #[trigger] marks[q[i]];
        let q2 = q.take(i + 1);
        assert(q2.last() == q[i]);
        assert forall|k: int| 0 <= k < q2.len() implies 0 <= #[trigger] q2[k] < marks.len() by {
            assert(q2[k] == p[k]);
        }
        lemma_first_marked(marks, q2);
        let j = choose|j: int| 0 <= j < q2.len() && marks[q2[j]] && forall|k: int| 0 <= k < j ==> !#[trigger] marks[q2[k]];
        assert(q2[j] == p[j]);
        assert forall|k: int| 0 <= k < j implies !#[trigger] marks[p[k]] by {
            assert(q2[k] == p[k]);
        }
    } else {
        let j = p.len() - 1;
        assert forall|k: int| 0 <= k < j implies !#[trigger] marks[p[k]] by {
            assert(q[k] == p[k]);
        }
    }
}

/// Where the two searches meet: `from` is settled forward and `to`
/// backward, joined by `edge` or, without one, the same node; `cost` is
/// what the whole route costs.
#[derive(Clone, Copy)]
struct Meeting {
    cost: u64,
    from: NodeIndex,
    edge: Option<EdgeIndex>,
    to: NodeIndex,
}

spec fn edge_slot(e: Option<EdgeIndex>) -> int {
    match e {
        Some(x) => x.0 as int,
        None => -1,
    }
}

/// `u` is settled forward, `v` backward, and they are one node (`e` is
/// `-1`) or priced edge `e` leads from `u` to `v`.
spec fn joined(f: Dijkstra, b: Dijkstra, u: int, e: int, v: int) -> bool {
    &&& 0 <= u < f.model().node_count
    &&& 0 <= v < f.model().node_count
    &&& f.settled_nodes()[u]
    &&& b.settled_nodes()[v]
    &&& ((e == -1 && u == v) || follows(f.model(), priced(f.prices()), Direction::Outgoing, e, u, v))
}

/// The cost of the route through a meeting.
spec fn join_cost(f: Dijkstra, b: Dijkstra, u: int, e: int, v: int) -> int {
    f.cost_of(u) + (if e == -1 {
        0
    } else {
        price(f.prices(), e)
    }) + b.cost_of(v)
}

spec fn meeting_holds(f: Dijkstra, b: Dijkstra, m: Meeting) -> bool {
    &&& joined(f, b, m.from.0 as int, edge_slot(m.edge), m.to.0 as int)
    &&& m.cost == join_cost(f, b, m.from.0 as int, edge_slot(m.edge), m.to.0 as int)
}

/// Every meeting out of `u` through `e` that fits `u64` costs no less
/// than the best one.
spec fn covered(f: Dijkstra, b: Dijkstra, best: Option<Meeting>, u: int, e: int) -> bool {
    forall|v: int|
        #[trigger] joined(f, b, u, e, v) && join_cost(f, b, u, e, v) <= u64::MAX ==> (best matches Some(m)
            && m.cost <= join_cost(f, b, u, e, v))
}

/// `best` is a meeting, and no meeting that fits `u64` is cheaper.
spec fn best_holds(f: Dijkstra, b: Dijkstra, best: Option<Meeting>) -> bool {
    &&& (best matches Some(m) ==> meeting_holds(f, b, m))
    &&& forall|u: int, e: int| #[trigger] covered(f, b, best, u, e)
}

/// The two searches run over `g` with prices `table`: forward from `s`,
/// backward from `t`, neither stopped.
spec fn pair_ok(f: Dijkstra, b: Dijkstra, g: GraphModel, table: Seq<Option<u64>>, s: int, t: int) -> bool {
    &&& f.inv()
    &&& b.inv()
    &&& f.model() == g
    &&& b.model() == g
    &&& f.prices() == table
    &&& b.prices() == table
    &&& f.heading() == Direction::Outgoing
    &&& b.heading() == Direction::Incoming
    &&& f.origin() == s
    &&& b.origin() == t
    &&& !f.is_strict()
    &&& !b.is_strict()
    &&& !f.has_failed()
    &&& !b.has_failed()
    &&& 0 <= s < g.node_count
    &&& 0 <= t < g.node_count
}

/// Every unsettled node's routes that fit `u64` cost at least `last`.
spec fn below_unsettled(d: Dijkstra, last: int) -> bool {
    forall|w: int, p: Seq<int>, es: Seq<int>|
        !d.settled_nodes()[w] && #[trigger] route_between(d.model(), d.prices(), d.heading(), p, es, d.origin(), w)
            && route_cost(d.prices(), es) <= u64::MAX ==> last <= route_cost(d.prices(), es)
}

/// A settled node keeps its cost as the search goes on.
proof fn lemma_cost_kept(before: Dijkstra, after: Dijkstra, v: int)
    requires
        before.inv(),
        after.inv(),
        !before.has_failed(),
        !after.has_failed(),
        after.model() == before.model(),
        after.prices() == before.prices(),
        after.heading() == before.heading(),
        after.origin() == before.origin(),
        0 <= v < before.model().node_count,
        before.settled_nodes()[v],
        after.settled_nodes()[v],
    ensures
        after.cost_of(v) == before.cost_of(v),
{
    before.lemma_settled();
    after.lemma_settled();
    lemma_cheapest_unique(
        before.model(),
        before.prices(),
        before.heading(),
        before.origin(),
        v,
        before.cost_of(v),
        after.cost_of(v),
    );
}

fn offer(best: &mut Option<Meeting>, m: Meeting)
    ensures
        match *old(best) {
            Some(o) => if m.cost < o.cost {
                *final(best) == Some(m)
            } else {
                *final(best) == Some(o)
            },
            None => *final(best) == Some(m),
        },
{
    match *best {
        Some(o) => {
            if m.cost < o.cost {
                *best = Some(m);
            }
        },
        None => {
            *best = Some(m);
        },
    }
}

/// Every meeting into `v` through `e` that fits `u64` costs no less than
/// the best one.
spec fn covered_into(f: Dijkstra, b: Dijkstra, best: Option<Meeting>, e: int, v: int) -> bool {
    forall|u: int|
        #[trigger] joined(f, b, u, e, v) && join_cost(f, b, u, e, v) <= u64::MAX ==> (best matches Some(m)
            && m.cost <= join_cost(f, b, u, e, v))
}

/// A cheaper or equal best keeps every bound.
proof fn lemma_better_best(f: Dijkstra, b: Dijkstra, old_best: Option<Meeting>, best: Option<Meeting>, u: int, e: int, v: int)
    requires
        old_best matches Some(o) ==> (best matches Some(m) && m.cost <= o.cost),
        joined(f, b, u, e, v),
        join_cost(f, b, u, e, v) <= u64::MAX,
        old_best matches Some(o) && o.cost <= join_cost(f, b, u, e, v),
    ensures
        best matches Some(m) && m.cost <= join_cost(f, b, u, e, v),
{
}

/// Searches that settled the same nodes keep every meeting and bound.
proof fn lemma_best_carried(f0: Dijkstra, f1: Dijkstra, b0: Dijkstra, b1: Dijkstra, best: Option<Meeting>)
    requires
        pair_ok(f0, b0, f0.model(), f0.prices(), f0.origin(), b0.origin()),
        pair_ok(f1, b1, f0.model(), f0.prices(), f0.origin(), b0.origin()),
        f1.settled_nodes() == f0.settled_nodes(),
        b1.settled_nodes() == b0.settled_nodes(),
        best_holds(f0, b0, best),
    ensures
        best_holds(f1, b1, best),
{
    let g = f0.model();
    f0.lemma_settled();
    b0.lemma_settled();
    assert forall|v: int| 0 <= v < g.node_count && f0.settled_nodes()[v] implies f1.cost_of(v) == f0.cost_of(v) by {
        lemma_cost_kept(f0, f1, v);
    }
    assert forall|v: int| 0 <= v < g.node_count && b0.settled_nodes()[v] implies b1.cost_of(v) == b0.cost_of(v) by {
        lemma_cost_kept(b0, b1, v);
    }
    match best {
        Some(m) => {
            assert(joined(f0, b0, m.from.0 as int, edge_slot(m.edge), m.to.0 as int));
        },
        None => {},
    }
    assert forall|u: int, e: int| #[trigger] covered(f1, b1, best, u, e) by {
        assert forall|v: int|
            #[trigger] joined(f1, b1, u, e, v) && join_cost(f1, b1, u, e, v) <= u64::MAX implies (best matches Some(m)
                && m.cost <= join_cost(f1, b1, u, e, v)) by {
            assert(joined(f0, b0, u, e, v));
            assert(covered(f0, b0, best, u, e));
        }
    }
}

/// Settles the next node forward and offers every meeting through it.
fn advance_forward<'g>(
    graph: &'g Topology,
    table: &Vec<Option<u64>>,
    f: &mut Dijkstra<'g>,
    b: &Dijkstra<'g>,
    best: &mut Option<Meeting>,
) -> (r: Option<u64>)
    requires
        pair_ok(*old(f), *b, graph@, table@, old(f).origin(), b.origin()),
        best_holds(*old(f), *b, *old(best)),
    ensures
        pair_ok(*final(f), *b, graph@, table@, old(f).origin(), b.origin()),
        best_holds(*final(f), *b, *final(best)),
        forall|v: int|
            0 <= v < graph@.node_count && #[trigger] old(f).settled_nodes()[v] ==> final(f).settled_nodes()[v],
        match r {
            None => {
                &&& final(f).settled_nodes() == old(f).settled_nodes()
                &&& *final(best) == *old(best)
                &&& forall|v: int|
                    affordable(graph@, table@, Direction::Outgoing, old(f).origin(), v) ==> #[trigger] old(
                        f,
                    ).settled_nodes()[v]
            },
            Some(c) => {
                &&& settled_count(final(f).settled_nodes()) == settled_count(old(f).settled_nodes()) + 1
                &&& below_unsettled(*final(f), c as int)
            },
        },
{
    let ghost f0 = *f;
    let ghost best0 = *best;
    let ghost g = graph@;
    let ghost tb = table@;
    let _n = graph.node_count();
    proof {
        f0.lemma_settled();
        b.lemma_settled();
    }
    let step = f.next();
    let (x, c) = match step {
        None => {
            proof {
                lemma_best_carried(f0, *f, *b, *b, best0);
            }
            return None;
        },
        Some(Err(_)) => {
            proof {
                assert(false);
            }
            return None;
        },
        Some(Ok(pair)) => pair,
    };
    proof {
        f.lemma_settled();
        crate::algo::dijkstra::lemma_count_update(f0.settled_nodes(), x.0 as int);
        assert forall|v: int| 0 <= v < g.node_count && f0.settled_nodes()[v] implies f.cost_of(v) == f0.cost_of(v) by {
            lemma_cost_kept(f0, *f, v);
        }
        assert forall|w: int, p: Seq<int>, es: Seq<int>|
            !f.settled_nodes()[w] && #[trigger] route_between(f.model(), f.prices(), f.heading(), p, es, f.origin(), w)
                && route_cost(f.prices(), es) <= u64::MAX implies c <= route_cost(f.prices(), es) by {
            assert(!f0.settled_nodes()[w]);
            assert(route_between(f0.model(), f0.prices(), f0.heading(), p, es, f0.origin(), w));
        }
        match best0 {
            Some(m) => {
                assert(joined(f0, *b, m.from.0 as int, edge_slot(m.edge), m.to.0 as int));
            },
            None => {},
        }
    }
    let ghost xs = x.0 as int;
    if b.is_settled(x) {
        let cb = b.settled_cost(x);
        match c.checked_add(cb) {
            Some(total) => {
                offer(best, Meeting { cost: total, from: x, edge: None, to: x });
            },
            None => {},
        }
    }
    proof {
        assert(f.cost_of(xs) == c);
        assert forall|v: int| #[trigger] joined(*f, *b, xs, -1, v) && join_cost(*f, *b, xs, -1, v) <= u64::MAX implies (
            *best matches Some(m) && m.cost <= join_cost(*f, *b, xs, -1, v)) by {
            assert(v == xs);
        }
        assert(covered(*f, *b, *best, xs, -1));
    }
    let out = graph.outgoing_edges(x);
    let ghost row = edge_ints(out@);
    let mut k: usize = 0;
    while k < out.len()
        invariant
            pair_ok(*f, *b, g, tb, f0.origin(), b.origin()),
            g.valid(),
            tb.len() == g.edges.len(),
            f0.settled_nodes().len() == g.node_count,
            xs == x.0 as int,
            f.settled_nodes() == f0.settled_nodes().update(xs, true),
            f.cost_of(xs) == c,
            0 <= xs < g.node_count,
            g == graph@,
            tb == table@,
            row == edge_ints(out@),
            row == g.out_edges(xs),
            k <= out@.len(),
            forall|v: int| 0 <= v < g.node_count && f0.settled_nodes()[v] ==> f.cost_of(v) == f0.cost_of(v),
            best0 matches Some(o) ==> (*best matches Some(m) && m.cost <= o.cost),
            *best matches Some(m) ==> meeting_holds(*f, *b, m),
            covered(*f, *b, *best, xs, -1),
            forall|j: int| 0 <= j < k ==> #[trigger] covered(*f, *b, *best, xs, row[j]),
            best_holds(f0, *b, best0),
            best0 matches Some(m) ==> meeting_holds(f0, *b, m),
        decreases out@.len() - k,
    {
        let e = out[k];
        let ghost ei = e.0 as int;
        proof {
            assert(row[k as int] == ei);
            lemma_adj_members(g.edges, g.edges.len(), 0, xs);
            assert(0 <= ei < g.edges.len());
        }
        let ghost best_before = *best;
        match table[e.index()] {
            None => {},
            Some(w) => {
                let ends = graph.edge_endpoints(e);
                match ends {
                    None => {},
                    Some(ends) => {
                        let y = ends.target;
                        proof {
                            assert(g.edges[ei].0 == xs);
                            assert(tb[ei] == Some(w));
                            assert(price(tb, ei) == w);
                        }
                        if b.is_settled(y) {
                            let cb = b.settled_cost(y);
                            match c.checked_add(w) {
                                Some(partial) => match partial.checked_add(cb) {
                                    Some(total) => {
                                        let m = Meeting { cost: total, from: x, edge: Some(e), to: y };
                                        proof {
                                            assert(edge_slot(m.edge) == ei);
                                            assert(priced(tb)[ei]);
                                            assert(follows(g, priced(tb), Direction::Outgoing, ei, xs, y.0 as int));
                                            assert(f.settled_nodes()[xs]);
                                            assert(b.settled_nodes()[y.0 as int]);
                                            assert(0 <= y.0 < g.node_count);
                                            assert(joined(*f, *b, xs, ei, y.0 as int));
                                            assert(m.cost == join_cost(*f, *b, xs, ei, y.0 as int));
                                            assert(meeting_holds(*f, *b, m));
                                        }
                                        offer(best, m);
                                    },
                                    None => {},
                                },
                                None => {},
                            }
                        }
                    },
                }
            },
        }
        proof {
            assert forall|v: int|
                #[trigger] joined(*f, *b, xs, ei, v) && join_cost(*f, *b, xs, ei, v) <= u64::MAX implies (*best matches Some(
                m,
            ) && m.cost <= join_cost(*f, *b, xs, ei, v)) by {
                assert(g.edges[ei].1 == v);
            }
            assert forall|j: int| 0 <= j < k + 1 implies #[trigger] covered(*f, *b, *best, xs, row[j]) by {
                if j < k {
                    assert(covered(*f, *b, best_before, xs, row[j]));
                    assert forall|v: int|
                        #[trigger] joined(*f, *b, xs, row[j], v) && join_cost(*f, *b, xs, row[j], v) <= u64::MAX implies (
                        *best matches Some(m) && m.cost <= join_cost(*f, *b, xs, row[j], v)) by {
                    }
                }
            }
            assert forall|v: int|
                #[trigger] joined(*f, *b, xs, -1, v) && join_cost(*f, *b, xs, -1, v) <= u64::MAX implies (*best matches Some(
                m,
            ) && m.cost <= join_cost(*f, *b, xs, -1, v)) by {
                assert(covered(*f, *b, best_before, xs, -1));
            }
        }
        k += 1;
    }
    proof {
        lemma_adj_members(g.edges, g.edges.len(), 0, xs);
        assert forall|u: int, e: int| #[trigger] covered(*f, *b, *best, u, e) by {
            assert forall|v: int|
                #[trigger] joined(*f, *b, u, e, v) && join_cost(*f, *b, u, e, v) <= u64::MAX implies (*best matches Some(
                m,
            ) && m.cost <= join_cost(*f, *b, u, e, v)) by {
                if u == xs {
                    if e != -1 {
                        assert(g.edges[e].0 == xs);
                        assert(row.contains(e));
                        let j = choose|j: int| 0 <= j < row.len() && row[j] == e;
                        assert(covered(*f, *b, *best, xs, row[j]));
                    }
                } else {
                    assert(f0.settled_nodes()[u]);
                    assert(joined(f0, *b, u, e, v));
                    assert(covered(f0, *b, best0, u, e));
                }
            }
        }
    }
    Some(c)
}

/// Settles the next node backward and offers every meeting through it.
fn advance_backward<'g>(
    graph: &'g Topology,
    table: &Vec<Option<u64>>,
    f: &Dijkstra<'g>,
    b: &mut Dijkstra<'g>,
    best: &mut Option<Meeting>,
) -> (r: Option<u64>)
    requires
        pair_ok(*f, *old(b), graph@, table@, f.origin(), old(b).origin()),
        best_holds(*f, *old(b), *old(best)),
    ensures
        pair_ok(*f, *final(b), graph@, table@, f.origin(), old(b).origin()),
        best_holds(*f, *final(b), *final(best)),
        forall|v: int|
            0 <= v < graph@.node_count && #[trigger] old(b).settled_nodes()[v] ==> final(b).settled_nodes()[v],
        match r {
            None => {
                &&& final(b).settled_nodes() == old(b).settled_nodes()
                &&& *final(best) == *old(best)
                &&& forall|v: int|
                    affordable(graph@, table@, Direction::Incoming, old(b).origin(), v) ==> #[trigger] old(
                        b,
                    ).settled_nodes()[v]
            },
            Some(c) => {
                &&& settled_count(final(b).settled_nodes()) == settled_count(old(b).settled_nodes()) + 1
                &&& below_unsettled(*final(b), c as int)
            },
        },
{
    let ghost b0 = *b;
    let ghost best0 = *best;
    let ghost g = graph@;
    let ghost tb = table@;
    let _n = graph.node_count();
    proof {
        b0.lemma_settled();
        f.lemma_settled();
    }
    let step = b.next();
    let (y, c) = match step {
        None => {
            proof {
                lemma_best_carried(*f, *f, b0, *b, best0);
            }
            return None;
        },
        Some(Err(_)) => {
            proof {
                assert(false);
            }
            return None;
        },
        Some(Ok(pair)) => pair,
    };
    let ghost ys = y.0 as int;
    proof {
        b.lemma_settled();
        crate::algo::dijkstra::lemma_count_update(b0.settled_nodes(), ys);
        assert forall|v: int| 0 <= v < g.node_count && b0.settled_nodes()[v] implies b.cost_of(v) == b0.cost_of(v) by {
            lemma_cost_kept(b0, *b, v);
        }
        assert forall|w: int, p: Seq<int>, es: Seq<int>|
            !b.settled_nodes()[w] && #[trigger] route_between(b.model(), b.prices(), b.heading(), p, es, b.origin(), w)
                && route_cost(b.prices(), es) <= u64::MAX implies c <= route_cost(b.prices(), es) by {
            assert(!b0.settled_nodes()[w]);
            assert(route_between(b0.model(), b0.prices(), b0.heading(), p, es, b0.origin(), w));
        }
        match best0 {
            Some(m) => {
                assert(joined(*f, b0, m.from.0 as int, edge_slot(m.edge), m.to.0 as int));
            },
            None => {},
        }
    }
    if f.is_settled(y) {
        let cf = f.settled_cost(y);
        match cf.checked_add(c) {
            Some(total) => {
                offer(best, Meeting { cost: total, from: y, edge: None, to: y });
            },
            None => {},
        }
    }
    proof {
        assert(b.cost_of(ys) == c);
        assert forall|u: int| #[trigger] joined(*f, *b, u, -1, ys) && join_cost(*f, *b, u, -1, ys) <= u64::MAX implies (
            *best matches Some(m) && m.cost <= join_cost(*f, *b, u, -1, ys)) by {
            assert(u == ys);
        }
        assert(covered_into(*f, *b, *best, -1, ys));
    }
    let into = graph.incoming_edges(y);
    let ghost row = edge_ints(into@);
    let mut k: usize = 0;
    while k < into.len()
        invariant
            pair_ok(*f, *b, g, tb, f.origin(), b0.origin()),
            g.valid(),
            tb.len() == g.edges.len(),
            b0.settled_nodes().len() == g.node_count,
            ys == y.0 as int,
            b.settled_nodes() == b0.settled_nodes().update(ys, true),
            b.cost_of(ys) == c,
            0 <= ys < g.node_count,
            g == graph@,
            tb == table@,
            row == edge_ints(into@),
            row == g.in_edges(ys),
            k <= into@.len(),
            forall|v: int| 0 <= v < g.node_count && b0.settled_nodes()[v] ==> b.cost_of(v) == b0.cost_of(v),
            best0 matches Some(o) ==> (*best matches Some(m) && m.cost <= o.cost),
            *best matches Some(m) ==> meeting_holds(*f, *b, m),
            covered_into(*f, *b, *best, -1, ys),
            forall|j: int| 0 <= j < k ==> #[trigger] covered_into(*f, *b, *best, row[j], ys),
            best_holds(*f, b0, best0),
            best0 matches Some(m) ==> meeting_holds(*f, b0, m),
        decreases into@.len() - k,
    {
        let e = into[k];
        let ghost ei = e.0 as int;
        proof {
            assert(row[k as int] == ei);
            lemma_adj_members(g.edges, g.edges.len(), 1, ys);
            assert(0 <= ei < g.edges.len());
        }
        let ghost best_before = *best;
        match table[e.index()] {
            None => {},
            Some(w) => {
                let ends = graph.edge_endpoints(e);
                match ends {
                    None => {},
                    Some(ends) => {
                        let u = ends.source;
                        proof {
                            assert(g.edges[ei].1 == ys);
                            assert(g.edges[ei].0 == u.0 as int);
                            assert(0 <= u.0 < g.node_count);
                            assert(tb[ei] == Some(w));
                            assert(price(tb, ei) == w);
                        }
                        if f.is_settled(u) {
                            let cf = f.settled_cost(u);
                            match cf.checked_add(w) {
                                Some(partial) => match partial.checked_add(c) {
                                    Some(total) => {
                                        let m = Meeting { cost: total, from: u, edge: Some(e), to: y };
                                        proof {
                                            assert(edge_slot(m.edge) == ei);
                                            assert(priced(tb)[ei]);
                                            assert(follows(g, priced(tb), Direction::Outgoing, ei, u.0 as int, ys));
                                            assert(b.settled_nodes()[ys]);
                                            assert(f.settled_nodes()[u.0 as int]);
                                            assert(0 <= u.0 < g.node_count);
                                            assert(joined(*f, *b, u.0 as int, ei, ys));
                                            assert(m.cost == join_cost(*f, *b, u.0 as int, ei, ys));
                                            assert(meeting_holds(*f, *b, m));
                                        }
                                        offer(best, m);
                                    },
                                    None => {},
                                },
                                None => {},
                            }
                        }
                    },
                }
            },
        }
        proof {
            assert forall|u: int|
                #[trigger] joined(*f, *b, u, ei, ys) && join_cost(*f, *b, u, ei, ys) <= u64::MAX implies (*best matches Some(
                m,
            ) && m.cost <= join_cost(*f, *b, u, ei, ys)) by {
                assert(g.edges[ei].0 == u);
            }
            assert forall|j: int| 0 <= j < k + 1 implies #[trigger] covered_into(*f, *b, *best, row[j], ys) by {
                if j < k {
                    assert(covered_into(*f, *b, best_before, row[j], ys));
                    assert forall|u: int|
                        #[trigger] joined(*f, *b, u, row[j], ys) && join_cost(*f, *b, u, row[j], ys) <= u64::MAX implies (
                        *best matches Some(m) && m.cost <= join_cost(*f, *b, u, row[j], ys)) by {
                    }
                }
            }
            assert forall|u: int|
                #[trigger] joined(*f, *b, u, -1, ys) && join_cost(*f, *b, u, -1, ys) <= u64::MAX implies (*best matches Some(
                m,
            ) && m.cost <= join_cost(*f, *b, u, -1, ys)) by {
                assert(covered_into(*f, *b, best_before, -1, ys));
            }
        }
        k += 1;
    }
    proof {
        lemma_adj_members(g.edges, g.edges.len(), 1, ys);
        assert forall|u: int, e: int| #[trigger] covered(*f, *b, *best, u, e) by {
            assert forall|v: int|
                #[trigger] joined(*f, *b, u, e, v) && join_cost(*f, *b, u, e, v) <= u64::MAX implies (*best matches Some(
                m,
            ) && m.cost <= join_cost(*f, *b, u, e, v)) by {
                if v == ys {
                    if e != -1 {
                        assert(g.edges[e].1 == ys);
                        assert(row.contains(e));
                        let j = choose|j: int| 0 <= j < row.len() && row[j] == e;
                        assert(covered_into(*f, *b, *best, row[j], ys));
                    } else {
                        assert(covered_into(*f, *b, *best, -1, ys));
                    }
                } else {
                    assert(b0.settled_nodes()[v]);
                    assert(joined(*f, b0, u, e, v));
                    assert(covered(*f, b0, best0, u, e));
                }
            }
        }
    }
    Some(c)
}

/// When the searches stop, no route from `s` to `t` that fits `u64` is
/// cheaper than the best meeting: one search has settled every node it
/// can reach, or the costs settled last add up to at least the best.
proof fn lemma_meets_every_route(
    f: Dijkstra,
    b: Dijkstra,
    best: Option<Meeting>,
    g: GraphModel,
    tb: Seq<Option<u64>>,
    s: int,
    t: int,
    p: Seq<int>,
    es: Seq<int>,
    last_f: int,
    last_b: int,
)
    requires
        pair_ok(f, b, g, tb, s, t),
        best_holds(f, b, best),
        f.settled_nodes()[s],
        b.settled_nodes()[t],
        below_unsettled(f, last_f),
        below_unsettled(b, last_b),
        route_between(g, tb, Direction::Outgoing, p, es, s, t),
        route_cost(tb, es) <= u64::MAX,
        (forall|v: int| affordable(g, tb, Direction::Outgoing, s, v) ==> #[trigger] f.settled_nodes()[v]) || (forall|
            v: int,
        | affordable(g, tb, Direction::Incoming, t, v) ==> #[trigger] b.settled_nodes()[v]) || (best matches Some(m)
            && m.cost <= last_f + last_b),
    ensures
        best matches Some(m) && m.cost <= route_cost(tb, es),
{
    let d = route_cost(tb, es);
    f.lemma_settled();
    b.lemma_settled();
    lemma_first_marked(b.settled_nodes(), p);
    let j = choose|j: int|
        0 <= j < p.len() && b.settled_nodes()[p[j]] && forall|k: int| 0 <= k < j ==> !#[trigger] b.settled_nodes()[p[k]];
    if best matches Some(m) && m.cost <= d {
    } else if j == 0 {
        lemma_route_reverse(g, tb, Direction::Outgoing, p, es);
        assert(route_between(g, tb, Direction::Incoming, p.reverse(), es.reverse(), t, s));
        assert(cheapest(g, tb, Direction::Incoming, t, s, b.cost_of(s)));
        assert(cheapest(g, tb, Direction::Outgoing, s, s, f.cost_of(s)));
        lemma_cheapest_self(g, tb, Direction::Outgoing, s, f.cost_of(s));
        assert(joined(f, b, s, -1, s));
        assert(covered(f, b, best, s, -1));
    } else {
        let x = p[j - 1];
        let y = p[j];
        let e = es[j - 1];
        assert(follows(g, priced(tb), Direction::Outgoing, es[j - 1], p[j - 1], p[j - 1 + 1]));
        lemma_route_split(g, tb, Direction::Outgoing, p, es, j - 1);
        let pre_p = p.take(j);
        let pre_e = es.take(j - 1);
        let suf_p = p.skip(j - 1);
        let suf_e = es.skip(j - 1);
        lemma_route_split(g, tb, Direction::Outgoing, suf_p, suf_e, 1);
        let tail_p = suf_p.skip(1);
        let tail_e = suf_e.skip(1);
        assert(tail_p =~= p.skip(j));
        assert(suf_e.take(1) =~= seq![e]);
        assert(seq![e].drop_last() =~= Seq::<int>::empty());
        assert(route_cost(tb, Seq::<int>::empty()) == 0);
        assert(route_cost(tb, seq![e]) == price(tb, e));
        lemma_cost_nonneg(tb, pre_e);
        lemma_cost_nonneg(tb, tail_e);
        lemma_cost_nonneg(tb, suf_e);
        lemma_route_reverse(g, tb, Direction::Outgoing, tail_p, tail_e);
        assert(route_between(g, tb, Direction::Incoming, tail_p.reverse(), tail_e.reverse(), t, y));
        assert(cheapest(g, tb, Direction::Incoming, t, y, b.cost_of(y)));
        lemma_route_reverse(g, tb, Direction::Outgoing, suf_p, suf_e);
        assert(route_between(g, tb, Direction::Incoming, suf_p.reverse(), suf_e.reverse(), t, x));
        assert(route_between(g, tb, Direction::Outgoing, pre_p, pre_e, s, x));
        assert(!b.settled_nodes()[x]);
        if !f.settled_nodes()[x] {
            if forall|v: int| affordable(g, tb, Direction::Outgoing, s, v) ==> #[trigger] f.settled_nodes()[v] {
                assert(affordable(g, tb, Direction::Outgoing, s, x));
            } else if forall|v: int| affordable(g, tb, Direction::Incoming, t, v) ==> #[trigger] b.settled_nodes()[v] {
                assert(affordable(g, tb, Direction::Incoming, t, x));
            } else {
                assert(last_f <= route_cost(tb, pre_e));
                assert(last_b <= route_cost(tb, suf_e.reverse()));
            }
        } else if forall|v: int| affordable(g, tb, Direction::Incoming, t, v) ==> #[trigger] b.settled_nodes()[v] {
            assert(affordable(g, tb, Direction::Incoming, t, x));
        }
        assert(f.settled_nodes()[x]);
        assert(cheapest(g, tb, Direction::Outgoing, s, x, f.cost_of(x)));
        assert(joined(f, b, x, e, y));
        assert(join_cost(f, b, x, e, y) <= d);
        assert(covered(f, b, best, x, e));
    }
}

/// Nothing is settled yet, so every bound holds with no best meeting.
proof fn lemma_fresh_pair(f: Dijkstra, b: Dijkstra)
    requires
        f.settled_nodes().len() == f.model().node_count,
        forall|v: int| 0 <= v < f.settled_nodes().len() ==> !#[trigger] f.settled_nodes()[v],
    ensures
        best_holds(f, b, None),
        below_unsettled(f, 0),
{
    assert forall|u: int, e: int| #[trigger] covered(f, b, None, u, e) by {
        assert forall|v: int| #[trigger] joined(f, b, u, e, v) && join_cost(f, b, u, e, v) <= u64::MAX implies false by {
        }
    }
    assert forall|w: int, p: Seq<int>, es: Seq<int>|
        !f.settled_nodes()[w] && #[trigger] route_between(f.model(), f.prices(), f.heading(), p, es, f.origin(), w)
            && route_cost(f.prices(), es) <= u64::MAX implies 0 <= route_cost(f.prices(), es) by {
        lemma_cost_nonneg(f.prices(), es);
    }
}

/// A cheapest route from `source` to `target` along outgoing edges, found
/// by a forward search from the source and a backward search from the
/// target that meet in the middle; prices are asked once per edge from
/// `edge_cost`, and routes whose cost leaves `u64` are not considered.
pub fn bidirectional_dijkstra<F: Fn(EdgeIndex) -> u64>(
    graph: &Topology,
    source: NodeIndex,
    target: NodeIndex,
    edge_cost: F,
) -> (r: Option<WeightedPath>)
    requires
        forall|e: EdgeIndex| call_requires(edge_cost, (e,)),
    ensures
        if source.0 < graph@.node_count && target.0 < graph@.node_count {
            exists|table: Seq<Option<u64>>|
                quoted_total(edge_cost, graph@, table) && shortest_route(
                    graph@,
                    table,
                    Direction::Outgoing,
                    source.0 as int,
                    target.0 as int,
                    r,
                )
        } else {
            r is None
        },
        source.0 == target.0 && source.0 < graph@.node_count ==> (r matches Some(w) && w.path() == seq![source]
            && w.cost() == 0),
{
    if !graph.contains_node(source) || !graph.contains_node(target) {
        return None;
    }
    let table = quote_total(graph, &edge_cost);
    let ghost g = graph@;
    let ghost tb = table@;
    let ghost s = source.0 as int;
    let ghost t = target.0 as int;
    let n = graph.node_count();
    if source.0 == target.0 {
        let w = WeightedPath::from_parts(vec![source], 0);
        proof {
            let p = seq![s];
            let es = Seq::<int>::empty();
            assert(route_between(g, tb, Direction::Outgoing, p, es, s, s));
            assert(node_ints(w.path()) =~= p);
            assert(w.path() =~= seq![source]);
            assert forall|q: Seq<int>, fs: Seq<int>|
                #[trigger] route_between(g, tb, Direction::Outgoing, q, fs, s, t) && route_cost(tb, fs) <= u64::MAX implies 0
                <= route_cost(tb, fs) by {
                lemma_cost_nonneg(tb, fs);
            }
            assert(shortest_route(g, tb, Direction::Outgoing, s, t, Some(w)));
        }
        return Some(w);
    }
    let forward_prices = crate::util::copied(table.as_slice());
    let backward_prices = crate::util::copied(table.as_slice());
    let mut f = Dijkstra::start(graph, source, Direction::Outgoing, DijkstraWorkspace::new(), forward_prices, false);
    let mut b = Dijkstra::start(graph, target, Direction::Incoming, DijkstraWorkspace::new(), backward_prices, false);
    let mut best: Option<Meeting> = None;
    let mut last_f: u64 = 0;
    let mut last_b: u64 = 0;
    proof {
        f.lemma_settled();
        b.lemma_settled();
        lemma_fresh_pair(f, b);
        lemma_fresh_pair(b, f);
        crate::algo::shortest::lemma_none_settled(n as nat);
        assert(f.settled_nodes() =~= Seq::new(n as nat, |v: int| false));
        assert(b.settled_nodes() =~= Seq::new(n as nat, |v: int| false));
        assert(best_holds(f, b, None)) by {
            assert forall|u: int, e: int| #[trigger] covered(f, b, None, u, e) by {
                assert forall|v: int|
                    #[trigger] joined(f, b, u, e, v) && join_cost(f, b, u, e, v) <= u64::MAX implies false by {}
            }
        }
        let p = seq![s];
        let es = Seq::<int>::empty();
        assert(route_between(g, tb, Direction::Outgoing, p, es, s, s));
        assert(affordable(g, tb, Direction::Outgoing, s, s));
        let p2 = seq![t];
        assert(route_between(g, tb, Direction::Incoming, p2, es, t, t));
        assert(affordable(g, tb, Direction::Incoming, t, t));
    }
    while !f.is_settled(source)
        invariant
            pair_ok(f, b, g, tb, s, t),
            g == graph@,
            tb == table@,
            n == g.node_count,
            s == source.0,
            t == target.0,
            best_holds(f, b, best),
            below_unsettled(f, last_f as int),
            below_unsettled(b, last_b as int),
            affordable(g, tb, Direction::Outgoing, s, s),
            affordable(g, tb, Direction::Incoming, t, t),
            f.settled_nodes().len() == n,
            b.settled_nodes().len() == n,
        decreases n - settled_count(f.settled_nodes()),
    {
        proof {
            f.lemma_settled();
            crate::algo::dijkstra::lemma_count_bound_strict(f.settled_nodes(), s);
        }
        match advance_forward(graph, &table, &mut f, &b, &mut best) {
            None => {
                proof {
                    assert(false);
                }
            },
            Some(c) => {
                last_f = c;
            },
        }
        proof {
            f.lemma_settled();
        }
    }
    while !b.is_settled(target)
        invariant
            pair_ok(f, b, g, tb, s, t),
            g == graph@,
            tb == table@,
            n == g.node_count,
            s == source.0,
            t == target.0,
            best_holds(f, b, best),
            below_unsettled(f, last_f as int),
            below_unsettled(b, last_b as int),
            affordable(g, tb, Direction::Incoming, t, t),
            f.settled_nodes()[s],
            f.settled_nodes().len() == n,
            b.settled_nodes().len() == n,
        decreases n - settled_count(b.settled_nodes()),
    {
        proof {
            b.lemma_settled();
            crate::algo::dijkstra::lemma_count_bound_strict(b.settled_nodes(), t);
        }
        match advance_backward(graph, &table, &f, &mut b, &mut best) {
            None => {
                proof {
                    assert(false);
                }
            },
            Some(c) => {
                last_b = c;
            },
        }
        proof {
            b.lemma_settled();
        }
    }
    loop
        invariant
            pair_ok(f, b, g, tb, s, t),
            g == graph@,
            tb == table@,
            n == g.node_count,
            s == source.0,
            t == target.0,
            best_holds(f, b, best),
            below_unsettled(f, last_f as int),
            below_unsettled(b, last_b as int),
            f.settled_nodes()[s],
            b.settled_nodes()[t],
            f.settled_nodes().len() == n,
            b.settled_nodes().len() == n,
        ensures
            pair_ok(f, b, g, tb, s, t),
            best_holds(f, b, best),
            below_unsettled(f, last_f as int),
            below_unsettled(b, last_b as int),
            f.settled_nodes()[s],
            b.settled_nodes()[t],
            (forall|v: int| affordable(g, tb, Direction::Outgoing, s, v) ==> #[trigger] f.settled_nodes()[v]) || (
            forall|v: int| affordable(g, tb, Direction::Incoming, t, v) ==> #[trigger] b.settled_nodes()[v]) || (
            best matches Some(m) && m.cost <= last_f + last_b),
        decreases (n - settled_count(f.settled_nodes())) + (n - settled_count(b.settled_nodes())),
    {
        let stop = match best {
            Some(m) => match last_f.checked_add(last_b) {
                Some(sum) => sum >= m.cost,
                None => true,
            },
            None => false,
        };
        if stop {
            break ;
        }
        proof {
            crate::algo::dijkstra::lemma_count_bound(f.settled_nodes());
            crate::algo::dijkstra::lemma_count_bound(b.settled_nodes());
        }
        if last_f <= last_b {
            match advance_forward(graph, &table, &mut f, &b, &mut best) {
                None => {
                    break ;
                },
                Some(c) => {
                    last_f = c;
                },
            }
        } else {
            match advance_backward(graph, &table, &f, &mut b, &mut best) {
                None => {
                    break ;
                },
                Some(c) => {
                    last_b = c;
                },
            }
        }
        proof {
            f.lemma_settled();
            b.lemma_settled();
            crate::algo::dijkstra::lemma_count_bound(f.settled_nodes());
            crate::algo::dijkstra::lemma_count_bound(b.settled_nodes());
        }
    }
    match best {
        None => {
            proof {
                if affordable(g, tb, Direction::Outgoing, s, t) {
                    let (p, es) = choose|p: Seq<int>, es: Seq<int>|
                        #[trigger] route_between(g, tb, Direction::Outgoing, p, es, s, t) && route_cost(tb, es)
                            <= u64::MAX;
                    lemma_meets_every_route(f, b, best, g, tb, s, t, p, es, last_f as int, last_b as int);
                }
            }
            None
        },
        Some(m) => {
            let w = join_route(graph, &f, &b, m);
            proof {
                assert forall|p: Seq<int>, es: Seq<int>|
                    #[trigger] route_between(g, tb, Direction::Outgoing, p, es, s, t) && route_cost(tb, es) <= u64::MAX implies m.cost
                    <= route_cost(tb, es) by {
                    lemma_meets_every_route(f, b, best, g, tb, s, t, p, es, last_f as int, last_b as int);
                }
                let es = choose|es: Seq<int>|
                    #[trigger] route_between(g, tb, Direction::Outgoing, node_ints(w.path()), es, s, t) && route_cost(tb, es)
                        == w.cost();
                assert(cheapest(g, tb, Direction::Outgoing, s, t, w.cost()));
            }
            Some(w)
        },
    }
}

/// The route through a meeting: the forward route to its first node, its
/// edge if any, and the backward route to its last node walked forwards.
fn join_route<'g>(graph: &'g Topology, f: &Dijkstra<'g>, b: &Dijkstra<'g>, m: Meeting) -> (r: WeightedPath)
    requires
        pair_ok(*f, *b, graph@, f.prices(), f.origin(), b.origin()),
        meeting_holds(*f, *b, m),
    ensures
        r.cost() == m.cost,
        exists|es: Seq<int>|
            #[trigger] route_between(
                graph@,
                f.prices(),
                Direction::Outgoing,
                node_ints(r.path()),
                es,
                f.origin(),
                b.origin(),
            ) && route_cost(f.prices(), es) == m.cost,
{
    let ghost g = graph@;
    let ghost tb = f.prices();
    let ghost u = m.from.0 as int;
    let ghost v = m.to.0 as int;
    let front = f.route_to(m.from);
    let back = b.route_to(m.to);
    let ghost pf = node_ints(front@);
    let ghost pb = node_ints(back@);
    let ghost esf = choose|es: Seq<int>|
        #[trigger] route_between(g, tb, Direction::Outgoing, pf, es, f.origin(), u) && route_cost(tb, es) == f.cost_of(u);
    let ghost esb = choose|es: Seq<int>|
        #[trigger] route_between(g, tb, Direction::Incoming, pb, es, b.origin(), v) && route_cost(tb, es) == b.cost_of(v);
    proof {
        lemma_route_reverse(g, tb, Direction::Incoming, pb, esb);
    }
    let skip: usize = if m.edge.is_some() { 0 } else { 1 };
    let mut nodes = front;
    let mut i: usize = back.len() - skip;
    while i > 0
        invariant
            i <= back@.len() - skip,
            skip <= 1,
            back@.len() >= 1,
            node_ints(nodes@) == pf + pb.reverse().subrange(skip as int, back@.len() - i),
            pb == node_ints(back@),
        decreases i,
    {
        i -= 1;
        let ghost before = nodes@;
        nodes.push(back[i]);
        proof {
            crate::algo::reach::lemma_node_ints_push(before, back@[i as int]);
            assert(pb.reverse()[back@.len() - 1 - i] == pb[i as int]);
            assert(pf + pb.reverse().subrange(skip as int, back@.len() - i) =~= (pf + pb.reverse().subrange(
                skip as int,
                back@.len() - i - 1,
            )).push(pb[i as int]));
        }
    }
    proof {
        assert(pb.reverse().subrange(skip as int, back@.len() as int) =~= pb.reverse().skip(skip as int));
        match m.edge {
            Some(e) => {
                let ei = e.0 as int;
                lemma_route_push(g, tb, Direction::Outgoing, pf, esf, ei, v);
                lemma_route_concat(g, tb, Direction::Outgoing, pf.push(v), esf.push(ei), pb.reverse(), esb.reverse());
                assert(pf.push(v) + pb.reverse().skip(1) =~= pf + pb.reverse());
                assert(pb.reverse().skip(0) =~= pb.reverse());
                assert(route_between(
                    g,
                    tb,
                    Direction::Outgoing,
                    node_ints(nodes@),
                    esf.push(ei) + esb.reverse(),
                    f.origin(),
                    b.origin(),
                ));
            },
            None => {
                lemma_route_concat(g, tb, Direction::Outgoing, pf, esf, pb.reverse(), esb.reverse());
                assert(route_between(
                    g,
                    tb,
                    Direction::Outgoing,
                    node_ints(nodes@),
                    esf + esb.reverse(),
                    f.origin(),
                    b.origin(),
                ));
            },
        }
    }
    WeightedPath::from_parts(nodes, m.cost)
}

} // verus!
