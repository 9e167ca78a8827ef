//! Least walk costs with signed weights by rounds of relaxation: after `k`
//! rounds each node holds the least cost of a walk with at most `k` edges.
use super::reach::{follows, Direction};
use super::signed::{signed_walk, signed_walk_between, walk_cost, weighed, weight};
use crate::error::{GraphError, Result};
use crate::topology::{EdgeIndex, GraphModel, NodeIndex, Topology};
use vstd::prelude::*;

verus! {

/// `a` lowered to `c` when `c` is less, or set to `c` when empty.
pub open spec fn opt_min(a: Option<int>, c: int) -> Option<int> {
    match a {
        Some(x) => if c < x {
            Some(c)
        } else {
            Some(x)
        },
        None => Some(c),
    }
}

/// The least cost of a walk from `s` to `v` with at most `k` edges; `None`
/// when there is no such walk.
pub open spec fn best(g: GraphModel, table: Seq<Option<i64>>, s: int, k: nat, v: int) -> Option<int>
    decreases k, 0nat,
{
    if k == 0 {
        if v == s {
            Some(0)
        } else {
            None
        }
    } else {
        best_through(g, table, s, (k - 1) as nat, v, table.len())
    }
}

/// The least cost of a walk from `s` to `v` with at most `k` edges, or with
/// `k + 1` edges the last of which is below `m`.
pub open spec fn best_through(g: GraphModel, table: Seq<Option<i64>>, s: int, k: nat, v: int, m: nat) -> Option<int>
    decreases k, m + 1,
{
    if m == 0 {
        best(g, table, s, k, v)
    } else {
        let prev = best_through(g, table, s, k, v, (m - 1) as nat);
        let e = m - 1;
        let u = g.edges[e].0;
        if table[e] is Some && g.edges[e].1 == v && best(g, table, s, k, u) is Some {
            opt_min(prev, best(g, table, s, k, u)->0 + weight(table, e))
        } else {
            prev
        }
    }
}

/// Some walk from `s` to `v` has at most `k` edges and costs `c`.
pub open spec fn walk_within(g: GraphModel, table: Seq<Option<i64>>, s: int, v: int, k: int, c: int) -> bool {
    exists|p: Seq<int>, es: Seq<int>|
        #[trigger] signed_walk_between(g, table, p, es, s, v) && es.len() <= k && walk_cost(table, es) == c
}

/// The one-node walk.
proof fn lemma_empty_walk(g: GraphModel, table: Seq<Option<i64>>, s: int)
    requires
        0 <= s < g.node_count,
    ensures
        signed_walk_between(g, table, seq![s], Seq::<int>::empty(), s, s),
        walk_cost(table, Seq::<int>::empty()) == 0,
{
}

/// `best` is exact: what it gives some walk with at most `k` edges costs,
/// and no such walk costs less.
pub proof fn lemma_best(g: GraphModel, table: Seq<Option<i64>>, s: int, k: nat, v: int)
    requires
        g.valid(),
        0 <= s < g.node_count,
        table.len() == g.edges.len(),
    ensures
        best(g, table, s, k, v) matches Some(c) ==> walk_within(g, table, s, v, k as int, c),
        forall|p: Seq<int>, es: Seq<int>|
            #[trigger] signed_walk_between(g, table, p, es, s, v) && es.len() <= k ==> best(g, table, s, k, v) is Some
                && best(g, table, s, k, v)->0 <= walk_cost(table, es),
    decreases k, 0nat,
{
    if k == 0 {
        if v == s {
            lemma_empty_walk(g, table, s);
        }
        assert forall|p: Seq<int>, es: Seq<int>|
            #[trigger] signed_walk_between(g, table, p, es, s, v) && es.len() <= k implies best(g, table, s, k, v) is Some
                && best(g, table, s, k, v)->0 <= walk_cost(table, es) by {
            assert(p.len() == 1);
        }
    } else {
        lemma_best_through(g, table, s, (k - 1) as nat, v, table.len());
        assert forall|p: Seq<int>, es: Seq<int>|
            #[trigger] signed_walk_between(g, table, p, es, s, v) && es.len() <= k implies best(g, table, s, k, v) is Some
                && best(g, table, s, k, v)->0 <= walk_cost(table, es) by {
            if es.len() == k {
                let i = es.len() - 1;
                assert(follows(g, weighed(table), Direction::Outgoing, es[i], p[i], p[i + 1]));
            }
        }
    }
}

proof fn lemma_best_through(g: GraphModel, table: Seq<Option<i64>>, s: int, k: nat, v: int, m: nat)
    requires
        g.valid(),
        0 <= s < g.node_count,
        table.len() == g.edges.len(),
        m <= table.len(),
    ensures
        best_through(g, table, s, k, v, m) matches Some(c) ==> walk_within(g, table, s, v, (k + 1) as int, c),
        forall|p: Seq<int>, es: Seq<int>|
            #[trigger] signed_walk_between(g, table, p, es, s, v) && (es.len() <= k || (es.len() == k + 1 && es.last()
                < m)) ==> best_through(g, table, s, k, v, m) is Some && best_through(g, table, s, k, v, m)->0
                <= walk_cost(table, es),
    decreases k, m + 1,
{
    if m == 0 {
        lemma_best(g, table, s, k, v);
        if best(g, table, s, k, v) is Some {
            let c = best(g, table, s, k, v)->0;
            let (p, es) = choose|p: Seq<int>, es: Seq<int>|
                #[trigger] signed_walk_between(g, table, p, es, s, v) && es.len() <= k && walk_cost(table, es) == c;
            assert(signed_walk_between(g, table, p, es, s, v) && es.len() <= k + 1 && walk_cost(table, es) == c);
        }
        assert forall|p: Seq<int>, es: Seq<int>|
            #[trigger] signed_walk_between(g, table, p, es, s, v) && (es.len() <= k || (es.len() == k + 1 && es.last()
                < m)) implies best_through(g, table, s, k, v, m) is Some && best_through(g, table, s, k, v, m)->0
                <= walk_cost(table, es) by {
            if es.len() == k + 1 {
                let i = es.len() - 1;
                assert(follows(g, weighed(table), Direction::Outgoing, es[i], p[i], p[i + 1]));
            }
        }
    } else {
        lemma_best_through(g, table, s, k, v, (m - 1) as nat);
        let e = m - 1;
        let u = g.edges[e].0;
        lemma_best(g, table, s, k, u);
        let prev = best_through(g, table, s, k, v, (m - 1) as nat);
        let cond = table[e] is Some && g.edges[e].1 == v && best(g, table, s, k, u) is Some;
        if cond {
            let cu = best(g, table, s, k, u)->0;
            let (p, es) = choose|p: Seq<int>, es: Seq<int>|
                #[trigger] signed_walk_between(g, table, p, es, s, u) && es.len() <= k && walk_cost(table, es) == cu;
            assert(signed_walk_between(g, table, p, es, s, u));
            assert(follows(g, weighed(table), Direction::Outgoing, e, p.last(), v));
            assert(0 <= v < g.node_count);
            super::signed::lemma_walk_push(g, table, p, es, e, v);
            assert(signed_walk_between(g, table, p.push(v), es.push(e), s, v));
            assert(walk_within(g, table, s, v, (k + 1) as int, cu + weight(table, e)));
        }
        if prev is Some {
            let c = prev->0;
            let (p, es) = choose|p: Seq<int>, es: Seq<int>|
                #[trigger] signed_walk_between(g, table, p, es, s, v) && es.len() <= k + 1 && walk_cost(table, es) == c;
            assert(signed_walk_between(g, table, p, es, s, v));
        }
        assert forall|p: Seq<int>, es: Seq<int>|
            #[trigger] signed_walk_between(g, table, p, es, s, v) && (es.len() <= k || (es.len() == k + 1 && es.last()
                < m)) implies best_through(g, table, s, k, v, m) is Some && best_through(g, table, s, k, v, m)->0
                <= walk_cost(table, es) by {
            if es.len() == k + 1 && es.last() == e {
                super::signed::lemma_walk_drop(g, table, p, es);
                let q = p.drop_last();
                let fs = es.drop_last();
                assert(signed_walk_between(g, table, q, fs, s, u));
                assert(fs.len() <= k);
                assert(cond);
            } else {
                assert(signed_walk_between(g, table, p, es, s, v));
            }
        }
    }
}

/// Rounds that start from equal values end at equal values.
proof fn lemma_through_same(g: GraphModel, table: Seq<Option<i64>>, s: int, k1: nat, k2: nat, v: int, m: nat)
    requires
        forall|u: int| #[trigger] best(g, table, s, k1, u) == best(g, table, s, k2, u),
    ensures
        best_through(g, table, s, k1, v, m) == best_through(g, table, s, k2, v, m),
    decreases m,
{
    if m > 0 {
        lemma_through_same(g, table, s, k1, k2, v, (m - 1) as nat);
        assert(best(g, table, s, k1, g.edges[m - 1].0) == best(g, table, s, k2, g.edges[m - 1].0));
    } else {
        assert(best(g, table, s, k1, v) == best(g, table, s, k2, v));
    }
}

/// Once a round changes nothing, no later round does.
pub proof fn lemma_stable(g: GraphModel, table: Seq<Option<i64>>, s: int, n: nat, k: nat, v: int)
    requires
        n >= 1,
        k >= n - 1,
        forall|u: int| #[trigger] best(g, table, s, n, u) == best(g, table, s, (n - 1) as nat, u),
    ensures
        best(g, table, s, k, v) == best(g, table, s, (n - 1) as nat, v),
    decreases k,
{
    if k > n - 1 {
        assert forall|u: int| #[trigger] best(g, table, s, (k - 1) as nat, u) == best(g, table, s, (n - 1) as nat, u) by {
            lemma_stable(g, table, s, n, (k - 1) as nat, u);
        }
        lemma_through_same(g, table, s, (k - 1) as nat, (n - 1) as nat, v, table.len());
        assert(best(g, table, s, k, v) == best(g, table, s, n, v));
    }
}

/// When a round changes nothing, the values are the least costs of all
/// walks.
pub proof fn lemma_stable_least(g: GraphModel, table: Seq<Option<i64>>, s: int, v: int)
    requires
        g.valid(),
        0 <= s < g.node_count,
        table.len() == g.edges.len(),
        forall|u: int| #[trigger] best(g, table, s, g.node_count, u) == best(g, table, s, (g.node_count - 1) as nat, u),
    ensures
        forall|p: Seq<int>, es: Seq<int>|
            #[trigger] signed_walk_between(g, table, p, es, s, v) ==> best(g, table, s, (g.node_count - 1) as nat, v) is Some
                && best(g, table, s, (g.node_count - 1) as nat, v)->0 <= walk_cost(table, es),
{
    let n = g.node_count;
    assert forall|p: Seq<int>, es: Seq<int>| #[trigger] signed_walk_between(g, table, p, es, s, v) implies best(
        g,
        table,
        s,
        (n - 1) as nat,
        v,
    ) is Some && best(g, table, s, (n - 1) as nat, v)->0 <= walk_cost(table, es) by {
        let k: nat = if es.len() > n - 1 { es.len() } else { (n - 1) as nat };
        lemma_best(g, table, s, k, v);
        lemma_stable(g, table, s, n, k, v);
    }
}

/// A round never raises a value.
proof fn lemma_through_below(g: GraphModel, table: Seq<Option<i64>>, s: int, k: nat, v: int, m: nat)
    requires
        best(g, table, s, k, v) is Some,
    ensures
        best_through(g, table, s, k, v, m) is Some,
        best_through(g, table, s, k, v, m)->0 <= best(g, table, s, k, v)->0,
    decreases m,
{
    if m > 0 {
        lemma_through_below(g, table, s, k, v, (m - 1) as nat);
    }
}

/// The costs of joined edge lists add up.
pub proof fn lemma_cost_concat(table: Seq<Option<i64>>, a: Seq<int>, b: Seq<int>)
    ensures
        walk_cost(table, a + b) == walk_cost(table, a) + walk_cost(table, b),
    decreases b.len(),
{
    if b.len() == 0 {
        assert(a + b =~= a);
    } else {
        lemma_cost_concat(table, a, b.drop_last());
        assert((a + b).drop_last() =~= a + b.drop_last());
    }
}

/// A walk from `s` leads to a closed walk of negative cost.
pub open spec fn negative_cycle_from(g: GraphModel, table: Seq<Option<i64>>, s: int) -> bool {
    exists|p: Seq<int>, es: Seq<int>, q: Seq<int>, fs: Seq<int>|
        #[trigger] signed_walk_between(g, table, p, es, s, p.last()) && #[trigger] signed_walk_between(
            g,
            table,
            q,
            fs,
            p.last(),
            p.last(),
        ) && fs.len() > 0 && walk_cost(table, fs) < 0
}

/// Some walk from `s` with at most as many edges as there are nodes costs
/// beyond `i64`.
pub open spec fn costly_walk_from(g: GraphModel, table: Seq<Option<i64>>, s: int) -> bool {
    exists|p: Seq<int>, es: Seq<int>|
        #[trigger] signed_walk_between(g, table, p, es, s, p.last()) && es.len() <= g.node_count && !(i64::MIN
            <= walk_cost(table, es) <= i64::MAX)
}

/// A round that still changes a value after as many rounds as there are
/// nodes less one shows a reachable negative cycle.
#[verifier::rlimit(100)]
#[verifier::spinoff_prover]
pub proof fn lemma_change_cycle(g: GraphModel, table: Seq<Option<i64>>, s: int, v: int)
    requires
        g.valid(),
        0 <= s < g.node_count,
        table.len() == g.edges.len(),
        best(g, table, s, g.node_count, v) != best(g, table, s, (g.node_count - 1) as nat, v),
    ensures
        negative_cycle_from(g, table, s),
{
    let n = g.node_count;
    let k1 = (n - 1) as nat;
    lemma_best(g, table, s, n, v);
    lemma_best(g, table, s, k1, v);
    if best(g, table, s, k1, v) is Some {
        lemma_through_below(g, table, s, k1, v, table.len());
    }
    let c = best(g, table, s, n, v)->0;
    let (p, es) = choose|p: Seq<int>, es: Seq<int>|
        #[trigger] signed_walk_between(g, table, p, es, s, v) && es.len() <= n && walk_cost(table, es) == c;
    assert(signed_walk_between(g, table, p, es, s, v));
    assert(es.len() == n);
    assert(p.len() == n + 1);
    if p.no_duplicates() {
        assert forall|i: int| 0 <= i < p.len() implies 0 <= #[trigger] p[i] < n by {
        }
        crate::algo::reach::lemma_distinct_bounded(p, n as int);
    }
    let (i, j) = choose|i: int, j: int| 0 <= i < p.len() && 0 <= j < p.len() && i != j && p[i] == p[j];
    let (i, j) = if i < j { (i, j) } else { (j, i) };
    let len = es.len() as int;
    let es_a = es.subrange(0, i);
    let es_c = es.subrange(i, j);
    let es_b = es.subrange(j, len);
    let pa = p.subrange(0, i + 1);
    let pc = p.subrange(i, j + 1);
    let p2 = pa + p.subrange(j + 1, p.len() as int);
    let es2 = es_a + es_b;
    assert(es =~= es_a + es_c + es_b);
    lemma_cost_concat(table, es_a + es_c, es_b);
    lemma_cost_concat(table, es_a, es_c);
    lemma_cost_concat(table, es_a, es_b);
    assert forall|k: int| 0 <= k < es2.len() implies #[trigger] follows(
        g,
        weighed(table),
        Direction::Outgoing,
        es2[k],
        p2[k],
        p2[k + 1],
    ) by {
        if k < i {
            assert(follows(g, weighed(table), Direction::Outgoing, es[k], p[k], p[k + 1]));
        } else {
            let t = j + (k - i);
            assert(es2[k] == es[t]);
            assert(follows(g, weighed(table), Direction::Outgoing, es[t], p[t], p[t + 1]));
            assert(p2[k + 1] == p[t + 1]);
        }
    }
    assert forall|k: int| 0 <= k < p2.len() implies 0 <= #[trigger] p2[k] < n by {
        if k <= i {
            assert(p2[k] == p[k]);
        } else {
            assert(p2[k] == p[j + (k - i)]);
        }
    }
    assert(signed_walk_between(g, table, p2, es2, s, v)) by {
        if j == len {
            assert(p2.last() == p[i]);
        } else {
            assert(p2.last() == p.last());
        }
    }
    assert(es2.len() <= k1);
    assert(best(g, table, s, k1, v)->0 <= walk_cost(table, es2));
    assert forall|k: int| 0 <= k < es_c.len() implies #[trigger] follows(
        g,
        weighed(table),
        Direction::Outgoing,
        es_c[k],
        pc[k],
        pc[k + 1],
    ) by {
        assert(follows(g, weighed(table), Direction::Outgoing, es[i + k], p[i + k], p[i + k + 1]));
    }
    assert forall|k: int| 0 <= k < pc.len() implies 0 <= #[trigger] pc[k] < n by {
        assert(pc[k] == p[i + k]);
    }
    assert(signed_walk_between(g, table, pc, es_c, p[i], p[i]));
    assert forall|k: int| 0 <= k < es_a.len() implies #[trigger] follows(
        g,
        weighed(table),
        Direction::Outgoing,
        es_a[k],
        pa[k],
        pa[k + 1],
    ) by {
        assert(follows(g, weighed(table), Direction::Outgoing, es[k], p[k], p[k + 1]));
    }
    assert(signed_walk_between(g, table, pa, es_a, s, pa.last()));
    assert(pa.last() == p[i]);
    assert(walk_cost(table, es_c) < 0);
    assert(signed_walk_between(g, table, pc, es_c, pa.last(), pa.last()));
}

/// An exec value as a spec value.
pub open spec fn opt_int(x: Option<i64>) -> Option<int> {
    match x {
        Some(w) => Some(w as int),
        None => None,
    }
}

/// Rounds of relaxation from `source`, as many as there are nodes: the
/// least walk costs when the last round changes nothing; a negative cycle
/// when it does; an overflow when a candidate cost leaves `i64`.
pub(crate) fn relax_rounds(graph: &Topology, source: NodeIndex, table: &Vec<Option<i64>>) -> (r: Result<
    Vec<Option<i64>>,
>)
    requires
        source.0 < graph@.node_count,
        table@.len() == graph@.edges.len(),
    ensures
        match r {
            Ok(d) => {
                &&& d@.len() == graph@.node_count
                &&& forall|v: int|
                    0 <= v < graph@.node_count ==> opt_int(#[trigger] d@[v]) == best(
                        graph@,
                        table@,
                        source.0 as int,
                        (graph@.node_count - 1) as nat,
                        v,
                    )
                &&& forall|u: int|
                    #[trigger] best(graph@, table@, source.0 as int, graph@.node_count, u) == best(
                        graph@,
                        table@,
                        source.0 as int,
                        (graph@.node_count - 1) as nat,
                        u,
                    )
            },
            Err(e) => {
                ||| e == GraphError::NegativeCycle { algorithm: "SPFA" } && negative_cycle_from(
                    graph@,
                    table@,
                    source.0 as int,
                )
                ||| e == GraphError::ArithmeticOverflow { operation: "SPFA relaxation" } && costly_walk_from(
                    graph@,
                    table@,
                    source.0 as int,
                )
            },
        },
{
    let n = graph.node_count();
    let m = graph.edge_count();
    let ghost g = graph@;
    let ghost tb = table@;
    let ghost s = source.0 as int;
    let mut dist: Vec<Option<i64>> = Vec::new();
    let mut i: usize = 0;
    while i < n
        invariant
            i <= n,
            dist@.len() == i,
            forall|v: int| 0 <= v < i ==> (#[trigger] dist@[v]) is None,
        decreases n - i,
    {
        dist.push(None);
        i += 1;
    }
    dist.set(source.0 as usize, Some(0));
    proof {
        assert forall|v: int| 0 <= v < n implies opt_int(#[trigger] dist@[v]) == best(g, tb, s, 0, v) by {
        }
    }
    let mut k: usize = 0;
    while k < n
        invariant
            g == graph@,
            tb == table@,
            s == source.0 as int,
            n == g.node_count,
            m == g.edges.len(),
            g.valid(),
            0 <= s < n,
            tb.len() == m,
            m <= u32::MAX,
            k < n,
            k < n ==> dist@.len() == n,
            k < n ==> forall|v: int| 0 <= v < n ==> opt_int(#[trigger] dist@[v]) == best(g, tb, s, k as nat, v),
        decreases n - k,
    {
        let mut next = crate::util::copied(dist.as_slice());
        proof {
            assert forall|v: int| 0 <= v < n implies opt_int(#[trigger] next@[v]) == best_through(g, tb, s, k as nat, v, 0) by {
            }
        }
        let mut e: usize = 0;
        while e < m
            invariant
                g == graph@,
                tb == table@,
                s == source.0 as int,
                n == g.node_count,
                m == g.edges.len(),
                g.valid(),
                0 <= s < n,
                tb.len() == m,
                m <= u32::MAX,
                k < n,
                e <= m,
                dist@.len() == n,
                next@.len() == n,
                forall|v: int| 0 <= v < n ==> opt_int(#[trigger] dist@[v]) == best(g, tb, s, k as nat, v),
                forall|v: int| 0 <= v < n ==> opt_int(#[trigger] next@[v]) == best_through(g, tb, s, k as nat, v, e as nat),
            decreases m - e,
        {
            proof {
                assert((e as u32) as int == e as int);
            }
            let ends = graph.edge_endpoints(EdgeIndex(e as u32));
            let ghost before = next@;
            match (table[e], ends) {
                (Some(w), Some(ends)) => {
                    let u = ends.source.0 as usize;
                    let v = ends.target.0 as usize;
                    proof {
                        assert(0 <= g.edges[e as int].0 < n && 0 <= g.edges[e as int].1 < n);
                    }
                    match dist[u] {
                        Some(du) => {
                            match du.checked_add(w) {
                                Some(c) => {
                                    let lower = match next[v] {
                                        Some(x) => c < x,
                                        None => true,
                                    };
                                    if lower {
                                        next.set(v, Some(c));
                                    }
                                },
                                None => {
                                    proof {
                                        lemma_best(g, tb, s, k as nat, u as int);
                                        let (p, es) = choose|p: Seq<int>, es: Seq<int>|
                                            #[trigger] signed_walk_between(g, tb, p, es, s, u as int) && es.len() <= k
                                                && walk_cost(tb, es) == du;
                                        assert(signed_walk_between(g, tb, p, es, s, u as int));
                                        assert(follows(g, weighed(tb), Direction::Outgoing, e as int, p.last(), v as int));
                                        super::signed::lemma_walk_push(g, tb, p, es, e as int, v as int);
                                        assert(signed_walk_between(g, tb, p.push(v as int), es.push(e as int), s, p.push(v as int).last()));
                                    }
                                    return Err(GraphError::ArithmeticOverflow { operation: "SPFA relaxation" });
                                },
                            }
                        },
                        None => {},
                    }
                },
                _ => {},
            }
            proof {
                assert forall|x: int| 0 <= x < n implies opt_int(#[trigger] next@[x]) == best_through(
                    g,
                    tb,
                    s,
                    k as nat,
                    x,
                    (e + 1) as nat,
                ) by {
                    assert(opt_int(before[x]) == best_through(g, tb, s, k as nat, x, e as nat));
                }
            }
            e += 1;
        }
        if k + 1 == n {
            let mut same = true;
            let mut x: usize = 0;
            while x < n
                invariant
                    x <= n,
                    dist@.len() == n,
                    next@.len() == n,
                    same <==> forall|y: int| 0 <= y < x ==> #[trigger] dist@[y] == next@[y],
                decreases n - x,
            {
                if dist[x] != next[x] {
                    same = false;
                }
                x += 1;
            }
            proof {
                assert forall|v: int| 0 <= v < n implies #[trigger] best(g, tb, s, (k + 1) as nat, v) == best_through(
                    g,
                    tb,
                    s,
                    k as nat,
                    v,
                    m as nat,
                ) by {
                }
            }
            if !same {
                proof {
                    let y = choose|y: int| 0 <= y < n && !(#[trigger] dist@[y] == next@[y]);
                    assert(opt_int(dist@[y]) != opt_int(next@[y]));
                    lemma_change_cycle(g, tb, s, y);
                }
                return Err(GraphError::NegativeCycle { algorithm: "SPFA" });
            }
            proof {
                assert forall|u: int| #[trigger] best(g, tb, s, n as nat, u) == best(g, tb, s, (n - 1) as nat, u) by {
                    if 0 <= u < n {
                        assert(dist@[u] == next@[u]);
                    } else {
                        lemma_best(g, tb, s, n as nat, u);
                        lemma_best(g, tb, s, (n - 1) as nat, u);
                        lemma_outside(g, tb, s, n as nat, u);
                        lemma_outside(g, tb, s, (n - 1) as nat, u);
                    }
                }
            }
            return Ok(dist);
        }
        dist = next;
        k += 1;
    }
    proof {
        assert(false);
    }
    Ok(dist)
}

/// No walk ends outside the nodes.
proof fn lemma_outside(g: GraphModel, table: Seq<Option<i64>>, s: int, k: nat, u: int)
    requires
        g.valid(),
        0 <= s < g.node_count,
        table.len() == g.edges.len(),
        !(0 <= u < g.node_count),
    ensures
        best(g, table, s, k, u) is None,
{
    lemma_best(g, table, s, k, u);
    if best(g, table, s, k, u) is Some {
        let c = best(g, table, s, k, u)->0;
        let (p, es) = choose|p: Seq<int>, es: Seq<int>|
            #[trigger] signed_walk_between(g, table, p, es, s, u) && es.len() <= k && walk_cost(table, es) == c;
        assert(0 <= p[p.len() - 1] < g.node_count);
    }
}

} // verus!
