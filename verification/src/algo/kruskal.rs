//! Greedy spanning forests: which edges join nodes that a set of kept edges
//! does not already connect.
use super::reach::{
    follows, lemma_closed_holds_reachable, lemma_reach_self, lemma_reach_step, lemma_step_in_range, step, walkable,
    Direction,
};
use crate::topology::GraphModel;
use vstd::prelude::*;

verus! {

/// The mask that accepts exactly the edges listed in `kept`.
pub open spec fn kept_mask(m: nat, kept: Seq<usize>) -> Seq<bool> {
    Seq::new(m, |e: int| kept.contains(e as usize))
}

/// The kept edges, taken both ways, connect `u` and `v`.
pub open spec fn joined(g: GraphModel, kept: Seq<usize>, u: int, v: int) -> bool {
    walkable(g, kept_mask(g.edges.len(), kept), Direction::Both, u, v)
}

/// The edges that a greedy pass over `order` keeps: each edge in turn,
/// unless the edges kept before it already connect its ends.
pub open spec fn kruskal(g: GraphModel, order: Seq<usize>) -> Seq<usize>
    decreases order.len(),
{
    if order.len() == 0 {
        Seq::empty()
    } else {
        let prev = kruskal(g, order.drop_last());
        let e = order.last() as int;
        if joined(g, prev, g.edges[e].0, g.edges[e].1) {
            prev
        } else {
            prev.push(order.last())
        }
    }
}

/// Walks compose.
pub proof fn lemma_walkable_concat(g: GraphModel, mask: Seq<bool>, dir: Direction, s: int, u: int, t: int)
    requires
        g.valid(),
        walkable(g, mask, dir, s, u),
        walkable(g, mask, dir, u, t),
    ensures
        walkable(g, mask, dir, s, t),
{
    let set = Set::new(|w: int| walkable(g, mask, dir, s, w));
    assert forall|a: int, b: int| set.contains(a) && #[trigger] step(g, mask, dir, a, b) implies set.contains(b) by {
        lemma_step_in_range(g, mask, dir, a, b);
        lemma_reach_step(g, mask, dir, s, a, b);
    }
    lemma_closed_holds_reachable(g, mask, dir, u, t, set);
}

/// A walk along the edges of one mask is a walk along those of a larger one.
pub proof fn lemma_walkable_mono(g: GraphModel, m1: Seq<bool>, m2: Seq<bool>, dir: Direction, u: int, v: int)
    requires
        g.valid(),
        m1.len() == m2.len(),
        forall|e: int| 0 <= e < m1.len() && #[trigger] m1[e] ==> m2[e],
        walkable(g, m1, dir, u, v),
    ensures
        walkable(g, m2, dir, u, v),
{
    let p = choose|p: Seq<int>| #[trigger] super::reach::walk_between(g, m1, dir, p, u, v);
    assert(0 <= p[0] < g.node_count);
    lemma_reach_self(g, m2, dir, u);
    let set = Set::new(|w: int| walkable(g, m2, dir, u, w));
    assert forall|a: int, b: int| set.contains(a) && #[trigger] step(g, m1, dir, a, b) implies set.contains(b) by {
        let e = choose|e: int| follows(g, m1, dir, e, a, b);
        assert(follows(g, m2, dir, e, a, b));
        lemma_step_in_range(g, m1, dir, a, b);
        lemma_reach_step(g, m2, dir, u, a, b);
    }
    lemma_closed_holds_reachable(g, m1, dir, u, v, set);
}

/// With no kept edges, a node is joined only to itself.
pub proof fn lemma_joined_none(g: GraphModel, u: int, v: int)
    requires
        0 <= u < g.node_count,
        0 <= v < g.node_count,
    ensures
        joined(g, Seq::empty(), u, v) <==> u == v,
{
    let mask = kept_mask(g.edges.len(), Seq::<usize>::empty());
    if u == v {
        lemma_reach_self(g, mask, Direction::Both, u);
    }
    if joined(g, Seq::empty(), u, v) {
        let set = Set::new(|w: int| w == u);
        assert forall|a: int, b: int| set.contains(a) && #[trigger] step(g, mask, Direction::Both, a, b) implies set.contains(
            b,
        ) by {
            let e = choose|e: int| follows(g, mask, Direction::Both, e, a, b);
            assert(!Seq::<usize>::empty().contains(e as usize));
        }
        lemma_closed_holds_reachable(g, mask, Direction::Both, u, v, set);
    }
}

/// Kept edges join their own ends.
proof fn lemma_joined_by_step(g: GraphModel, kept: Seq<usize>, x: int, y: int)
    requires
        g.valid(),
        0 <= x < g.node_count,
        step(g, kept_mask(g.edges.len(), kept), Direction::Both, x, y),
    ensures
        joined(g, kept, x, y),
        0 <= y < g.node_count,
{
    let mask = kept_mask(g.edges.len(), kept);
    lemma_step_in_range(g, mask, Direction::Both, x, y);
    lemma_reach_self(g, mask, Direction::Both, x);
    lemma_reach_step(g, mask, Direction::Both, x, x, y);
}

/// Merging the group of `b` into that of `a` when edge `e` from `a` to `b`
/// is kept keeps the groups equal to the connected parts.
pub proof fn lemma_union_joined(g: GraphModel, kept: Seq<usize>, e: int, label: Seq<usize>, merged: Seq<usize>)
    requires
        g.valid(),
        0 <= e < g.edges.len(),
        g.edges.len() <= usize::MAX,
        label.len() == g.node_count,
        forall|u: int, v: int|
            0 <= u < g.node_count && 0 <= v < g.node_count ==> (label[u] == label[v] <==> #[trigger] joined(
                g,
                kept,
                u,
                v,
            )),
        label[g.edges[e].0] != label[g.edges[e].1],
        merged == Seq::new(
            g.node_count,
            |x: int|
                if label[x] == label[g.edges[e].1] {
                    label[g.edges[e].0]
                } else {
                    label[x]
                },
        ),
    ensures
        forall|u: int, v: int|
            0 <= u < g.node_count && 0 <= v < g.node_count ==> (merged[u] == merged[v] <==> #[trigger] joined(
                g,
                kept.push(e as usize),
                u,
                v,
            )),
{
    let n = g.node_count;
    let a = g.edges[e].0;
    let b = g.edges[e].1;
    let la = label[a];
    let lb = label[b];
    let m = g.edges.len();
    let m1 = kept_mask(m, kept);
    let m2 = kept_mask(m, kept.push(e as usize));
    assert(0 <= a < n && 0 <= b < n);
    assert forall|f: int| 0 <= f < m1.len() && #[trigger] m1[f] implies m2[f] by {
        assert(kept.push(e as usize)[kept.len() as int] == e as usize);
        let i = choose|i: int| 0 <= i < kept.len() && kept[i] == f as usize;
        assert(kept.push(e as usize)[i] == f as usize);
    }
    assert(follows(g, m2, Direction::Both, e, a, b)) by {
        assert(kept.push(e as usize)[kept.len() as int] == e as usize);
    }
    assert(follows(g, m2, Direction::Both, e, b, a));
    assert forall|u: int, v: int| 0 <= u < n && 0 <= v < n implies (merged[u] == merged[v] <==> #[trigger] joined(
        g,
        kept.push(e as usize),
        u,
        v,
    )) by {
        if joined(g, kept.push(e as usize), u, v) {
            let set = Set::new(|w: int| 0 <= w < n && merged[w] == merged[u]);
            assert forall|x: int, y: int| set.contains(x) && #[trigger] step(g, m2, Direction::Both, x, y) implies set.contains(
                y,
            ) by {
                let f = choose|f: int| follows(g, m2, Direction::Both, f, x, y);
                lemma_step_in_range(g, m2, Direction::Both, x, y);
                if f == e {
                } else {
                    assert(m2[f]);
                    let pushed = kept.push(e as usize);
                    let i = choose|i: int| 0 <= i < pushed.len() && #[trigger] pushed[i] == f as usize;
                    assert(pushed[kept.len() as int] == e as usize);
                    assert(0 <= f < g.edges.len());
                    assert(i < kept.len());
                    assert(kept[i] == f as usize);
                    assert(m1[f]);
                    assert(follows(g, m1, Direction::Both, f, x, y));
                    lemma_joined_by_step(g, kept, x, y);
                    assert(label[x] == label[y]);
                }
            }
            lemma_closed_holds_reachable(g, m2, Direction::Both, u, v, set);
        }
        if merged[u] == merged[v] {
            if label[u] == label[v] {
                assert(joined(g, kept, u, v));
                lemma_walkable_mono(g, m1, m2, Direction::Both, u, v);
            } else if label[u] == la {
                assert(label[v] == lb);
                assert(joined(g, kept, u, a));
                assert(joined(g, kept, b, v));
                lemma_walkable_mono(g, m1, m2, Direction::Both, u, a);
                lemma_walkable_mono(g, m1, m2, Direction::Both, b, v);
                lemma_reach_step(g, m2, Direction::Both, u, a, b);
                lemma_walkable_concat(g, m2, Direction::Both, u, b, v);
            } else {
                assert(label[u] == lb && label[v] == la);
                assert(joined(g, kept, u, b));
                assert(joined(g, kept, a, v));
                lemma_walkable_mono(g, m1, m2, Direction::Both, u, b);
                lemma_walkable_mono(g, m1, m2, Direction::Both, a, v);
                lemma_reach_step(g, m2, Direction::Both, u, b, a);
                lemma_walkable_concat(g, m2, Direction::Both, u, a, v);
            }
        }
    }
}

/// A greedy pass keeps each edge at most once.
pub proof fn lemma_kruskal_distinct(g: GraphModel, order: Seq<usize>)
    requires
        g.valid(),
        forall|i: int| 0 <= i < order.len() ==> #[trigger] order[i] < g.edges.len(),
    ensures
        kruskal(g, order).no_duplicates(),
    decreases order.len(),
{
    if order.len() > 0 {
        let rest = order.drop_last();
        assert forall|i: int| 0 <= i < rest.len() implies #[trigger] rest[i] < g.edges.len() by {
            assert(rest[i] == order[i]);
        }
        lemma_kruskal_distinct(g, rest);
        let prev = kruskal(g, rest);
        let e = order.last();
        let a = g.edges[e as int].0;
        let b = g.edges[e as int].1;
        assert(order[order.len() - 1] < g.edges.len());
        if !joined(g, prev, a, b) {
            if prev.contains(e) {
                let mask = kept_mask(g.edges.len(), prev);
                assert(mask[e as int]);
                assert(follows(g, mask, Direction::Both, e as int, a, b));
                assert(0 <= a < g.node_count);
                lemma_joined_by_step(g, prev, a, b);
            }
            let next = prev.push(e);
            assert forall|i: int, j: int| 0 <= i < next.len() && 0 <= j < next.len() && i != j implies next[i] != next[j] by {
                if i < prev.len() && j < prev.len() {
                    assert(next[i] == prev[i] && next[j] == prev[j]);
                } else if i < prev.len() {
                    assert(next[i] == prev[i]);
                    assert(prev.contains(prev[i]));
                } else if j < prev.len() {
                    assert(next[j] == prev[j]);
                    assert(prev.contains(prev[j]));
                }
            }
        }
    }
}

/// A greedy pass over a prefix of `order` keeps a prefix of what the whole
/// pass keeps.
pub proof fn lemma_kruskal_prefix(g: GraphModel, order: Seq<usize>, x: int)
    requires
        0 <= x <= order.len(),
    ensures
        kruskal(g, order.take(x)).len() <= kruskal(g, order).len(),
        kruskal(g, order).take(kruskal(g, order.take(x)).len() as int) == kruskal(g, order.take(x)),
    decreases order.len(),
{
    if x == order.len() {
        assert(order.take(x) =~= order);
        assert(kruskal(g, order).take(kruskal(g, order).len() as int) =~= kruskal(g, order));
    } else {
        let rest = order.drop_last();
        assert(order.take(x) =~= rest.take(x));
        lemma_kruskal_prefix(g, rest, x);
        let k = kruskal(g, order.take(x)).len() as int;
        let whole = kruskal(g, order);
        let part = kruskal(g, rest);
        if whole != part {
            assert(whole == part.push(order.last()));
            assert(whole.take(k) =~= part.take(k));
        }
    }
}

/// Every edge a greedy pass keeps is an edge of its order.
pub proof fn lemma_kruskal_members(g: GraphModel, order: Seq<usize>, e: usize)
    requires
        kruskal(g, order).contains(e),
    ensures
        order.contains(e),
    decreases order.len(),
{
    if order.len() > 0 {
        let rest = order.drop_last();
        let part = kruskal(g, rest);
        if part.contains(e) {
            lemma_kruskal_members(g, rest, e);
            let i = choose|i: int| 0 <= i < rest.len() && rest[i] == e;
            assert(order[i] == e);
        } else {
            let whole = kruskal(g, order);
            let i = choose|i: int| 0 <= i < whole.len() && whole[i] == e;
            assert(whole != part);
            assert(whole == part.push(order.last()));
            if i < part.len() {
                assert(part[i] == e);
            }
            assert(order[order.len() - 1] == e);
        }
    }
}

/// Each edge a greedy pass keeps joins ends that the edges kept before it
/// do not join: the kept edges form a forest.
pub proof fn lemma_kruskal_forest(g: GraphModel, order: Seq<usize>, k: int)
    requires
        0 <= k < kruskal(g, order).len(),
    ensures
        !joined(
            g,
            kruskal(g, order).take(k),
            g.edges[kruskal(g, order)[k] as int].0,
            g.edges[kruskal(g, order)[k] as int].1,
        ),
    decreases order.len(),
{
    let rest = order.drop_last();
    let part = kruskal(g, rest);
    let whole = kruskal(g, order);
    if k < part.len() {
        if whole != part {
            assert(whole.take(k) =~= part.take(k));
            assert(whole[k] == part[k]);
        }
        lemma_kruskal_forest(g, rest, k);
    } else {
        assert(whole != part);
        assert(whole.take(k) =~= part);
    }
}

/// A greedy pass over edges taken in order of nondecreasing cost keeps a
/// minimum spanning forest: every edge of the order is kept, or its ends
/// are already joined by kept edges that cost no more than it.
pub proof fn greedy_pass_is_minimal(g: GraphModel, cost: Seq<int>, order: Seq<usize>, x: int)
    requires
        cost.len() == g.edges.len(),
        forall|i: int| 0 <= i < order.len() ==> #[trigger] order[i] < g.edges.len(),
        forall|i: int, j: int| 0 <= i <= j < order.len() ==> cost[#[trigger] order[i] as int] <= cost[#[trigger] order[j] as int],
        0 <= x < order.len(),
    ensures
        kruskal(g, order).contains(order[x]) || exists|s: Seq<usize>|
            {
                &&& forall|i: int| 0 <= i < s.len() ==> kruskal(g, order).contains(#[trigger] s[i]) && cost[s[i] as int]
                    <= cost[order[x] as int]
                &&& joined(g, s, g.edges[order[x] as int].0, g.edges[order[x] as int].1)
            },
{
    let part = kruskal(g, order.take(x));
    let next = kruskal(g, order.take(x + 1));
    let whole = kruskal(g, order);
    let e = order[x];
    assert(order.take(x + 1).drop_last() =~= order.take(x));
    assert(order.take(x + 1).last() == e);
    lemma_kruskal_prefix(g, order, x);
    lemma_kruskal_prefix(g, order, x + 1);
    if joined(g, part, g.edges[e as int].0, g.edges[e as int].1) {
        assert forall|i: int| 0 <= i < part.len() implies whole.contains(#[trigger] part[i]) && cost[part[i] as int]
            <= cost[e as int] by {
            assert(whole[i] == part[i]);
            assert(part.contains(part[i]));
            lemma_kruskal_members(g, order.take(x), part[i]);
            let j = choose|j: int| 0 <= j < order.take(x).len() && order.take(x)[j] == part[i];
            assert(order[j] == part[i]);
        }
    } else {
        assert(next == part.push(e));
        assert(whole[part.len() as int] == next[part.len() as int]);
        assert(whole.contains(e));
    }
}

} // verus!
