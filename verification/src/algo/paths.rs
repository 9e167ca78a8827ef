use super::reach::{
    all_edges, answers, lemma_closed_holds_reachable, lemma_distinct_bounded, lemma_node_ints_push,
    lemma_step_in_range, node_ints, step, walk_between, walkable, Direction,
};
use super::traversal::{edge_mask, expand, full_mask};
use crate::topology::{EdgeIndex, GraphModel, NodeIndex, Topology};
use vstd::prelude::*;

verus! {

/// `p` is a walk from `s` to `t` and no walk from `s` to `t` has fewer nodes.
pub open spec fn shortest_walk(
    g: GraphModel,
    mask: Seq<bool>,
    dir: Direction,
    p: Seq<int>,
    s: int,
    t: int,
) -> bool {
    &&& walk_between(g, mask, dir, p, s, t)
    &&& forall|q: Seq<int>| #[trigger] walk_between(g, mask, dir, q, s, t) ==> p.len() <= q.len()
}

/// What a shortest-path query answers: a shortest walk exactly when both
/// endpoints are nodes and the target is reachable.
pub open spec fn shortest_answer(
    g: GraphModel,
    mask: Seq<bool>,
    dir: Direction,
    s: int,
    t: int,
    r: Option<Seq<int>>,
) -> bool {
    match r {
        Some(p) => 0 <= s < g.node_count && 0 <= t < g.node_count && shortest_walk(g, mask, dir, p, s, t),
        None => !(0 <= s < g.node_count && 0 <= t < g.node_count && walkable(g, mask, dir, s, t)),
    }
}

/// The breadth-first search tree invariant: `level` counts steps from `s`,
/// `pred` names a discovered node one level closer, and no accepted step out
/// of a settled node climbs more than one level.
pub open spec fn tree_links(
    g: GraphModel,
    mask: Seq<bool>,
    dir: Direction,
    s: int,
    seen: Seq<bool>,
    pred: Seq<Option<NodeIndex>>,
    level: Seq<int>,
) -> bool {
    &&& seen.len() == g.node_count
    &&& pred.len() == g.node_count
    &&& level.len() == g.node_count
    &&& 0 <= s < g.node_count
    &&& seen[s]
    &&& level[s] == 0
    &&& forall|v: int|
        0 <= v < g.node_count && #[trigger] seen[v] && v != s ==> (pred[v] matches Some(u) && 0 <= u.0
            < g.node_count && seen[u.0 as int] && step(g, mask, dir, u.0 as int, v) && level[v]
            == level[u.0 as int] + 1)
    &&& forall|v: int| 0 <= v < g.node_count && #[trigger] seen[v] ==> level[v] >= 0
}

/// The loop state of the breadth-first tree search after settling the first
/// `cursor` nodes of `order`.
pub open spec fn tree_state(
    g: GraphModel,
    mask: Seq<bool>,
    dir: Direction,
    s: int,
    order: Seq<NodeIndex>,
    seen: Seq<bool>,
    pred: Seq<Option<NodeIndex>>,
    level: Seq<int>,
    cursor: int,
) -> bool {
    let n = g.node_count;
    &&& order.len() >= 1
    &&& order[0].0 == s
    &&& 0 <= cursor <= order.len()
    &&& forall|i: int| 0 <= i < order.len() ==> 0 <= #[trigger] order[i].0 < n
    &&& forall|i: int, j: int| 0 <= i < j < order.len() ==> order[i] != order[j]
    &&& forall|v: int|
        0 <= v < n ==> (#[trigger] seen[v] <==> exists|i: int| 0 <= i < order.len() && order[i].0 == v)
    &&& tree_links(g, mask, dir, s, seen, pred, level)
    &&& forall|i: int, j: int|
        0 <= i < j < order.len() ==> level[#[trigger] order[i].0 as int] <= level[#[trigger] order[j].0 as int]
    &&& cursor < order.len() ==> level[order[order.len() - 1].0 as int] <= level[order[cursor].0 as int] + 1
    &&& forall|i: int, w: int|
        0 <= i < cursor && #[trigger] step(g, mask, dir, order[i].0 as int, w) ==> seen[w] && level[w]
            <= level[order[i].0 as int] + 1
}

/// What settling `order[cursor]` changes and keeps.
proof fn lemma_tree_facts(
    g: GraphModel,
    mask: Seq<bool>,
    dir: Direction,
    s: int,
    old_order: Seq<NodeIndex>,
    old_seen: Seq<bool>,
    old_pred: Seq<Option<NodeIndex>>,
    old_level: Seq<int>,
    order: Seq<NodeIndex>,
    seen: Seq<bool>,
    pred: Seq<Option<NodeIndex>>,
    level: Seq<int>,
    cursor: int,
    node: NodeIndex,
)
    requires
        g.valid(),
        tree_state(g, mask, dir, s, old_order, old_seen, old_pred, old_level, cursor),
        cursor < old_order.len(),
        node == old_order[cursor],
        super::traversal::marked_growth(g, mask, dir, node.0 as int, old_seen, seen, old_order, order),
        forall|w: int| #[trigger] step(g, mask, dir, node.0 as int, w) ==> seen[w],
        pred.len() == g.node_count,
        level.len() == g.node_count,
        forall|v: int|
            0 <= v < g.node_count && !(exists|i: int| old_order.len() <= i < order.len() && #[trigger] order[i].0 == v)
                ==> pred[v] == old_pred[v] && level[v] == old_level[v],
        forall|i: int|
            old_order.len() <= i < order.len() ==> pred[#[trigger] order[i].0 as int] == Some(node) && level[order[i].0 as int] == old_level[node.0 as int] + 1,
    ensures
        forall|i: int| 0 <= i < old_order.len() ==> #[trigger] order[i] == old_order[i],
        old_seen[node.0 as int],
        forall|v: int| 0 <= v < g.node_count && #[trigger] old_seen[v] ==> pred[v] == old_pred[v] && level[v] == old_level[v],
        forall|i: int| old_order.len() <= i < order.len() ==> !old_seen[#[trigger] order[i].0 as int],
{
    let old_len = old_order.len() as int;
    assert forall|i: int| 0 <= i < old_len implies #[trigger] order[i] == old_order[i] by {
        assert(order.subrange(0, old_len)[i] == old_order[i]);
    }
    assert(old_seen[node.0 as int]) by {
        assert(exists|i: int| 0 <= i < old_order.len() && old_order[i].0 == node.0);
    }
    assert forall|v: int| 0 <= v < g.node_count && #[trigger] old_seen[v] implies pred[v] == old_pred[v]
        && level[v] == old_level[v] by {
        if exists|i: int| old_len <= i < order.len() && order[i].0 == v {
            let i = choose|i: int| old_len <= i < order.len() && order[i].0 == v;
            assert(!old_seen[order[i].0 as int]);
        }
    }
}

/// Settling `order[cursor]` keeps the discovery bookkeeping.
proof fn lemma_tree_discovery(
    g: GraphModel,
    mask: Seq<bool>,
    dir: Direction,
    s: int,
    old_order: Seq<NodeIndex>,
    old_seen: Seq<bool>,
    old_pred: Seq<Option<NodeIndex>>,
    old_level: Seq<int>,
    order: Seq<NodeIndex>,
    seen: Seq<bool>,
    pred: Seq<Option<NodeIndex>>,
    level: Seq<int>,
    cursor: int,
    node: NodeIndex,
)
    requires
        g.valid(),
        tree_state(g, mask, dir, s, old_order, old_seen, old_pred, old_level, cursor),
        cursor < old_order.len(),
        node == old_order[cursor],
        super::traversal::marked_growth(g, mask, dir, node.0 as int, old_seen, seen, old_order, order),
        forall|w: int| #[trigger] step(g, mask, dir, node.0 as int, w) ==> seen[w],
        pred.len() == g.node_count,
        level.len() == g.node_count,
        forall|v: int|
            0 <= v < g.node_count && !(exists|i: int| old_order.len() <= i < order.len() && #[trigger] order[i].0 == v)
                ==> pred[v] == old_pred[v] && level[v] == old_level[v],
        forall|i: int|
            old_order.len() <= i < order.len() ==> pred[#[trigger] order[i].0 as int] == Some(node) && level[order[i].0 as int] == old_level[node.0 as int] + 1,
        forall|i: int| 0 <= i < old_order.len() ==> #[trigger] order[i] == old_order[i],
        old_seen[node.0 as int],
        forall|v: int| 0 <= v < g.node_count && #[trigger] old_seen[v] ==> pred[v] == old_pred[v] && level[v] == old_level[v],
        forall|i: int| old_order.len() <= i < order.len() ==> !old_seen[#[trigger] order[i].0 as int],
    ensures
        forall|i: int| 0 <= i < order.len() ==> 0 <= #[trigger] order[i].0 < g.node_count,
        forall|i: int, j: int| 0 <= i < j < order.len() ==> order[i] != order[j],
        forall|v: int|
            0 <= v < g.node_count ==> (#[trigger] seen[v] <==> exists|i: int| 0 <= i < order.len() && order[i].0 == v),
        order[0].0 == s,
{
    let old_len = old_order.len() as int;
    assert forall|i: int, j: int| 0 <= i < j < order.len() implies order[i] != order[j] by {
        if j >= old_len && i < old_len {
            assert(old_seen[old_order[i].0 as int]);
        }
    }
    assert forall|v: int| 0 <= v < g.node_count implies (#[trigger] seen[v] <==> exists|i: int|
        0 <= i < order.len() && order[i].0 == v) by {
        if exists|i: int| 0 <= i < old_order.len() && old_order[i].0 == v {
            let i = choose|i: int| 0 <= i < old_order.len() && old_order[i].0 == v;
            assert(order[i] == old_order[i]);
        }
        if exists|i: int| 0 <= i < order.len() && order[i].0 == v {
            let i = choose|i: int| 0 <= i < order.len() && order[i].0 == v;
            if i < old_len {
                assert(order[i] == old_order[i]);
            }
        }
    }
}

/// Settling `order[cursor]` keeps the tree links.
proof fn lemma_tree_links_step(
    g: GraphModel,
    mask: Seq<bool>,
    dir: Direction,
    s: int,
    old_order: Seq<NodeIndex>,
    old_seen: Seq<bool>,
    old_pred: Seq<Option<NodeIndex>>,
    old_level: Seq<int>,
    order: Seq<NodeIndex>,
    seen: Seq<bool>,
    pred: Seq<Option<NodeIndex>>,
    level: Seq<int>,
    cursor: int,
    node: NodeIndex,
)
    requires
        g.valid(),
        tree_state(g, mask, dir, s, old_order, old_seen, old_pred, old_level, cursor),
        cursor < old_order.len(),
        node == old_order[cursor],
        super::traversal::marked_growth(g, mask, dir, node.0 as int, old_seen, seen, old_order, order),
        forall|w: int| #[trigger] step(g, mask, dir, node.0 as int, w) ==> seen[w],
        pred.len() == g.node_count,
        level.len() == g.node_count,
        forall|v: int|
            0 <= v < g.node_count && !(exists|i: int| old_order.len() <= i < order.len() && #[trigger] order[i].0 == v)
                ==> pred[v] == old_pred[v] && level[v] == old_level[v],
        forall|i: int|
            old_order.len() <= i < order.len() ==> pred[#[trigger] order[i].0 as int] == Some(node) && level[order[i].0 as int] == old_level[node.0 as int] + 1,
        forall|i: int| 0 <= i < old_order.len() ==> #[trigger] order[i] == old_order[i],
        old_seen[node.0 as int],
        forall|v: int| 0 <= v < g.node_count && #[trigger] old_seen[v] ==> pred[v] == old_pred[v] && level[v] == old_level[v],
        forall|i: int| old_order.len() <= i < order.len() ==> !old_seen[#[trigger] order[i].0 as int],
        forall|v: int|
            0 <= v < g.node_count ==> (#[trigger] seen[v] <==> exists|i: int| 0 <= i < order.len() && order[i].0 == v),
    ensures
        tree_links(g, mask, dir, s, seen, pred, level),
{
    let n = g.node_count;
    let old_len = old_order.len() as int;
    let l = old_level[node.0 as int];
    assert(old_seen[s]);
    assert forall|v: int|
        0 <= v < n && #[trigger] seen[v] && v != s implies (pred[v] matches Some(p) && 0 <= p.0 < n
        && seen[p.0 as int] && step(g, mask, dir, p.0 as int, v) && level[v] == level[p.0 as int]
        + 1) by {
        if old_seen[v] {
            let p = old_pred[v]->Some_0;
            assert(old_seen[p.0 as int]);
        } else {
            let i = choose|i: int| 0 <= i < order.len() && order[i].0 == v;
            if i < old_len {
                assert(order[i] == old_order[i]);
                assert(old_seen[v]);
            }
            assert(pred[order[i].0 as int] == Some(node));
        }
    }
    assert forall|v: int| 0 <= v < n && #[trigger] seen[v] implies level[v] >= 0 by {
        if !old_seen[v] {
            let i = choose|i: int| 0 <= i < order.len() && order[i].0 == v;
            if i < old_len {
                assert(order[i] == old_order[i]);
                assert(old_seen[v]);
            }
            assert(level[order[i].0 as int] == l + 1);
        }
    }
}

/// Nodes discovered before settling `order[cursor]` keep their level, which
/// is at most one more than the settled node's.
proof fn lemma_tree_old_levels(
    g: GraphModel,
    mask: Seq<bool>,
    dir: Direction,
    s: int,
    old_order: Seq<NodeIndex>,
    old_seen: Seq<bool>,
    old_pred: Seq<Option<NodeIndex>>,
    old_level: Seq<int>,
    order: Seq<NodeIndex>,
    seen: Seq<bool>,
    pred: Seq<Option<NodeIndex>>,
    level: Seq<int>,
    cursor: int,
    node: NodeIndex,
)
    requires
        g.valid(),
        tree_state(g, mask, dir, s, old_order, old_seen, old_pred, old_level, cursor),
        cursor < old_order.len(),
        node == old_order[cursor],
        super::traversal::marked_growth(g, mask, dir, node.0 as int, old_seen, seen, old_order, order),
        forall|w: int| #[trigger] step(g, mask, dir, node.0 as int, w) ==> seen[w],
        pred.len() == g.node_count,
        level.len() == g.node_count,
        forall|v: int|
            0 <= v < g.node_count && !(exists|i: int| old_order.len() <= i < order.len() && #[trigger] order[i].0 == v)
                ==> pred[v] == old_pred[v] && level[v] == old_level[v],
        forall|i: int|
            old_order.len() <= i < order.len() ==> pred[#[trigger] order[i].0 as int] == Some(node) && level[order[i].0 as int] == old_level[node.0 as int] + 1,
        forall|i: int| 0 <= i < old_order.len() ==> #[trigger] order[i] == old_order[i],
        old_seen[node.0 as int],
        forall|v: int| 0 <= v < g.node_count && #[trigger] old_seen[v] ==> pred[v] == old_pred[v] && level[v] == old_level[v],
        forall|i: int| old_order.len() <= i < order.len() ==> !old_seen[#[trigger] order[i].0 as int],
        forall|v: int|
            0 <= v < g.node_count ==> (#[trigger] seen[v] <==> exists|i: int| 0 <= i < order.len() && order[i].0 == v),
    ensures
        forall|i: int| 0 <= i < old_order.len() ==> level[#[trigger] order[i].0 as int] == old_level[old_order[i].0 as int]
            && old_level[old_order[i].0 as int] <= old_level[node.0 as int] + 1,
{
    let old_len = old_order.len() as int;
    let u = node.0 as int;
    let l = old_level[u];
    assert forall|i: int| 0 <= i < old_len implies level[#[trigger] order[i].0 as int] == old_level[old_order[i].0 as int]
        && old_level[old_order[i].0 as int] <= l + 1 by {
        assert(old_seen[old_order[i].0 as int]);
        if i > cursor {
            assert(old_level[old_order[i].0 as int] <= old_level[old_order[old_len - 1].0 as int]);
        }
        if i < cursor {
            assert(old_level[old_order[i].0 as int] <= old_level[old_order[cursor].0 as int]);
        }
    }
}

/// Settling `order[cursor]` keeps levels ordered along the discovery order.
proof fn lemma_tree_monotone(
    old_order: Seq<NodeIndex>,
    old_level: Seq<int>,
    order: Seq<NodeIndex>,
    level: Seq<int>,
    cursor: int,
    l: int,
)
    requires
        0 <= cursor < old_order.len() <= order.len(),
        forall|i: int, j: int|
            0 <= i < j < old_order.len() ==> old_level[#[trigger] old_order[i].0 as int] <= old_level[#[trigger] old_order[j].0 as int],
        l == old_level[old_order[cursor].0 as int],
        forall|i: int| 0 <= i < old_order.len() ==> #[trigger] order[i] == old_order[i],
        forall|i: int| 0 <= i < old_order.len() ==> level[#[trigger] order[i].0 as int] == old_level[old_order[i].0 as int]
            && old_level[old_order[i].0 as int] <= l + 1,
        forall|i: int| old_order.len() <= i < order.len() ==> level[#[trigger] order[i].0 as int] == l + 1,
    ensures
        forall|i: int, j: int|
            0 <= i < j < order.len() ==> level[#[trigger] order[i].0 as int] <= level[#[trigger] order[j].0 as int],
        cursor + 1 < order.len() ==> level[order[order.len() - 1].0 as int] <= level[order[cursor + 1].0 as int] + 1,
{
    let old_len = old_order.len() as int;
    assert forall|i: int, j: int| 0 <= i < j < order.len() implies level[#[trigger] order[i].0 as int]
        <= level[#[trigger] order[j].0 as int] by {
        if j < old_len {
            assert(old_level[old_order[i].0 as int] <= old_level[old_order[j].0 as int]);
        } else if i < old_len {
            assert(level[order[i].0 as int] <= l + 1);
        }
    }
    if cursor + 1 < order.len() {
        assert(level[order[order.len() - 1].0 as int] <= l + 1) by {
            if order.len() - 1 < old_len {
                assert(level[order[order.len() - 1].0 as int] == old_level[old_order[order.len() - 1].0 as int]);
            }
        }
        assert(level[order[cursor].0 as int] <= level[order[cursor + 1].0 as int]);
        assert(level[order[cursor].0 as int] == l);
    }
}

/// Accepted steps out of settled nodes stay within one level.
proof fn lemma_tree_steps(
    g: GraphModel,
    mask: Seq<bool>,
    dir: Direction,
    old_order: Seq<NodeIndex>,
    old_seen: Seq<bool>,
    old_level: Seq<int>,
    order: Seq<NodeIndex>,
    seen: Seq<bool>,
    level: Seq<int>,
    cursor: int,
    l: int,
)
    requires
        g.valid(),
        0 <= cursor < old_order.len() <= order.len(),
        seen.len() == g.node_count,
        l == old_level[old_order[cursor].0 as int],
        forall|i: int, w: int|
            0 <= i < cursor && #[trigger] step(g, mask, dir, old_order[i].0 as int, w) ==> old_seen[w] && old_level[w]
                <= old_level[old_order[i].0 as int] + 1,
        forall|i: int| 0 <= i < old_order.len() ==> #[trigger] order[i] == old_order[i],
        forall|i: int| 0 <= i < old_order.len() ==> level[#[trigger] order[i].0 as int] == old_level[old_order[i].0 as int]
            && old_level[old_order[i].0 as int] <= l + 1,
        forall|i: int| old_order.len() <= i < order.len() ==> level[#[trigger] order[i].0 as int] == l + 1,
        forall|v: int| 0 <= v < g.node_count && #[trigger] old_seen[v] ==> level[v] == old_level[v] && seen[v],
        forall|w: int| #[trigger] step(g, mask, dir, old_order[cursor].0 as int, w) ==> seen[w],
        forall|v: int|
            0 <= v < g.node_count ==> (#[trigger] seen[v] <==> exists|i: int| 0 <= i < order.len() && order[i].0 == v),
    ensures
        forall|i: int, w: int|
            0 <= i < cursor + 1 && #[trigger] step(g, mask, dir, order[i].0 as int, w) ==> seen[w] && level[w]
                <= level[order[i].0 as int] + 1,
{
    let old_len = old_order.len() as int;
    assert forall|i: int, w: int| 0 <= i < cursor + 1 && #[trigger] step(g, mask, dir, order[i].0 as int, w)
        implies seen[w] && level[w] <= level[order[i].0 as int] + 1 by {
        lemma_step_in_range(g, mask, dir, order[i].0 as int, w);
        assert(order[i] == old_order[i]);
        if i < cursor {
            assert(old_seen[w]);
        } else {
            let j = choose|j: int| 0 <= j < order.len() && order[j].0 == w;
            if j < old_len {
                assert(level[order[j].0 as int] <= l + 1);
            }
        }
    }
}

/// Settling `order[cursor]` keeps the search state.
proof fn lemma_tree_step(
    g: GraphModel,
    mask: Seq<bool>,
    dir: Direction,
    s: int,
    old_order: Seq<NodeIndex>,
    old_seen: Seq<bool>,
    old_pred: Seq<Option<NodeIndex>>,
    old_level: Seq<int>,
    order: Seq<NodeIndex>,
    seen: Seq<bool>,
    pred: Seq<Option<NodeIndex>>,
    level: Seq<int>,
    cursor: int,
    node: NodeIndex,
)
    requires
        g.valid(),
        tree_state(g, mask, dir, s, old_order, old_seen, old_pred, old_level, cursor),
        cursor < old_order.len(),
        node == old_order[cursor],
        super::traversal::marked_growth(g, mask, dir, node.0 as int, old_seen, seen, old_order, order),
        forall|w: int| #[trigger] step(g, mask, dir, node.0 as int, w) ==> seen[w],
        pred.len() == g.node_count,
        level.len() == g.node_count,
        forall|v: int|
            0 <= v < g.node_count && !(exists|i: int| old_order.len() <= i < order.len() && #[trigger] order[i].0 == v)
                ==> pred[v] == old_pred[v] && level[v] == old_level[v],
        forall|i: int|
            old_order.len() <= i < order.len() ==> pred[#[trigger] order[i].0 as int] == Some(node) && level[order[i].0 as int] == old_level[node.0 as int] + 1,
    ensures
        tree_state(g, mask, dir, s, order, seen, pred, level, cursor + 1),
{
    lemma_tree_facts(g, mask, dir, s, old_order, old_seen, old_pred, old_level, order, seen, pred, level, cursor, node);
    lemma_tree_discovery(g, mask, dir, s, old_order, old_seen, old_pred, old_level, order, seen, pred, level, cursor, node);
    lemma_tree_links_step(g, mask, dir, s, old_order, old_seen, old_pred, old_level, order, seen, pred, level, cursor, node);
    lemma_tree_old_levels(g, mask, dir, s, old_order, old_seen, old_pred, old_level, order, seen, pred, level, cursor, node);
    let l = old_level[node.0 as int];
    assert forall|i: int| old_order.len() <= i < order.len() implies level[#[trigger] order[i].0 as int] == l + 1 by {}
    assert forall|v: int| 0 <= v < g.node_count && #[trigger] old_seen[v] implies level[v] == old_level[v] && seen[v] by {}
    lemma_tree_monotone(old_order, old_level, order, level, cursor, l);
    lemma_tree_steps(g, mask, dir, old_order, old_seen, old_level, order, seen, level, cursor, l);
}

/// Breadth-first search tree from `source`: the discovered nodes, their
/// predecessors, and (as ghost state) their levels, which are shortest walk
/// lengths.
fn search_tree(graph: &Topology, source: NodeIndex, direction: Direction, mask: &Vec<bool>) -> (r: (
    Vec<bool>,
    Vec<Option<NodeIndex>>,
    Ghost<Seq<int>>,
))
    requires
        mask@.len() == graph@.edges.len(),
        source.0 < graph@.node_count,
    ensures
        tree_links(graph@, mask@, direction, source.0 as int, r.0@, r.1@, r.2@),
        forall|v: int| 0 <= v < graph@.node_count ==> (#[trigger] r.0@[v] <==> walkable(graph@, mask@, direction, source.0 as int, v)),
        forall|u: int, w: int|
            0 <= u < graph@.node_count && #[trigger] r.0@[u] && #[trigger] step(graph@, mask@, direction, u, w) ==> r.0@[w]
                && r.2@[w] <= r.2@[u] + 1,
{
    let ghost g = graph@;
    let ghost s = source.0 as int;
    let n = graph.node_count();
    let mut seen = crate::util::filled_vec(false, n);
    let mut pred: Vec<Option<NodeIndex>> = crate::util::filled_vec(None, n);
    let mut order: Vec<NodeIndex> = Vec::new();
    let ghost mut level: Seq<int> = Seq::new(n as nat, |v: int| 0int);
    seen.set(source.index(), true);
    order.push(source);
    proof {
        assert forall|v: int| 0 <= v < n implies (#[trigger] seen@[v] <==> exists|i: int|
            0 <= i < order@.len() && order@[i].0 == v) by {
            if v == s {
                assert(order@[0].0 == v);
            }
        }
    }
    let mut cursor: usize = 0;
    proof {
        assert(tree_links(g, mask@, direction, s, seen@, pred@, level));
    }
    while cursor < order.len()
        invariant
            g == graph@,
            g.valid(),
            n == g.node_count <= u32::MAX,
            mask@.len() == g.edges.len(),
            s == source.0,
            0 <= s < n,
            tree_state(g, mask@, direction, s, order@, seen@, pred@, level, cursor as int),
        decreases n - cursor,
    {
        proof {
            assert(node_ints(order@).no_duplicates()) by {
                assert forall|i: int, j: int|
                    0 <= i < node_ints(order@).len() && 0 <= j < node_ints(order@).len() && i != j
                    implies node_ints(order@)[i] != node_ints(order@)[j] by {
                    if i < j {
                        assert(order@[i] != order@[j]);
                    } else {
                        assert(order@[j] != order@[i]);
                    }
                }
            }
            lemma_distinct_bounded(node_ints(order@), n as int);
        }
        let node = order[cursor];
        let ghost u = node.0 as int;
        let ghost old_order = order@;
        let ghost old_seen = seen@;
        let ghost old_pred = pred@;
        let ghost old_level = level;
        let old_len = order.len();
        expand(graph, node, direction, mask, &mut seen, &mut order);
        proof {
            assert forall|i: int| 0 <= i < old_len implies #[trigger] order@[i] == old_order[i] by {
                assert(order@.subrange(0, old_len as int)[i] == old_order[i]);
            }
        }
        let mut k: usize = old_len;
        while k < order.len()
            invariant
                old_len <= k <= order@.len(),
                old_len == old_order.len(),
                n == g.node_count,
                u == node.0,
                0 <= u < n,
                pred@.len() == n,
                level.len() == n,
                old_pred.len() == n,
                old_level.len() == n,
                forall|i: int| old_len <= i < order@.len() ==> 0 <= #[trigger] order@[i].0 < n && !old_seen[order@[i].0 as int],
                forall|i: int, j: int| old_len <= i < j < order@.len() ==> order@[i] != order@[j],
                forall|v: int|
                    0 <= v < n && !(exists|i: int| old_len <= i < k && #[trigger] order@[i].0 == v)
                        ==> pred@[v] == old_pred[v] && level[v] == old_level[v],
                forall|i: int|
                    old_len <= i < k ==> pred@[#[trigger] order@[i].0 as int] == Some(node) && level[order@[i].0 as int] == old_level[u] + 1,
            decreases order@.len() - k,
        {
            let w = order[k];
            pred.set(w.index(), Some(node));
            proof {
                level = level.update(w.0 as int, old_level[u] + 1);
                assert forall|v: int|
                    0 <= v < n && !(exists|i: int| old_len <= i < k + 1 && #[trigger] order@[i].0 == v)
                    implies pred@[v] == old_pred[v] && level[v] == old_level[v] by {
                    assert(order@[k as int].0 != v);
                }
                assert forall|i: int| old_len <= i < k + 1 implies pred@[#[trigger] order@[i].0 as int]
                    == Some(node) && level[order@[i].0 as int] == old_level[u] + 1 by {
                    if i < k {
                        assert(order@[i] != order@[k as int]);
                    }
                }
            }
            k = k + 1;
        }
        proof {
            lemma_tree_step(g, mask@, direction, s, old_order, old_seen, old_pred, old_level, order@, seen@, pred@, level, cursor as int, node);
        }
        cursor = cursor + 1;
    }
    proof {
        assert forall|u: int, w: int|
            0 <= u < n && #[trigger] seen@[u] && #[trigger] step(g, mask@, direction, u, w) implies seen@[w]
            && level[w] <= level[u] + 1 by {
            let i = choose|i: int| 0 <= i < order@.len() && order@[i].0 == u;
            assert(step(g, mask@, direction, order@[i].0 as int, w));
        }
        let set = Set::new(|v: int| 0 <= v < n && seen@[v]);
        assert forall|u: int, w: int| set.contains(u) && #[trigger] step(g, mask@, direction, u, w)
            implies set.contains(w) by {
            lemma_step_in_range(g, mask@, direction, u, w);
        }
        assert forall|v: int| 0 <= v < n implies (#[trigger] seen@[v] <==> walkable(g, mask@, direction, s, v)) by {
            if walkable(g, mask@, direction, s, v) {
                lemma_closed_holds_reachable(g, mask@, direction, s, v, set);
            }
            if seen@[v] {
                lemma_tree_walk(g, mask@, direction, s, seen@, pred@, level, v);
            }
        }
    }
    (seen, pred, Ghost(level))
}

/// Every discovered node is reached by a tree walk of `level + 1` nodes.
proof fn lemma_tree_walk(
    g: GraphModel,
    mask: Seq<bool>,
    dir: Direction,
    s: int,
    seen: Seq<bool>,
    pred: Seq<Option<NodeIndex>>,
    level: Seq<int>,
    v: int,
)
    requires
        tree_links(g, mask, dir, s, seen, pred, level),
        0 <= v < g.node_count,
        seen[v],
    ensures
        walkable(g, mask, dir, s, v),
    decreases level[v],
{
    if v == s {
        assert(walk_between(g, mask, dir, seq![s], s, s));
    } else {
        let u = pred[v]->Some_0.0 as int;
        lemma_tree_walk(g, mask, dir, s, seen, pred, level, u);
        super::reach::lemma_reach_step(g, mask, dir, s, u, v);
    }
}

/// Along any walk from the root, levels grow by at most one per step.
proof fn lemma_level_bound(
    g: GraphModel,
    mask: Seq<bool>,
    dir: Direction,
    s: int,
    seen: Seq<bool>,
    level: Seq<int>,
    q: Seq<int>,
    k: int,
)
    requires
        super::reach::is_walk(g, mask, dir, q),
        q[0] == s,
        0 <= s < g.node_count,
        seen.len() == g.node_count,
        level.len() == g.node_count,
        seen[s],
        level[s] == 0,
        forall|u: int, w: int|
            0 <= u < g.node_count && #[trigger] seen[u] && #[trigger] step(g, mask, dir, u, w) ==> seen[w]
                && level[w] <= level[u] + 1,
        0 <= k < q.len(),
    ensures
        seen[q[k]],
        level[q[k]] <= k,
    decreases k,
{
    if k > 0 {
        lemma_level_bound(g, mask, dir, s, seen, level, q, k - 1);
        assert(step(g, mask, dir, q[k - 1], q[(k - 1) + 1]));
        assert(0 <= q[k - 1] < g.node_count);
    }
}

/// A shortest walk in `direction` from `source` to `target` along the edges
/// that `mask` accepts, following the breadth-first search tree.
fn shortest_masked(
    graph: &Topology,
    source: NodeIndex,
    target: NodeIndex,
    direction: Direction,
    mask: &Vec<bool>,
) -> (r: Option<Vec<NodeIndex>>)
    requires
        mask@.len() == graph@.edges.len(),
    ensures
        shortest_answer(
            graph@,
            mask@,
            direction,
            source.0 as int,
            target.0 as int,
            match r {
                Some(p) => Some(node_ints(p@)),
                None => None,
            },
        ),
{
    let ghost g = graph@;
    let ghost s = source.0 as int;
    let ghost t = target.0 as int;
    if !graph.contains_node(source) || !graph.contains_node(target) {
        return None;
    }
    let n = graph.node_count();
    let (seen, pred, Ghost(level)) = search_tree(graph, source, direction, mask);
    if !seen[target.index()] {
        return None;
    }
    let mut reversed: Vec<NodeIndex> = Vec::new();
    reversed.push(target);
    let mut cursor = target;
    proof {
        lemma_node_ints_push(Seq::empty(), target);
    }
    while cursor.0 != source.0
        invariant
            g == graph@,
            n == g.node_count,
            tree_links(g, mask@, direction, s, seen@, pred@, level),
            s == source.0,
            0 <= cursor.0 < n,
            seen@[cursor.0 as int],
            reversed@.len() >= 1,
            reversed@[0] == target,
            reversed@.last() == cursor,
            reversed@.len() == level[t] - level[cursor.0 as int] + 1,
            forall|i: int| 0 <= i < reversed@.len() ==> 0 <= #[trigger] reversed@[i].0 < n,
            forall|i: int|
                0 <= i < reversed@.len() - 1 ==> step(g, mask@, direction, #[trigger] reversed@[i + 1].0 as int, reversed@[i].0 as int),
        decreases level[cursor.0 as int],
    {
        let previous = match pred[cursor.index()] {
            Some(previous) => previous,
            None => {
                proof {
                    assert(false);
                }
                return None;
            },
        };
        reversed.push(previous);
        cursor = previous;
    }
    let mut path: Vec<NodeIndex> = Vec::new();
    let mut k: usize = reversed.len();
    while k > 0
        invariant
            k <= reversed@.len(),
            path@.len() == reversed@.len() - k,
            forall|i: int| 0 <= i < path@.len() ==> #[trigger] path@[i] == reversed@[reversed@.len() - 1 - i],
        decreases k,
    {
        path.push(reversed[k - 1]);
        k = k - 1;
    }
    proof {
        let p = node_ints(path@);
        let len = reversed@.len() as int;
        assert(p.len() == len);
        assert forall|i: int| 0 <= i < p.len() implies 0 <= #[trigger] p[i] < g.node_count by {
            assert(path@[i] == reversed@[len - 1 - i]);
        }
        assert forall|i: int| 0 <= i < p.len() - 1 implies #[trigger] step(g, mask@, direction, p[i], p[i + 1]) by {
            assert(path@[i] == reversed@[len - 1 - i]);
            assert(path@[i + 1] == reversed@[len - 1 - (i + 1)]);
            assert(step(g, mask@, direction, reversed@[(len - 2 - i) + 1].0 as int, reversed@[len - 2 - i].0 as int));
        }
        assert(p[0] == s) by {
            assert(path@[0] == reversed@[len - 1]);
        }
        assert(p.last() == t) by {
            assert(path@[len - 1] == reversed@[0]);
        }
        assert(walk_between(g, mask@, direction, p, s, t));
        assert forall|q: Seq<int>| #[trigger] walk_between(g, mask@, direction, q, s, t) implies p.len() <= q.len() by {
            lemma_level_bound(g, mask@, direction, s, seen@, level, q, q.len() - 1);
        }
    }
    Some(path)
}

/// A shortest path, by node count, along outgoing edges; `None` when either
/// node is missing or `target` is unreachable.
pub fn shortest_path(graph: &Topology, source: NodeIndex, target: NodeIndex) -> (r: Option<Vec<NodeIndex>>)
    ensures
        shortest_answer(
            graph@,
            all_edges(graph@),
            Direction::Outgoing,
            source.0 as int,
            target.0 as int,
            match r {
                Some(p) => Some(node_ints(p@)),
                None => None,
            },
        ),
{
    let mask = full_mask(graph);
    shortest_masked(graph, source, target, Direction::Outgoing, &mask)
}

/// A shortest path in `direction` along the edges that `keep_edge` accepts;
/// `keep_edge` is asked once per edge.
pub fn shortest_path_filtered<F: Fn(EdgeIndex) -> bool>(
    graph: &Topology,
    source: NodeIndex,
    target: NodeIndex,
    direction: Direction,
    keep_edge: F,
) -> (r: Option<Vec<NodeIndex>>)
    requires
        forall|e: EdgeIndex| call_requires(keep_edge, (e,)),
    ensures
        exists|mask: Seq<bool>|
            answers(keep_edge, graph@, mask) && shortest_answer(
                graph@,
                mask,
                direction,
                source.0 as int,
                target.0 as int,
                match r {
                    Some(p) => Some(node_ints(p@)),
                    None => None,
                },
            ),
{
    let mask = edge_mask(graph, &keep_edge);
    shortest_masked(graph, source, target, direction, &mask)
}

} // verus!
