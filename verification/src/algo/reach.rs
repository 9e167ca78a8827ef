use crate::topology::GraphModel;
use vstd::prelude::*;

verus! {

/// Which edges a traversal follows from a node.
#[derive(Debug, Clone, Copy, PartialEq, Eq, Structural)]
pub enum Direction {
    /// Along edges, from source to target.
    Outgoing,
    /// Against edges, from target to source.
    Incoming,
    /// Both ways, treating every edge as undirected.
    Both,
}

impl Default for Direction {
    fn default() -> (r: Self)
        ensures
            r == Direction::Outgoing,
    {
        Direction::Outgoing
    }
}

/// Edge `e` is accepted by `mask` and leads from `u` to `w` in direction `dir`.
pub open spec fn follows(g: GraphModel, mask: Seq<bool>, dir: Direction, e: int, u: int, w: int) -> bool {
    &&& 0 <= e < g.edges.len()
    &&& e < mask.len()
    &&& mask[e]
    &&& {
        ||| dir != Direction::Incoming && g.edges[e].0 == u && g.edges[e].1 == w
        ||| dir != Direction::Outgoing && g.edges[e].1 == u && g.edges[e].0 == w
    }
}

/// Some accepted edge leads from `u` to `w`.
pub open spec fn step(g: GraphModel, mask: Seq<bool>, dir: Direction, u: int, w: int) -> bool {
    exists|e: int| follows(g, mask, dir, e, u, w)
}

/// `p` is a walk of consecutive accepted steps through existing nodes.
pub open spec fn is_walk(g: GraphModel, mask: Seq<bool>, dir: Direction, p: Seq<int>) -> bool {
    &&& p.len() >= 1
    &&& forall|i: int| 0 <= i < p.len() ==> 0 <= #[trigger] p[i] < g.node_count
    &&& forall|i: int| 0 <= i < p.len() - 1 ==> #[trigger] step(g, mask, dir, p[i], p[i + 1])
}

/// `p` is a walk from `s` to `t`.
pub open spec fn walk_between(
    g: GraphModel,
    mask: Seq<bool>,
    dir: Direction,
    p: Seq<int>,
    s: int,
    t: int,
) -> bool {
    is_walk(g, mask, dir, p) && p[0] == s && p.last() == t
}

/// `t` can be reached from `s` along accepted edges.
pub open spec fn walkable(g: GraphModel, mask: Seq<bool>, dir: Direction, s: int, t: int) -> bool {
    exists|p: Seq<int>| #[trigger] walk_between(g, mask, dir, p, s, t)
}

/// The mask that accepts every edge.
pub open spec fn all_edges(g: GraphModel) -> Seq<bool> {
    Seq::new(g.edges.len(), |e: int| true)
}

/// The integer positions of a node list.
pub open spec fn node_ints(s: Seq<crate::topology::NodeIndex>) -> Seq<int> {
    s.map_values(|n: crate::topology::NodeIndex| n.0 as int)
}

/// Appending a node appends its position.
pub proof fn lemma_node_ints_push(s: Seq<crate::topology::NodeIndex>, x: crate::topology::NodeIndex)
    ensures
        node_ints(s.push(x)) == node_ints(s).push(x.0 as int),
        node_ints(s).len() == s.len(),
{
    assert(node_ints(s.push(x)) =~= node_ints(s).push(x.0 as int));
}

/// Dropping the last node drops its position.
pub proof fn lemma_node_ints_drop_last(s: Seq<crate::topology::NodeIndex>)
    requires
        s.len() >= 1,
    ensures
        node_ints(s.drop_last()) == node_ints(s).drop_last(),
        node_ints(s).last() == s.last().0 as int,
{
    assert(node_ints(s.drop_last()) =~= node_ints(s).drop_last());
}

/// `mask` records what `keep` answered for every edge of `g`.
pub open spec fn answers<F: Fn(crate::topology::EdgeIndex) -> bool>(
    keep: F,
    g: GraphModel,
    mask: Seq<bool>,
) -> bool {
    &&& mask.len() == g.edges.len()
    &&& forall|e: int|
        0 <= e < mask.len() ==> call_ensures(
            keep,
            (crate::topology::EdgeIndex(e as u32),),
            #[trigger] mask[e],
        )
}

/// `order` lists, without repetition, exactly the nodes reachable from
/// `start`, beginning with `start`; it is empty when `start` is not a node.
pub open spec fn search_result(
    g: GraphModel,
    mask: Seq<bool>,
    dir: Direction,
    start: int,
    order: Seq<int>,
) -> bool {
    if 0 <= start < g.node_count {
        &&& order.len() >= 1
        &&& order[0] == start
        &&& order.no_duplicates()
        &&& forall|v: int| #[trigger] order.contains(v) <==> walkable(g, mask, dir, start, v)
    } else {
        order.len() == 0
    }
}

/// A repetition-free list of nodes below `n` has at most `n` entries.
pub proof fn lemma_distinct_bounded(s: Seq<int>, n: int)
    requires
        s.no_duplicates(),
        n >= 0,
        forall|i: int| 0 <= i < s.len() ==> 0 <= #[trigger] s[i] < n,
    ensures
        s.len() <= n,
{
    s.unique_seq_to_set();
    vstd::set_lib::lemma_int_range(0, n);
    assert(s.to_set().subset_of(vstd::set_lib::set_int_range(0, n)));
    vstd::set_lib::lemma_len_subset(s.to_set(), vstd::set_lib::set_int_range(0, n));
}

/// A step always lands on a node when every endpoint names a node.
pub proof fn lemma_step_in_range(g: GraphModel, mask: Seq<bool>, dir: Direction, u: int, w: int)
    requires
        g.valid(),
        step(g, mask, dir, u, w),
    ensures
        0 <= w < g.node_count,
        0 <= u < g.node_count,
{
    let e = choose|e: int| follows(g, mask, dir, e, u, w);
    assert(0 <= g.edges[e].0 < g.node_count);
}

/// A walk extended by one accepted step is a walk.
pub proof fn lemma_reach_step(
    g: GraphModel,
    mask: Seq<bool>,
    dir: Direction,
    s: int,
    u: int,
    w: int,
)
    requires
        walkable(g, mask, dir, s, u),
        step(g, mask, dir, u, w),
        0 <= w < g.node_count,
    ensures
        walkable(g, mask, dir, s, w),
{
    let p = choose|p: Seq<int>| #[trigger] walk_between(g, mask, dir, p, s, u);
    let q = p.push(w);
    assert forall|i: int| 0 <= i < q.len() - 1 implies #[trigger] step(g, mask, dir, q[i], q[i + 1]) by {
        if i < p.len() - 1 {
            assert(step(g, mask, dir, p[i], p[i + 1]));
        }
    }
    assert(walk_between(g, mask, dir, q, s, w));
}

/// Every node reaches itself by the one-node walk.
pub proof fn lemma_reach_self(g: GraphModel, mask: Seq<bool>, dir: Direction, s: int)
    requires
        0 <= s < g.node_count,
    ensures
        walkable(g, mask, dir, s, s),
{
    let p = seq![s];
    assert(walk_between(g, mask, dir, p, s, s));
}

/// A set of nodes that holds `s` and is closed under accepted steps holds
/// every node reachable from `s`.
pub proof fn lemma_closed_holds_reachable(
    g: GraphModel,
    mask: Seq<bool>,
    dir: Direction,
    s: int,
    t: int,
    set: Set<int>,
)
    requires
        set.contains(s),
        forall|u: int, w: int| set.contains(u) && #[trigger] step(g, mask, dir, u, w) ==> set.contains(w),
        walkable(g, mask, dir, s, t),
    ensures
        set.contains(t),
{
    let p = choose|p: Seq<int>| #[trigger] walk_between(g, mask, dir, p, s, t);
    lemma_walk_in_set(g, mask, dir, p, set, (p.len() - 1) as nat);
}

proof fn lemma_walk_in_set(g: GraphModel, mask: Seq<bool>, dir: Direction, p: Seq<int>, set: Set<int>, k: nat)
    requires
        is_walk(g, mask, dir, p),
        set.contains(p[0]),
        forall|u: int, w: int| set.contains(u) && #[trigger] step(g, mask, dir, u, w) ==> set.contains(w),
        k < p.len(),
    ensures
        set.contains(p[k as int]),
    decreases k,
{
    if k > 0 {
        lemma_walk_in_set(g, mask, dir, p, set, (k - 1) as nat);
        assert(step(g, mask, dir, p[k - 1], p[(k - 1) + 1]));
    }
}

} // verus!
