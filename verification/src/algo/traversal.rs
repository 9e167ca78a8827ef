use super::reach::{
    all_edges, answers, follows, lemma_closed_holds_reachable, lemma_distinct_bounded,
    lemma_node_ints_drop_last, lemma_node_ints_push, lemma_reach_self, lemma_reach_step,
    lemma_step_in_range, node_ints, walkable, search_result,
    step, walk_between, Direction,
};
use super::walk::{bfs_order, breadth_first, depth_first, dfs_order};
use crate::topology::model::lemma_adj_members;
use crate::topology::{edge_ints, EdgeIndex, GraphModel, NodeIndex, Topology};
use vstd::prelude::*;

verus! {

/// `out` grew from `old_out` by exactly the nodes newly marked in `seen`,
/// each once, and each one step from `node`.
pub open spec fn marked_growth(
    g: GraphModel,
    mask: Seq<bool>,
    dir: Direction,
    node: int,
    old_seen: Seq<bool>,
    seen: Seq<bool>,
    old_out: Seq<NodeIndex>,
    out: Seq<NodeIndex>,
) -> bool {
    &&& seen.len() == old_seen.len() == g.node_count
    &&& out.len() >= old_out.len()
    &&& out.subrange(0, old_out.len() as int) == old_out
    &&& forall|i: int|
        old_out.len() <= i < out.len() ==> 0 <= #[trigger] out[i].0 < g.node_count && !old_seen[out[i].0 as int]
            && step(g, mask, dir, node, out[i].0 as int)
    &&& forall|i: int, j: int| old_out.len() <= i < j < out.len() ==> out[i] != out[j]
    &&& forall|v: int|
        0 <= v < g.node_count ==> (#[trigger] seen[v] <==> (old_seen[v] || exists|i: int|
            old_out.len() <= i < out.len() && out[i].0 == v))
}

/// Builds the acceptance mask by asking `keep_edge` once per edge, in edge order.
pub fn edge_mask<F: Fn(EdgeIndex) -> bool>(graph: &Topology, keep_edge: &F) -> (r: Vec<bool>)
    requires
        forall|e: EdgeIndex| call_requires(*keep_edge, (e,)),
    ensures
        answers(*keep_edge, graph@, r@),
{
    let m = graph.edge_count();
    let mut mask: Vec<bool> = Vec::new();
    let mut e: usize = 0;
    while e < m
        invariant
            e <= m == graph@.edges.len() <= u32::MAX,
            mask@.len() == e,
            forall|e: EdgeIndex| call_requires(*keep_edge, (e,)),
            forall|f: int|
                0 <= f < e ==> call_ensures(*keep_edge, (EdgeIndex(f as u32),), #[trigger] mask@[f]),
        decreases m - e,
    {
        let keep = keep_edge(EdgeIndex::new(e as u32));
        mask.push(keep);
        e = e + 1;
    }
    mask
}

/// The mask that accepts every edge of `graph`.
pub fn full_mask(graph: &Topology) -> (r: Vec<bool>)
    ensures
        r@ == all_edges(graph@),
{
    let m = graph.edge_count();
    let r = crate::util::filled_vec(true, m);
    proof {
        assert(r@ =~= all_edges(graph@));
    }
    r
}

/// Marks and appends the unmarked far endpoints of the accepted edges in
/// `edges`, all of which lie on the `use_target` side of `node`.
fn scan(
    graph: &Topology,
    edges: &[EdgeIndex],
    use_target: bool,
    mask: &Vec<bool>,
    seen: &mut Vec<bool>,
    out: &mut Vec<NodeIndex>,
    Ghost(node): Ghost<int>,
    Ghost(dir): Ghost<Direction>,
)
    requires
        old(seen)@.len() == graph@.node_count,
        mask@.len() == graph@.edges.len(),
        graph@.valid(),
        forall|k: int|
            0 <= k < edges@.len() ==> 0 <= #[trigger] edges@[k].0 < graph@.edges.len() && (if use_target {
                graph@.edges[edges@[k].0 as int].0 == node && dir != Direction::Incoming
            } else {
                graph@.edges[edges@[k].0 as int].1 == node && dir != Direction::Outgoing
            }),
    ensures
        marked_growth(graph@, mask@, dir, node, old(seen)@, final(seen)@, old(out)@, final(out)@),
        forall|k: int|
            0 <= k < edges@.len() && mask@[edges@[k].0 as int] ==> final(seen)@[(if use_target {
                graph@.edges[#[trigger] edges@[k].0 as int].1
            } else {
                graph@.edges[edges@[k].0 as int].0
            })],
{
    let ghost g = graph@;
    let ghost old_seen = seen@;
    let ghost old_out = out@;
    proof {
        lemma_growth_refl(g, mask@, dir, node, seen@, out@);
    }
    let mut k: usize = 0;
    while k < edges.len()
        invariant
            k <= edges@.len(),
            g == graph@,
            g.valid(),
            mask@.len() == g.edges.len(),
            forall|k: int|
                0 <= k < edges@.len() ==> 0 <= #[trigger] edges@[k].0 < g.edges.len() && (if use_target {
                    g.edges[edges@[k].0 as int].0 == node && dir != Direction::Incoming
                } else {
                    g.edges[edges@[k].0 as int].1 == node && dir != Direction::Outgoing
                }),
            marked_growth(g, mask@, dir, node, old_seen, seen@, old_out, out@),
            forall|j: int|
                0 <= j < k && mask@[edges@[j].0 as int] ==> seen@[(if use_target {
                    g.edges[#[trigger] edges@[j].0 as int].1
                } else {
                    g.edges[edges@[j].0 as int].0
                })],
        decreases edges@.len() - k,
    {
        let edge = edges[k];
        if mask[edge.index()] {
            let ends = graph.edge_endpoints(edge);
            let ends = match ends {
                Some(ends) => ends,
                None => {
                    k = k + 1;
                    continue;
                },
            };
            let far = if use_target {
                ends.target
            } else {
                ends.source
            };
            proof {
                assert(0 <= g.edges[edge.0 as int].0 < g.node_count);
                assert(follows(g, mask@, dir, edge.0 as int, node, far.0 as int));
            }
            if !seen[far.index()] {
                let ghost pre_seen = seen@;
                let ghost pre_out = out@;
                seen.set(far.index(), true);
                out.push(far);
                proof {
                    assert(out@.subrange(0, old_out.len() as int) =~= pre_out.subrange(
                        0,
                        old_out.len() as int,
                    ));
                    assert forall|v: int| 0 <= v < g.node_count implies (#[trigger] seen@[v] <==> (
                    old_seen[v] || exists|i: int| old_out.len() <= i < out@.len() && out@[i].0 == v)) by {
                        if v == far.0 as int {
                            assert(out@[out@.len() - 1].0 == v);
                        } else {
                            if exists|i: int| old_out.len() <= i < out@.len() && out@[i].0 == v {
                                let i = choose|i: int|
                                    old_out.len() <= i < out@.len() && out@[i].0 == v;
                                assert(i < pre_out.len());
                                assert(pre_out[i].0 == v);
                            }
                            if exists|i: int| old_out.len() <= i < pre_out.len() && pre_out[i].0 == v {
                                let i = choose|i: int|
                                    old_out.len() <= i < pre_out.len() && pre_out[i].0 == v;
                                assert(out@[i].0 == v);
                            }
                        }
                    }
                    assert forall|i: int, j: int|
                        old_out.len() <= i < j < out@.len() implies out@[i] != out@[j] by {
                        if j == out@.len() - 1 {
                            assert(pre_seen[out@[i].0 as int]);
                        }
                    }
                }
            }
        }
        k = k + 1;
    }
}

/// Marks and appends the unmarked nodes one accepted step from `node`;
/// afterwards every such neighbor is marked.
pub(crate) fn expand(
    graph: &Topology,
    node: NodeIndex,
    direction: Direction,
    mask: &Vec<bool>,
    seen: &mut Vec<bool>,
    out: &mut Vec<NodeIndex>,
)
    requires
        node.0 < graph@.node_count,
        old(seen)@.len() == graph@.node_count,
        mask@.len() == graph@.edges.len(),
    ensures
        marked_growth(
            graph@,
            mask@,
            direction,
            node.0 as int,
            old(seen)@,
            final(seen)@,
            old(out)@,
            final(out)@,
        ),
        forall|w: int| #[trigger] step(graph@, mask@, direction, node.0 as int, w) ==> final(seen)@[w],
{
    let ghost g = graph@;
    let ghost v = node.0 as int;
    let n = graph.node_count();
    let ghost old_seen = seen@;
    let ghost old_out = out@;
    if direction != Direction::Incoming {
        let row = graph.outgoing_edges(node);
        proof {
            lemma_adj_members(g.edges, g.edges.len(), 0, v);
            assert forall|k: int| 0 <= k < row@.len() implies 0 <= #[trigger] row@[k].0 < g.edges.len()
                && g.edges[row@[k].0 as int].0 == v by {
                assert(edge_ints(row@)[k] == row@[k].0 as int);
            }
        }
        scan(graph, row, true, mask, seen, out, Ghost(v), Ghost(direction));
        proof {
            assert forall|e: int|
                0 <= e < g.edges.len() && mask@[e] && g.edges[e].0 == v implies seen@[g.edges[e].1] by {
                assert(g.out_edges(v).contains(e));
                let k = choose|k: int| 0 <= k < g.out_edges(v).len() && g.out_edges(v)[k] == e;
                assert(edge_ints(row@)[k] == row@[k].0 as int);
                assert(row@[k].0 == e);
            }
        }
    }
    let ghost mid_seen = seen@;
    let ghost mid_out = out@;
    proof {
        if direction == Direction::Incoming {
            lemma_growth_refl(g, mask@, direction, v, seen@, out@);
        }
    }
    if direction != Direction::Outgoing {
        let row = graph.incoming_edges(node);
        proof {
            lemma_adj_members(g.edges, g.edges.len(), 1, v);
            assert forall|k: int| 0 <= k < row@.len() implies 0 <= #[trigger] row@[k].0 < g.edges.len()
                && g.edges[row@[k].0 as int].1 == v by {
                assert(edge_ints(row@)[k] == row@[k].0 as int);
            }
        }
        scan(graph, row, false, mask, seen, out, Ghost(v), Ghost(direction));
        proof {
            assert forall|e: int|
                0 <= e < g.edges.len() && mask@[e] && g.edges[e].1 == v implies seen@[g.edges[e].0] by {
                assert(g.in_edges(v).contains(e));
                let k = choose|k: int| 0 <= k < g.in_edges(v).len() && g.in_edges(v)[k] == e;
                assert(edge_ints(row@)[k] == row@[k].0 as int);
                assert(row@[k].0 == e);
            }
            lemma_growth_compose(g, mask@, direction, v, old_seen, mid_seen, seen@, old_out, mid_out, out@);
        }
    }
    proof {
        assert forall|w: int| #[trigger] step(g, mask@, direction, v, w) implies seen@[w] by {
            let e = choose|e: int| follows(g, mask@, direction, e, v, w);
            if direction != Direction::Incoming && g.edges[e].0 == v && g.edges[e].1 == w {
            } else {
            }
        }
    }
}

/// Breadth-first order of the nodes reachable from `start` along outgoing
/// edges, each found from the earliest node before it with an edge to it;
/// empty when `start` is not a node.
pub fn bfs(graph: &Topology, start: NodeIndex) -> (r: Vec<NodeIndex>)
    ensures
        search_result(graph@, all_edges(graph@), Direction::Outgoing, start.0 as int, node_ints(r@)),
        bfs_order(graph@, all_edges(graph@), Direction::Outgoing, node_ints(r@)),
{
    let mask = full_mask(graph);
    breadth_first(graph, start, Direction::Outgoing, &mask)
}

/// Breadth-first traversal in `direction` along the edges that `keep_edge`
/// accepts; `keep_edge` is asked once per edge.
pub fn bfs_filtered<F: Fn(EdgeIndex) -> bool>(
    graph: &Topology,
    start: NodeIndex,
    direction: Direction,
    keep_edge: F,
) -> (r: Vec<NodeIndex>)
    requires
        forall|e: EdgeIndex| call_requires(keep_edge, (e,)),
    ensures
        exists|mask: Seq<bool>|
            answers(keep_edge, graph@, mask) && search_result(
                graph@,
                mask,
                direction,
                start.0 as int,
                node_ints(r@),
            ) && bfs_order(graph@, mask, direction, node_ints(r@)),
{
    let mask = edge_mask(graph, &keep_edge);
    breadth_first(graph, start, direction, &mask)
}

/// Depth-first preorder of the nodes reachable from `start` along outgoing
/// edges; empty when `start` is not a node.
pub fn dfs(graph: &Topology, start: NodeIndex) -> (r: Vec<NodeIndex>)
    ensures
        search_result(graph@, all_edges(graph@), Direction::Outgoing, start.0 as int, node_ints(r@)),
        dfs_order(graph@, all_edges(graph@), Direction::Outgoing, node_ints(r@)),
{
    let mask = full_mask(graph);
    depth_first(graph, start, Direction::Outgoing, &mask)
}

/// Depth-first traversal in `direction` along the edges that `keep_edge`
/// accepts; `keep_edge` is asked once per edge.
pub fn dfs_filtered<F: Fn(EdgeIndex) -> bool>(
    graph: &Topology,
    start: NodeIndex,
    direction: Direction,
    keep_edge: F,
) -> (r: Vec<NodeIndex>)
    requires
        forall|e: EdgeIndex| call_requires(keep_edge, (e,)),
    ensures
        exists|mask: Seq<bool>|
            answers(keep_edge, graph@, mask) && search_result(
                graph@,
                mask,
                direction,
                start.0 as int,
                node_ints(r@),
            ) && dfs_order(graph@, mask, direction, node_ints(r@)),
{
    let mask = edge_mask(graph, &keep_edge);
    depth_first(graph, start, direction, &mask)
}

/// `t` is a node reachable from `s` and `t` is not.
pub open spec fn reaches(g: GraphModel, mask: Seq<bool>, dir: Direction, s: int, t: int) -> bool {
    0 <= s < g.node_count && 0 <= t < g.node_count && walkable(g, mask, dir, s, t)
}

/// Whether `target` is reachable from `source` along the edges `mask` accepts.
fn reaches_masked(
    graph: &Topology,
    source: NodeIndex,
    target: NodeIndex,
    direction: Direction,
    mask: &Vec<bool>,
) -> (r: bool)
    requires
        mask@.len() == graph@.edges.len(),
    ensures
        r == reaches(graph@, mask@, direction, source.0 as int, target.0 as int),
{
    if !graph.contains_node(target) {
        return false;
    }
    let order = breadth_first(graph, source, direction, mask);
    let mut i: usize = 0;
    while i < order.len()
        invariant
            i <= order@.len(),
            search_result(graph@, mask@, direction, source.0 as int, node_ints(order@)),
            target.0 < graph@.node_count,
            forall|j: int| 0 <= j < i ==> #[trigger] node_ints(order@)[j] != target.0 as int,
        decreases order@.len() - i,
    {
        if order[i].0 == target.0 {
            proof {
                assert(node_ints(order@)[i as int] == target.0 as int);
                assert(node_ints(order@).contains(target.0 as int));
                assert(node_ints(order@).len() == order@.len());
                assert(search_result(graph@, mask@, direction, source.0 as int, node_ints(order@)));
                assert(0 <= source.0 < graph@.node_count);
                assert(walkable(graph@, mask@, direction, source.0 as int, target.0 as int));
            }
            return true;
        }
        proof {
            assert(node_ints(order@)[i as int] == order@[i as int].0 as int);
        }
        i = i + 1;
    }
    proof {
        assert(!node_ints(order@).contains(target.0 as int));
    }
    false
}

/// Whether `target` can be reached from `source` along outgoing edges.
pub fn reachable(graph: &Topology, source: NodeIndex, target: NodeIndex) -> (r: bool)
    ensures
        r == reaches(graph@, all_edges(graph@), Direction::Outgoing, source.0 as int, target.0 as int),
{
    let mask = full_mask(graph);
    reaches_masked(graph, source, target, Direction::Outgoing, &mask)
}

/// Whether `target` can be reached from `source` in `direction` along the
/// edges that `keep_edge` accepts; `keep_edge` is asked once per edge.
pub fn reachable_filtered<F: Fn(EdgeIndex) -> bool>(
    graph: &Topology,
    source: NodeIndex,
    target: NodeIndex,
    direction: Direction,
    keep_edge: F,
) -> (r: bool)
    requires
        forall|e: EdgeIndex| call_requires(keep_edge, (e,)),
    ensures
        exists|mask: Seq<bool>|
            answers(keep_edge, graph@, mask) && r == reaches(
                graph@,
                mask,
                direction,
                source.0 as int,
                target.0 as int,
            ),
{
    let mask = edge_mask(graph, &keep_edge);
    reaches_masked(graph, source, target, direction, &mask)
}

proof fn lemma_growth_refl(
    g: GraphModel,
    mask: Seq<bool>,
    dir: Direction,
    node: int,
    seen: Seq<bool>,
    out: Seq<NodeIndex>,
)
    requires
        seen.len() == g.node_count,
    ensures
        marked_growth(g, mask, dir, node, seen, seen, out, out),
{
    assert(out.subrange(0, out.len() as int) =~= out);
}

proof fn lemma_growth_compose(
    g: GraphModel,
    mask: Seq<bool>,
    dir: Direction,
    node: int,
    s0: Seq<bool>,
    s1: Seq<bool>,
    s2: Seq<bool>,
    o0: Seq<NodeIndex>,
    o1: Seq<NodeIndex>,
    o2: Seq<NodeIndex>,
)
    requires
        marked_growth(g, mask, dir, node, s0, s1, o0, o1),
        marked_growth(g, mask, dir, node, s1, s2, o1, o2),
    ensures
        marked_growth(g, mask, dir, node, s0, s2, o0, o2),
{
    assert(o2.subrange(0, o0.len() as int) =~= o1.subrange(0, o0.len() as int)) by {
        assert forall|i: int| 0 <= i < o0.len() implies o2[i] == o1[i] by {
            assert(o2.subrange(0, o1.len() as int)[i] == o1[i]);
        }
    }
    assert forall|i: int| o0.len() <= i < o2.len() implies 0 <= #[trigger] o2[i].0 < g.node_count
        && !s0[o2[i].0 as int] && step(g, mask, dir, node, o2[i].0 as int) by {
        if i < o1.len() {
            assert(o2.subrange(0, o1.len() as int)[i] == o1[i]);
        } else {
            assert(!s1[o2[i].0 as int]);
        }
    }
    assert forall|i: int, j: int| o0.len() <= i < j < o2.len() implies o2[i] != o2[j] by {
        if j < o1.len() {
            assert(o2.subrange(0, o1.len() as int)[i] == o1[i]);
            assert(o2.subrange(0, o1.len() as int)[j] == o1[j]);
        } else if i < o1.len() {
            assert(o2.subrange(0, o1.len() as int)[i] == o1[i]);
            assert(s1[o1[i].0 as int]) by {
                assert(exists|k: int| o0.len() <= k < o1.len() && o1[k].0 == o1[i].0);
            }
        }
    }
    assert forall|v: int| 0 <= v < g.node_count implies (#[trigger] s2[v] <==> (s0[v] || exists|i: int|
        o0.len() <= i < o2.len() && o2[i].0 == v)) by {
        if exists|i: int| o0.len() <= i < o1.len() && o1[i].0 == v {
            let i = choose|i: int| o0.len() <= i < o1.len() && o1[i].0 == v;
            assert(o2.subrange(0, o1.len() as int)[i] == o1[i]);
        }
        if exists|i: int| o1.len() <= i < o2.len() && o2[i].0 == v {
        }
        if exists|i: int| o0.len() <= i < o2.len() && o2[i].0 == v {
            let i = choose|i: int| o0.len() <= i < o2.len() && o2[i].0 == v;
            if i < o1.len() {
                assert(o2.subrange(0, o1.len() as int)[i] == o1[i]);
            }
        }
    }
}

} // verus!
