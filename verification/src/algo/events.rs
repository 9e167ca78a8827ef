use super::reach::{
    answers, follows, lemma_closed_holds_reachable, lemma_reach_self, lemma_reach_step, lemma_step_in_range,
    step, walkable, Direction,
};
use super::traversal::{edge_mask, full_mask};
use crate::topology::model::lemma_adj_members;
use crate::topology::{edge_ints, EdgeIndex, GraphModel, NodeIndex, Topology};
use vstd::prelude::*;

verus! {

/// What a depth-first visitor answers after each event.
#[derive(Debug, Clone, Copy, PartialEq, Eq, Structural)]
pub enum TraversalControl {
    Continue,
    Break,
}

/// One step of a depth-first search.
#[derive(Debug, Clone, Copy, PartialEq, Eq, Structural)]
pub enum DfsEvent {
    /// A node is reached for the first time.
    Discover(NodeIndex),
    /// An edge leads to an undiscovered node, which is discovered next.
    TreeEdge { edge: EdgeIndex, source: NodeIndex, target: NodeIndex },
    /// An edge leads to a node whose exploration is still open.
    BackEdge { edge: EdgeIndex, source: NodeIndex, target: NodeIndex },
    /// An edge leads to a node whose exploration is finished.
    CrossForwardEdge { edge: EdgeIndex, source: NodeIndex, target: NodeIndex },
    /// Every edge out of a node has been explored.
    Finish(NodeIndex),
}

/// The nodes discovered by a sequence of events, in order.
pub open spec fn discoveries(ev: Seq<DfsEvent>) -> Seq<int>
    decreases ev.len(),
{
    if ev.len() == 0 {
        Seq::empty()
    } else {
        let rest = discoveries(ev.drop_last());
        match ev.last() {
            DfsEvent::Discover(v) => rest.push(v.0 as int),
            _ => rest,
        }
    }
}

/// The nodes finished by a sequence of events, in order.
pub open spec fn finishes(ev: Seq<DfsEvent>) -> Seq<int>
    decreases ev.len(),
{
    if ev.len() == 0 {
        Seq::empty()
    } else {
        let rest = finishes(ev.drop_last());
        match ev.last() {
            DfsEvent::Finish(v) => rest.push(v.0 as int),
            _ => rest,
        }
    }
}

/// The nodes open after a sequence of events, innermost last: a discovery
/// opens a node, a finish closes the innermost one.
pub open spec fn open_stack(ev: Seq<DfsEvent>) -> Seq<int>
    decreases ev.len(),
{
    if ev.len() == 0 {
        Seq::empty()
    } else {
        let rest = open_stack(ev.drop_last());
        match ev.last() {
            DfsEvent::Discover(v) => rest.push(v.0 as int),
            DfsEvent::Finish(_) => rest.drop_last(),
            _ => rest,
        }
    }
}

/// Event `e` keeps depth-first order after `before`: a tree edge is
/// followed at once by the discovery of its target; a discovery while nodes
/// are open comes right after such a tree edge; an edge event leaves the
/// innermost open node; a finish closes it.
pub open spec fn disciplined(before: Seq<DfsEvent>, e: DfsEvent) -> bool {
    let st = open_stack(before);
    let after_tree = before.len() > 0 && before.last() is TreeEdge;
    &&& after_tree ==> e == DfsEvent::Discover(before.last()->TreeEdge_target)
    &&& match e {
        DfsEvent::Discover(_) => st.len() == 0 || after_tree,
        DfsEvent::TreeEdge { source, .. } => st.len() > 0 && st.last() == source.0 as int,
        DfsEvent::BackEdge { source, .. } => st.len() > 0 && st.last() == source.0 as int,
        DfsEvent::CrossForwardEdge { source, .. } => st.len() > 0 && st.last() == source.0 as int,
        DfsEvent::Finish(v) => st.len() > 0 && st.last() == v.0 as int,
    }
}

/// The accepted edges of one adjacency row taken in order, each with its
/// far end: the target of an outgoing row, the source of an incoming one.
pub open spec fn picks(g: GraphModel, mask: Seq<bool>, es: Seq<int>, use_target: bool) -> Seq<(EdgeIndex, NodeIndex)>
    decreases es.len(),
{
    if es.len() == 0 {
        Seq::empty()
    } else {
        let prev = picks(g, mask, es.drop_last(), use_target);
        let e = es.last();
        if mask[e] {
            prev.push(
                (
                    EdgeIndex(e as u32),
                    NodeIndex(
                        (if use_target {
                            g.edges[e].1
                        } else {
                            g.edges[e].0
                        }) as u32,
                    ),
                ),
            )
        } else {
            prev
        }
    }
}

/// The edges a search explores out of `u`, in order: the accepted outgoing
/// edges, then the accepted incoming ones, as far as `dir` follows them.
pub open spec fn edge_row(g: GraphModel, mask: Seq<bool>, dir: Direction, u: int) -> Seq<(EdgeIndex, NodeIndex)> {
    (if dir != Direction::Incoming {
        picks(g, mask, g.out_edges(u), true)
    } else {
        Seq::empty()
    }) + (if dir != Direction::Outgoing {
        picks(g, mask, g.in_edges(u), false)
    } else {
        Seq::empty()
    })
}

/// The edges and targets of the edge events out of `u`, in order.
pub open spec fn reported(ev: Seq<DfsEvent>, u: int) -> Seq<(EdgeIndex, NodeIndex)>
    decreases ev.len(),
{
    if ev.len() == 0 {
        Seq::empty()
    } else {
        let rest = reported(ev.drop_last(), u);
        match ev.last() {
            DfsEvent::TreeEdge { edge, source, target } => if source.0 == u {
                rest.push((edge, target))
            } else {
                rest
            },
            DfsEvent::BackEdge { edge, source, target } => if source.0 == u {
                rest.push((edge, target))
            } else {
                rest
            },
            DfsEvent::CrossForwardEdge { edge, source, target } => if source.0 == u {
                rest.push((edge, target))
            } else {
                rest
            },
            _ => rest,
        }
    }
}

/// The edge event `(edge, target)` out of `source` is the next entry of
/// the row of `source`.
pub open spec fn next_in_row(
    g: GraphModel,
    mask: Seq<bool>,
    dir: Direction,
    before: Seq<DfsEvent>,
    edge: EdgeIndex,
    source: NodeIndex,
    target: NodeIndex,
) -> bool {
    let done = reported(before, source.0 as int);
    let all = edge_row(g, mask, dir, source.0 as int);
    done.len() < all.len() && all[done.len() as int] == (edge, target)
}

/// `v` is discovered and not yet finished after `before`.
pub open spec fn open_after(before: Seq<DfsEvent>, v: int) -> bool {
    discoveries(before).contains(v) && !finishes(before).contains(v)
}

/// Event `e` may follow the events `before`: it keeps depth-first order; a
/// node is discovered once and finished once, after its discovery; an edge
/// event leaves an open node along the next accepted edge of its row, and
/// its kind tells the state of the target; a node is finished only once
/// every edge of its row has been reported.
pub open spec fn event_fits(
    g: GraphModel,
    mask: Seq<bool>,
    dir: Direction,
    before: Seq<DfsEvent>,
    e: DfsEvent,
) -> bool {
    &&& disciplined(before, e)
    &&& match e {
        DfsEvent::Discover(v) => 0 <= v.0 < g.node_count && !discoveries(before).contains(v.0 as int),
        DfsEvent::TreeEdge { edge, source, target } => {
            &&& follows(g, mask, dir, edge.0 as int, source.0 as int, target.0 as int)
            &&& open_after(before, source.0 as int)
            &&& !discoveries(before).contains(target.0 as int)
            &&& next_in_row(g, mask, dir, before, edge, source, target)
        },
        DfsEvent::BackEdge { edge, source, target } => {
            &&& follows(g, mask, dir, edge.0 as int, source.0 as int, target.0 as int)
            &&& open_after(before, source.0 as int)
            &&& open_after(before, target.0 as int)
            &&& next_in_row(g, mask, dir, before, edge, source, target)
        },
        DfsEvent::CrossForwardEdge { edge, source, target } => {
            &&& follows(g, mask, dir, edge.0 as int, source.0 as int, target.0 as int)
            &&& open_after(before, source.0 as int)
            &&& finishes(before).contains(target.0 as int)
            &&& next_in_row(g, mask, dir, before, edge, source, target)
        },
        DfsEvent::Finish(v) => open_after(before, v.0 as int) && reported(before, v.0 as int) == edge_row(
            g,
            mask,
            dir,
            v.0 as int,
        ),
    }
}

/// Every event fits the events before it.
pub open spec fn well_ordered(g: GraphModel, mask: Seq<bool>, dir: Direction, ev: Seq<DfsEvent>) -> bool
    decreases ev.len(),
{
    ev.len() == 0 || (well_ordered(g, mask, dir, ev.drop_last()) && event_fits(
        g,
        mask,
        dir,
        ev.drop_last(),
        ev.last(),
    ))
}

/// `v` is reachable from some start that names a node.
pub open spec fn reached_from(
    g: GraphModel,
    mask: Seq<bool>,
    dir: Direction,
    starts: Seq<NodeIndex>,
    v: int,
) -> bool {
    exists|i: int|
        0 <= i < starts.len() && 0 <= starts[i].0 < g.node_count && #[trigger] walkable(
            g,
            mask,
            dir,
            starts[i].0 as int,
            v,
        )
}

/// The outcome of a depth-first search: the events are well ordered and
/// the visitor let every event pass but a final one it stopped at; a search
/// that ran to its end discovered exactly the nodes reachable from the
/// starts and finished each of them.
pub open spec fn dfs_outcome<V: Fn(DfsEvent) -> TraversalControl>(
    g: GraphModel,
    mask: Seq<bool>,
    dir: Direction,
    starts: Seq<NodeIndex>,
    visitor: V,
    completed: bool,
    ev: Seq<DfsEvent>,
) -> bool {
    &&& well_ordered(g, mask, dir, ev)
    &&& forall|i: int|
        0 <= i < ev.len() && (completed || i < ev.len() - 1) ==> call_ensures(
            visitor,
            (#[trigger] ev[i],),
            TraversalControl::Continue,
        )
    &&& !completed ==> ev.len() > 0 && call_ensures(visitor, (ev.last(),), TraversalControl::Break)
    &&& completed ==> forall|v: int| #[trigger] discoveries(ev).contains(v) <==> reached_from(g, mask, dir, starts, v)
    &&& completed ==> forall|v: int| #[trigger] finishes(ev).contains(v) <==> discoveries(ev).contains(v)
}

/// Appending one event to a sequence.
pub proof fn lemma_push(g: GraphModel, mask: Seq<bool>, dir: Direction, ev: Seq<DfsEvent>, e: DfsEvent)
    ensures
        discoveries(ev.push(e)) == match e {
            DfsEvent::Discover(v) => discoveries(ev).push(v.0 as int),
            _ => discoveries(ev),
        },
        finishes(ev.push(e)) == match e {
            DfsEvent::Finish(v) => finishes(ev).push(v.0 as int),
            _ => finishes(ev),
        },
        open_stack(ev.push(e)) == match e {
            DfsEvent::Discover(v) => open_stack(ev).push(v.0 as int),
            DfsEvent::Finish(_) => open_stack(ev).drop_last(),
            _ => open_stack(ev),
        },
        well_ordered(g, mask, dir, ev.push(e)) == (well_ordered(g, mask, dir, ev) && event_fits(
            g,
            mask,
            dir,
            ev,
            e,
        )),
        forall|u: int|
            #[trigger] reported(ev.push(e), u) == match e {
                DfsEvent::TreeEdge { edge, source, target } => if source.0 == u {
                    reported(ev, u).push((edge, target))
                } else {
                    reported(ev, u)
                },
                DfsEvent::BackEdge { edge, source, target } => if source.0 == u {
                    reported(ev, u).push((edge, target))
                } else {
                    reported(ev, u)
                },
                DfsEvent::CrossForwardEdge { edge, source, target } => if source.0 == u {
                    reported(ev, u).push((edge, target))
                } else {
                    reported(ev, u)
                },
                _ => reported(ev, u),
            },
{
    assert(ev.push(e).drop_last() =~= ev);
}

proof fn lemma_push_contains(s: Seq<int>, x: int, y: int)
    ensures
        s.push(x).contains(y) <==> (s.contains(y) || y == x),
{
    if s.push(x).contains(y) {
        let i = choose|i: int| 0 <= i < s.push(x).len() && s.push(x)[i] == y;
        if i < s.len() {
            assert(s[i] == y);
        }
    }
    if s.contains(y) {
        let i = choose|i: int| 0 <= i < s.len() && s[i] == y;
        assert(s.push(x)[i] == y);
    }
    if y == x {
        assert(s.push(x)[s.len() as int] == y);
    }
}

/// The accepted edges out of `node` with their far ends, listed, and every
/// accepted step out of `node` among them.
pub open spec fn frame_ok(
    g: GraphModel,
    mask: Seq<bool>,
    dir: Direction,
    colors: Seq<u8>,
    node: NodeIndex,
    adj: Seq<(EdgeIndex, NodeIndex)>,
    next: usize,
) -> bool {
    &&& next <= adj.len()
    &&& forall|k: int|
        0 <= k < adj.len() ==> #[trigger] follows(g, mask, dir, adj[k].0.0 as int, node.0 as int, adj[k].1.0 as int)
    &&& forall|w: int|
        #[trigger] step(g, mask, dir, node.0 as int, w) ==> exists|k: int| 0 <= k < adj.len() && adj[k].1.0 == w
    &&& forall|k: int| 0 <= k < next ==> colors[#[trigger] adj[k].1.0 as int] != 0
}

/// The state of a depth-first search between steps: colors tell
/// undiscovered (0), open (1) and finished (2) nodes as the events do; the
/// open nodes are exactly those on the frame stack; finished nodes step only
/// to discovered ones; and every discovered node is reachable from a start.
pub open spec fn dfs_state(
    g: GraphModel,
    mask: Seq<bool>,
    dir: Direction,
    starts: Seq<NodeIndex>,
    colors: Seq<u8>,
    nodes: Seq<NodeIndex>,
    adjacent: Seq<Vec<(EdgeIndex, NodeIndex)>>,
    cursors: Seq<usize>,
    ev: Seq<DfsEvent>,
) -> bool {
    let n = g.node_count;
    &&& g.valid()
    &&& n <= u32::MAX
    &&& mask.len() == g.edges.len()
    &&& colors.len() == n
    &&& well_ordered(g, mask, dir, ev)
    &&& forall|v: int| 0 <= v < n ==> (#[trigger] colors[v] == 0 <==> !discoveries(ev).contains(v))
    &&& forall|v: int| 0 <= v < n ==> (#[trigger] colors[v] == 2 <==> finishes(ev).contains(v))
    &&& forall|v: int| 0 <= v < n ==> #[trigger] colors[v] <= 2
    &&& forall|v: int| #[trigger] discoveries(ev).contains(v) ==> 0 <= v < n
    &&& forall|v: int| #[trigger] finishes(ev).contains(v) ==> 0 <= v < n
    &&& nodes.len() == adjacent.len()
    &&& nodes.len() == cursors.len()
    &&& nodes.map_values(|x: NodeIndex| x.0 as int) == open_stack(ev)
    &&& forall|j: int| 0 <= j < nodes.len() ==> 0 <= #[trigger] nodes[j].0 < n && colors[nodes[j].0 as int] == 1
    &&& forall|j: int, k: int| 0 <= j < k < nodes.len() ==> nodes[j] != nodes[k]
    &&& forall|v: int|
        0 <= v < n && #[trigger] colors[v] == 1 ==> exists|j: int| 0 <= j < nodes.len() && nodes[j].0 == v
    &&& forall|j: int|
        0 <= j < nodes.len() ==> frame_ok(g, mask, dir, colors, #[trigger] nodes[j], adjacent[j]@, cursors[j])
    &&& forall|v: int, w: int|
        0 <= v < n && #[trigger] colors[v] == 2 && #[trigger] step(g, mask, dir, v, w) ==> colors[w] != 0
    &&& forall|v: int| 0 <= v < n && #[trigger] colors[v] != 0 ==> reached_from(g, mask, dir, starts, v)
}

/// Reusable color map and frame stack for depth-first event searches.
pub struct DfsEventWorkspace {
    colors: Vec<u8>,
    nodes: Vec<NodeIndex>,
    adjacent: Vec<Vec<(EdgeIndex, NodeIndex)>>,
    cursors: Vec<usize>,
}

impl DfsEventWorkspace {
    /// The color of every slot, the open frames' nodes, their accepted
    /// edges and their cursors.
    pub closed spec fn tables(&self) -> (Seq<u8>, Seq<NodeIndex>, Seq<Vec<(EdgeIndex, NodeIndex)>>, Seq<usize>) {
        (self.colors@, self.nodes@, self.adjacent@, self.cursors@)
    }

    /// An empty workspace.
    pub fn new() -> (r: Self)
        ensures
            r.tables() == (Seq::<u8>::empty(), Seq::<NodeIndex>::empty(), Seq::<Vec<(EdgeIndex, NodeIndex)>>::empty(), Seq::<
                usize,
            >::empty()),
    {
        DfsEventWorkspace { colors: Vec::new(), nodes: Vec::new(), adjacent: Vec::new(), cursors: Vec::new() }
    }

    /// Every node undiscovered, no frames.
    fn begin(&mut self, n: usize)
        ensures
            final(self).colors@ == Seq::new(n as nat, |v: int| 0u8),
            final(self).nodes@.len() == 0,
            final(self).adjacent@.len() == 0,
            final(self).cursors@.len() == 0,
    {
        self.colors = crate::util::filled_vec(0u8, n);
        self.nodes = Vec::new();
        self.adjacent = Vec::new();
        self.cursors = Vec::new();
    }
}

/// Every edge of `row` is an edge of `g` leaving `node` the way the row
/// runs: from its source for an outgoing row, into its target for an
/// incoming one.
pub open spec fn row_leaves(g: GraphModel, row: Seq<EdgeIndex>, use_target: bool, node: int, dir: Direction) -> bool {
    forall|k: int|
        0 <= k < row.len() ==> 0 <= #[trigger] row[k].0 < g.edges.len() && (if use_target {
            g.edges[row[k].0 as int].0 == node && dir != Direction::Incoming
        } else {
            g.edges[row[k].0 as int].1 == node && dir != Direction::Outgoing
        })
}

/// No row entries taken, nothing picked.
proof fn lemma_picks_none(
    g: GraphModel,
    mask: Seq<bool>,
    es: Seq<int>,
    use_target: bool,
    start: Seq<(EdgeIndex, NodeIndex)>,
)
    ensures
        start == start + picks(g, mask, es.take(0), use_target),
{
    assert(es.take(0) =~= Seq::<int>::empty());
    assert(start =~= start + picks(g, mask, es.take(0), use_target));
}

/// Appends the accepted edges of one adjacency row of `node`, with their
/// far ends.
fn collect_row(
    graph: &Topology,
    row: &[EdgeIndex],
    use_target: bool,
    mask: &Vec<bool>,
    out: &mut Vec<(EdgeIndex, NodeIndex)>,
    Ghost(node): Ghost<int>,
    Ghost(dir): Ghost<Direction>,
)
    requires
        mask@.len() == graph@.edges.len(),
        row_leaves(graph@, row@, use_target, node, dir),
    ensures
        final(out)@.len() >= old(out)@.len(),
        final(out)@.subrange(0, old(out)@.len() as int) == old(out)@,
        forall|k: int|
            old(out)@.len() <= k < final(out)@.len() ==> #[trigger] follows(
                graph@,
                mask@,
                dir,
                final(out)@[k].0.0 as int,
                node,
                final(out)@[k].1.0 as int,
            ),
        forall|k: int|
            0 <= k < row@.len() && mask@[row@[k].0 as int] ==> exists|j: int|
                old(out)@.len() <= j < final(out)@.len() && final(out)@[j].0 == #[trigger] row@[k],
        final(out)@ == old(out)@ + picks(graph@, mask@, edge_ints(row@), use_target),
{
    let ghost g = graph@;
    let ghost start = out@;
    let mut k: usize = 0;
    proof {
        lemma_picks_none(g, mask@, edge_ints(row@), use_target, start);
    }
    while k < row.len()
        invariant
            k <= row@.len(),
            g == graph@,
            mask@.len() == g.edges.len(),
            row_leaves(g, row@, use_target, node, dir),
            out@.len() >= start.len(),
            out@.subrange(0, start.len() as int) == start,
            forall|i: int|
                start.len() <= i < out@.len() ==> #[trigger] follows(
                    g,
                    mask@,
                    dir,
                    out@[i].0.0 as int,
                    node,
                    out@[i].1.0 as int,
                ),
            forall|i: int|
                0 <= i < k && mask@[row@[i].0 as int] ==> exists|j: int|
                    start.len() <= j < out@.len() && out@[j].0 == #[trigger] row@[i],
            out@ == start + picks(g, mask@, edge_ints(row@).take(k as int), use_target),
        decreases row@.len() - k,
    {
        let edge = row[k];
        proof {
            let es = edge_ints(row@);
            assert(es.take(k + 1).drop_last() =~= es.take(k as int));
            assert(es.take(k + 1).last() == edge.0 as int);
        }
        if mask[edge.index()] {
            match graph.edge_endpoints(edge) {
                Some(ends) => {
                    let far = if use_target {
                        ends.target
                    } else {
                        ends.source
                    };
                    let ghost before = out@;
                    out.push((edge, far));
                    proof {
                        let es = edge_ints(row@);
                        assert(far.0 as int == (if use_target {
                            g.edges[edge.0 as int].1
                        } else {
                            g.edges[edge.0 as int].0
                        }));
                        assert(out@ =~= start + picks(g, mask@, es.take(k + 1), use_target));
                        assert(out@.subrange(0, start.len() as int) =~= before.subrange(0, start.len() as int));
                        assert forall|i: int| start.len() <= i < out@.len() implies #[trigger] follows(
                            g,
                            mask@,
                            dir,
                            out@[i].0.0 as int,
                            node,
                            out@[i].1.0 as int,
                        ) by {
                            if i < before.len() {
                                assert(out@[i] == before[i]);
                            }
                        }
                        assert forall|i: int| 0 <= i < k + 1 && mask@[row@[i].0 as int] implies exists|j: int|
                            start.len() <= j < out@.len() && out@[j].0 == #[trigger] row@[i] by {
                            if i < k {
                                let j = choose|j: int| start.len() <= j < before.len() && before[j].0 == row@[i];
                                assert(out@[j] == before[j]);
                            } else {
                                assert(out@[out@.len() - 1].0 == row@[i]);
                            }
                        }
                    }
                },
                None => {},
            }
        }
        k = k + 1;
    }
    proof {
        assert(edge_ints(row@).take(row@.len() as int) =~= edge_ints(row@));
    }
}

/// The accepted edges out of `node` in direction `dir`, with their far
/// ends: outgoing edges first, then incoming ones, each in edge order.
fn adjacency(graph: &Topology, node: NodeIndex, dir: Direction, mask: &Vec<bool>) -> (r: Vec<(EdgeIndex, NodeIndex)>)
    requires
        mask@.len() == graph@.edges.len(),
        node.0 < graph@.node_count,
    ensures
        forall|k: int|
            0 <= k < r@.len() ==> #[trigger] follows(graph@, mask@, dir, r@[k].0.0 as int, node.0 as int, r@[k].1.0 as int),
        forall|w: int|
            #[trigger] step(graph@, mask@, dir, node.0 as int, w) ==> exists|k: int| 0 <= k < r@.len() && r@[k].1.0 == w,
        r@ == edge_row(graph@, mask@, dir, node.0 as int),
{
    let ghost g = graph@;
    let ghost v = node.0 as int;
    let mut out: Vec<(EdgeIndex, NodeIndex)> = Vec::new();
    if dir != Direction::Incoming {
        let row = graph.outgoing_edges(node);
        proof {
            lemma_adj_members(g.edges, g.edges.len(), 0, v);
            assert forall|k: int| 0 <= k < row@.len() implies 0 <= #[trigger] row@[k].0 < g.edges.len()
                && g.edges[row@[k].0 as int].0 == v by {
                assert(edge_ints(row@)[k] == row@[k].0 as int);
            }
        }
        collect_row(graph, row, true, mask, &mut out, Ghost(v), Ghost(dir));
        proof {
            assert forall|e: int| 0 <= e < g.edges.len() && mask@[e] && g.edges[e].0 == v implies exists|j: int|
                0 <= j < out@.len() && out@[j].0.0 == e by {
                assert(g.out_edges(v).contains(e));
                let k = choose|k: int| 0 <= k < g.out_edges(v).len() && g.out_edges(v)[k] == e;
                assert(edge_ints(row@)[k] == row@[k].0 as int);
                assert(row@[k].0 == e);
                let j = choose|j: int| 0 <= j < out@.len() && out@[j].0 == #[trigger] row@[k];
            }
        }
    }
    let ghost mid = out@;
    proof {
        if dir != Direction::Incoming {
            assert(mid =~= Seq::<(EdgeIndex, NodeIndex)>::empty() + picks(g, mask@, g.out_edges(v), true));
        } else {
            assert(mid =~= Seq::<(EdgeIndex, NodeIndex)>::empty());
        }
    }
    if dir != Direction::Outgoing {
        let row = graph.incoming_edges(node);
        proof {
            lemma_adj_members(g.edges, g.edges.len(), 1, v);
            assert forall|k: int| 0 <= k < row@.len() implies 0 <= #[trigger] row@[k].0 < g.edges.len()
                && g.edges[row@[k].0 as int].1 == v by {
                assert(edge_ints(row@)[k] == row@[k].0 as int);
            }
        }
        collect_row(graph, row, false, mask, &mut out, Ghost(v), Ghost(dir));
        proof {
            assert forall|e: int| 0 <= e < g.edges.len() && mask@[e] && g.edges[e].1 == v implies exists|j: int|
                0 <= j < out@.len() && out@[j].0.0 == e by {
                assert(g.in_edges(v).contains(e));
                let k = choose|k: int| 0 <= k < g.in_edges(v).len() && g.in_edges(v)[k] == e;
                assert(edge_ints(row@)[k] == row@[k].0 as int);
                assert(row@[k].0 == e);
                let j = choose|j: int| mid.len() <= j < out@.len() && out@[j].0 == #[trigger] row@[k];
            }
            assert forall|e: int| 0 <= e < g.edges.len() && mask@[e] && g.edges[e].0 == v && dir != Direction::Incoming
                implies exists|j: int| 0 <= j < out@.len() && out@[j].0.0 == e by {
                let j = choose|j: int| 0 <= j < mid.len() && mid[j].0.0 == e;
                assert(out@.subrange(0, mid.len() as int)[j] == mid[j]);
            }
        }
    }
    proof {
        assert forall|k: int| 0 <= k < out@.len() implies #[trigger] follows(
            g,
            mask@,
            dir,
            out@[k].0.0 as int,
            v,
            out@[k].1.0 as int,
        ) by {
            if dir != Direction::Outgoing && k < mid.len() {
                assert(out@.subrange(0, mid.len() as int)[k] == mid[k]);
            }
        }
        assert forall|w: int| #[trigger] step(g, mask@, dir, v, w) implies exists|k: int|
            0 <= k < out@.len() && out@[k].1.0 == w by {
            let e = choose|e: int| follows(g, mask@, dir, e, v, w);
            let j = choose|j: int| 0 <= j < out@.len() && out@[j].0.0 == e;
            assert(follows(g, mask@, dir, out@[j].0.0 as int, v, out@[j].1.0 as int));
            if dir != Direction::Incoming && g.edges[e].0 == v && g.edges[e].1 == w {
            } else {
            }
        }
        let first = if dir != Direction::Incoming {
            picks(g, mask@, g.out_edges(v), true)
        } else {
            Seq::empty()
        };
        let second = if dir != Direction::Outgoing {
            picks(g, mask@, g.in_edges(v), false)
        } else {
            Seq::empty()
        };
        assert(mid == first);
        if dir != Direction::Outgoing {
            assert(out@ == mid + second);
        } else {
            assert(out@ =~= mid + second);
        }
    }
    out
}

/// Reachability from the starts extends along an accepted step.
proof fn lemma_reached_step(
    g: GraphModel,
    mask: Seq<bool>,
    dir: Direction,
    starts: Seq<NodeIndex>,
    u: int,
    w: int,
)
    requires
        g.valid(),
        reached_from(g, mask, dir, starts, u),
        step(g, mask, dir, u, w),
    ensures
        reached_from(g, mask, dir, starts, w),
{
    let i = choose|i: int|
        0 <= i < starts.len() && 0 <= starts[i].0 < g.node_count && #[trigger] walkable(
            g,
            mask,
            dir,
            starts[i].0 as int,
            u,
        );
    lemma_step_in_range(g, mask, dir, u, w);
    lemma_reach_step(g, mask, dir, starts[i].0 as int, u, w);
}

/// An edge event changes no color.
proof fn lemma_edge_event(
    g: GraphModel,
    mask: Seq<bool>,
    dir: Direction,
    starts: Seq<NodeIndex>,
    colors: Seq<u8>,
    nodes: Seq<NodeIndex>,
    adjacent: Seq<Vec<(EdgeIndex, NodeIndex)>>,
    cursors: Seq<usize>,
    ev: Seq<DfsEvent>,
    e: DfsEvent,
)
    requires
        dfs_state(g, mask, dir, starts, colors, nodes, adjacent, cursors, ev),
        event_fits(g, mask, dir, ev, e),
        !(e is Discover),
        !(e is Finish),
    ensures
        dfs_state(g, mask, dir, starts, colors, nodes, adjacent, cursors, ev.push(e)),
{
    lemma_push(g, mask, dir, ev, e);
}

/// Discovering the undiscovered `t` opens it and pushes its frame.
proof fn lemma_discover(
    g: GraphModel,
    mask: Seq<bool>,
    dir: Direction,
    starts: Seq<NodeIndex>,
    colors: Seq<u8>,
    nodes: Seq<NodeIndex>,
    adjacent: Seq<Vec<(EdgeIndex, NodeIndex)>>,
    cursors: Seq<usize>,
    ev: Seq<DfsEvent>,
    t: NodeIndex,
    adj: Vec<(EdgeIndex, NodeIndex)>,
)
    requires
        dfs_state(g, mask, dir, starts, colors, nodes, adjacent, cursors, ev),
        disciplined(ev, DfsEvent::Discover(t)),
        0 <= t.0 < g.node_count,
        colors[t.0 as int] == 0,
        reached_from(g, mask, dir, starts, t.0 as int),
        forall|k: int|
            0 <= k < adj@.len() ==> #[trigger] follows(g, mask, dir, adj@[k].0.0 as int, t.0 as int, adj@[k].1.0 as int),
        forall|w: int|
            #[trigger] step(g, mask, dir, t.0 as int, w) ==> exists|k: int| 0 <= k < adj@.len() && adj@[k].1.0 == w,
    ensures
        event_fits(g, mask, dir, ev, DfsEvent::Discover(t)),
        dfs_state(
            g,
            mask,
            dir,
            starts,
            colors.update(t.0 as int, 1),
            nodes.push(t),
            adjacent.push(adj),
            cursors.push(0),
            ev.push(DfsEvent::Discover(t)),
        ),
{
    let n = g.node_count;
    let v = t.0 as int;
    let c2 = colors.update(v, 1);
    let nodes2 = nodes.push(t);
    let adj2 = adjacent.push(adj);
    lemma_push(g, mask, dir, ev, DfsEvent::Discover(t));
    assert(nodes2.map_values(|x: NodeIndex| x.0 as int) =~= nodes.map_values(|x: NodeIndex| x.0 as int).push(v));
    let cur2 = cursors.push(0);
    let ev2 = ev.push(DfsEvent::Discover(t));
    lemma_push(g, mask, dir, ev, DfsEvent::Discover(t));
    assert(!discoveries(ev).contains(v));
    assert forall|x: int| 0 <= x < n implies (#[trigger] c2[x] == 0 <==> !discoveries(ev2).contains(x)) by {
        lemma_push_contains(discoveries(ev), v, x);
    }
    assert forall|x: int| #[trigger] discoveries(ev2).contains(x) implies 0 <= x < n by {
        lemma_push_contains(discoveries(ev), v, x);
    }
    assert forall|x: int| 0 <= x < n implies (#[trigger] c2[x] == 2 <==> finishes(ev2).contains(x)) by {
        if x == v {
            assert(!finishes(ev).contains(v));
        }
    }
    assert forall|j: int| 0 <= j < nodes2.len() implies 0 <= #[trigger] nodes2[j].0 < n && c2[nodes2[j].0 as int]
        == 1 by {
        if j < nodes.len() {
            assert(nodes2[j] == nodes[j]);
            assert(colors[nodes[j].0 as int] == 1);
        }
    }
    assert forall|j: int, k: int| 0 <= j < k < nodes2.len() implies nodes2[j] != nodes2[k] by {
        if k == nodes.len() {
            assert(colors[nodes[j].0 as int] == 1);
        } else {
            assert(nodes2[j] == nodes[j] && nodes2[k] == nodes[k]);
        }
    }
    assert forall|x: int| 0 <= x < n && #[trigger] c2[x] == 1 implies exists|j: int|
        0 <= j < nodes2.len() && nodes2[j].0 == x by {
        if x == v {
            assert(nodes2[nodes.len() as int].0 == x);
        } else {
            assert(colors[x] == 1);
            let j = choose|j: int| 0 <= j < nodes.len() && nodes[j].0 == x;
            assert(nodes2[j].0 == x);
        }
    }
    assert forall|j: int| 0 <= j < nodes2.len() implies frame_ok(
        g,
        mask,
        dir,
        c2,
        #[trigger] nodes2[j],
        adj2[j]@,
        cur2[j],
    ) by {
        if j < nodes.len() {
            assert(nodes2[j] == nodes[j] && adj2[j] == adjacent[j] && cur2[j] == cursors[j]);
            assert(frame_ok(g, mask, dir, colors, nodes[j], adjacent[j]@, cursors[j]));
            assert forall|k: int| 0 <= k < cur2[j] implies c2[#[trigger] adj2[j]@[k].1.0 as int] != 0 by {
                assert(colors[adjacent[j]@[k].1.0 as int] != 0);
                assert(follows(g, mask, dir, adjacent[j]@[k].0.0 as int, nodes[j].0 as int, adjacent[j]@[k].1.0 as int));
                assert(step(g, mask, dir, nodes[j].0 as int, adjacent[j]@[k].1.0 as int));
                lemma_step_in_range(g, mask, dir, nodes[j].0 as int, adjacent[j]@[k].1.0 as int);
            }
        } else {
            assert(adj2[j] == adj);
        }
    }
    assert forall|x: int, w: int| 0 <= x < n && #[trigger] c2[x] == 2 && #[trigger] step(g, mask, dir, x, w) implies c2[w]
        != 0 by {
        assert(colors[x] == 2);
        assert(colors[w] != 0);
        lemma_step_in_range(g, mask, dir, x, w);
    }
    assert forall|x: int| 0 <= x < n && #[trigger] c2[x] != 0 implies reached_from(g, mask, dir, starts, x) by {
        if x != v {
            assert(colors[x] != 0);
        }
    }
    assert forall|x: int| 0 <= x < n implies #[trigger] c2[x] <= 2 by {
        if x != v {
            assert(colors[x] <= 2);
        }
    }
}

/// Moving frame `j` past an entry whose target is discovered.
proof fn lemma_advance(
    g: GraphModel,
    mask: Seq<bool>,
    dir: Direction,
    starts: Seq<NodeIndex>,
    colors: Seq<u8>,
    nodes: Seq<NodeIndex>,
    adjacent: Seq<Vec<(EdgeIndex, NodeIndex)>>,
    cursors: Seq<usize>,
    ev: Seq<DfsEvent>,
    j: int,
)
    requires
        dfs_state(g, mask, dir, starts, colors, nodes, adjacent, cursors, ev),
        0 <= j < nodes.len(),
        cursors[j] < adjacent[j]@.len(),
        colors[adjacent[j]@[cursors[j] as int].1.0 as int] != 0,
    ensures
        dfs_state(g, mask, dir, starts, colors, nodes, adjacent, cursors.update(j, (cursors[j] + 1) as usize), ev),
{
    let cur2 = cursors.update(j, (cursors[j] + 1) as usize);
    assert forall|i: int| 0 <= i < nodes.len() implies frame_ok(
        g,
        mask,
        dir,
        colors,
        #[trigger] nodes[i],
        adjacent[i]@,
        cur2[i],
    ) by {
        assert(frame_ok(g, mask, dir, colors, nodes[i], adjacent[i]@, cursors[i]));
        if i == j {
            assert forall|k: int| 0 <= k < cur2[i] implies colors[#[trigger] adjacent[i]@[k].1.0 as int] != 0 by {
                if k < cursors[i] {
                } else {
                    assert(k == cursors[j]);
                }
            }
        }
    }
}

/// Each open frame holds the row of its node and has reported exactly the
/// entries before its cursor; an undiscovered node has reported nothing.
pub open spec fn rows_reported(
    g: GraphModel,
    mask: Seq<bool>,
    dir: Direction,
    colors: Seq<u8>,
    nodes: Seq<NodeIndex>,
    adjacent: Seq<Vec<(EdgeIndex, NodeIndex)>>,
    cursors: Seq<usize>,
    ev: Seq<DfsEvent>,
) -> bool {
    &&& forall|j: int| 0 <= j < nodes.len() ==> (#[trigger] adjacent[j])@ == edge_row(g, mask, dir, nodes[j].0 as int)
    &&& forall|j: int|
        0 <= j < nodes.len() ==> #[trigger] reported(ev, nodes[j].0 as int) == adjacent[j]@.take(cursors[j] as int)
    &&& forall|v: int| 0 <= v < colors.len() && #[trigger] colors[v] == 0 ==> reported(ev, v).len() == 0
}

/// Reporting the entry under the top cursor and moving the cursor on.
proof fn lemma_rows_edge(
    g: GraphModel,
    mask: Seq<bool>,
    dir: Direction,
    colors: Seq<u8>,
    nodes: Seq<NodeIndex>,
    adjacent: Seq<Vec<(EdgeIndex, NodeIndex)>>,
    cursors: Seq<usize>,
    ev: Seq<DfsEvent>,
    e: DfsEvent,
)
    requires
        rows_reported(g, mask, dir, colors, nodes, adjacent, cursors, ev),
        nodes.len() > 0,
        nodes.len() == adjacent.len() == cursors.len(),
        forall|j: int, k: int| 0 <= j < k < nodes.len() ==> nodes[j] != nodes[k],
        colors[nodes.last().0 as int] != 0,
        0 <= nodes.last().0 < colors.len(),
        cursors.last() < adjacent.last()@.len(),
        cursors.last() + 1 <= usize::MAX,
        match e {
            DfsEvent::TreeEdge { edge, source, target } => source == nodes.last()
                && adjacent.last()@[cursors.last() as int] == (edge, target),
            DfsEvent::BackEdge { edge, source, target } => source == nodes.last()
                && adjacent.last()@[cursors.last() as int] == (edge, target),
            DfsEvent::CrossForwardEdge { edge, source, target } => source == nodes.last()
                && adjacent.last()@[cursors.last() as int] == (edge, target),
            _ => false,
        },
    ensures
        rows_reported(
            g,
            mask,
            dir,
            colors,
            nodes,
            adjacent,
            cursors.update(cursors.len() - 1, (cursors.last() + 1) as usize),
            ev.push(e),
        ),
{
    lemma_push(g, mask, dir, ev, e);
    let top = nodes.len() - 1;
    let cur2 = cursors.update(top, (cursors.last() + 1) as usize);
    let s = nodes.last().0 as int;
    assert forall|j: int| 0 <= j < nodes.len() implies adjacent[j]@ == edge_row(g, mask, dir, nodes[j].0 as int)
        && #[trigger] reported(ev.push(e), nodes[j].0 as int) == adjacent[j]@.take(cur2[j] as int) by {
        assert(reported(ev, nodes[j].0 as int) == adjacent[j]@.take(cursors[j] as int));
        if j == top {
            assert(adjacent[j] == adjacent.last());
            assert(cursors[j] == cursors.last());
            assert(adjacent[j]@.take(cur2[j] as int) =~= adjacent[j]@.take(cursors[j] as int).push(
                adjacent[j]@[cursors[j] as int],
            ));
        } else {
            assert(nodes[j] != nodes[top]);
            assert(nodes[j].0 != s);
        }
    }
    assert forall|v: int| 0 <= v < colors.len() && #[trigger] colors[v] == 0 implies reported(ev.push(e), v).len() == 0 by {
        assert(reported(ev, v).len() == 0);
        assert(v != s);
    }
}

/// Discovering `t` and opening its frame with its row.
proof fn lemma_rows_discover(
    g: GraphModel,
    mask: Seq<bool>,
    dir: Direction,
    colors: Seq<u8>,
    nodes: Seq<NodeIndex>,
    adjacent: Seq<Vec<(EdgeIndex, NodeIndex)>>,
    cursors: Seq<usize>,
    ev: Seq<DfsEvent>,
    t: NodeIndex,
    adj: Vec<(EdgeIndex, NodeIndex)>,
)
    requires
        rows_reported(g, mask, dir, colors, nodes, adjacent, cursors, ev),
        nodes.len() == adjacent.len() == cursors.len(),
        0 <= t.0 < colors.len(),
        colors[t.0 as int] == 0,
        adj@ == edge_row(g, mask, dir, t.0 as int),
    ensures
        rows_reported(
            g,
            mask,
            dir,
            colors.update(t.0 as int, 1),
            nodes.push(t),
            adjacent.push(adj),
            cursors.push(0),
            ev.push(DfsEvent::Discover(t)),
        ),
{
    let e = DfsEvent::Discover(t);
    lemma_push(g, mask, dir, ev, e);
    let nodes2 = nodes.push(t);
    let adj2 = adjacent.push(adj);
    let cur2 = cursors.push(0);
    assert forall|j: int| 0 <= j < nodes2.len() implies adj2[j]@ == edge_row(g, mask, dir, nodes2[j].0 as int)
        && #[trigger] reported(ev.push(e), nodes2[j].0 as int) == adj2[j]@.take(cur2[j] as int) by {
        if j < nodes.len() {
            assert(nodes2[j] == nodes[j] && adj2[j] == adjacent[j] && cur2[j] == cursors[j]);
            assert(reported(ev, nodes[j].0 as int) == adjacent[j]@.take(cursors[j] as int));
            assert(adjacent[j]@ == edge_row(g, mask, dir, nodes[j].0 as int));
            assert(adj2[j]@ == edge_row(g, mask, dir, nodes2[j].0 as int));
        } else {
            assert(reported(ev, t.0 as int).len() == 0);
            assert(adj2[j]@.take(0) =~= Seq::<(EdgeIndex, NodeIndex)>::empty());
            assert(reported(ev, t.0 as int) =~= Seq::<(EdgeIndex, NodeIndex)>::empty());
        }
    }
    let c2 = colors.update(t.0 as int, 1);
    assert forall|v: int| 0 <= v < c2.len() && #[trigger] c2[v] == 0 implies reported(ev.push(e), v).len() == 0 by {
        assert(colors[v] == 0);
    }
}

/// Finishing the top frame.
proof fn lemma_rows_finish(
    g: GraphModel,
    mask: Seq<bool>,
    dir: Direction,
    colors: Seq<u8>,
    nodes: Seq<NodeIndex>,
    adjacent: Seq<Vec<(EdgeIndex, NodeIndex)>>,
    cursors: Seq<usize>,
    ev: Seq<DfsEvent>,
)
    requires
        rows_reported(g, mask, dir, colors, nodes, adjacent, cursors, ev),
        nodes.len() > 0,
        nodes.len() == adjacent.len() == cursors.len(),
        0 <= nodes.last().0 < colors.len(),
    ensures
        rows_reported(
            g,
            mask,
            dir,
            colors.update(nodes.last().0 as int, 2),
            nodes.drop_last(),
            adjacent.drop_last(),
            cursors.drop_last(),
            ev.push(DfsEvent::Finish(nodes.last())),
        ),
{
    let e = DfsEvent::Finish(nodes.last());
    lemma_push(g, mask, dir, ev, e);
    let nodes2 = nodes.drop_last();
    assert forall|j: int| 0 <= j < nodes2.len() implies adjacent.drop_last()[j]@ == edge_row(g, mask, dir, nodes2[j].0 as int)
        && #[trigger] reported(ev.push(e), nodes2[j].0 as int) == adjacent.drop_last()[j]@.take(
        cursors.drop_last()[j] as int,
    ) by {
        assert(nodes2[j] == nodes[j]);
        assert(adjacent.drop_last()[j] == adjacent[j]);
        assert(cursors.drop_last()[j] == cursors[j]);
        assert(reported(ev, nodes[j].0 as int) == adjacent[j]@.take(cursors[j] as int));
        assert(adjacent[j]@ == edge_row(g, mask, dir, nodes[j].0 as int));
    }
    let c2 = colors.update(nodes.last().0 as int, 2);
    assert forall|v: int| 0 <= v < c2.len() && #[trigger] c2[v] == 0 implies reported(ev.push(e), v).len() == 0 by {
        assert(colors[v] == 0);
    }
}

/// Finishing the top frame, whose entries are all explored.
proof fn lemma_finish(
    g: GraphModel,
    mask: Seq<bool>,
    dir: Direction,
    starts: Seq<NodeIndex>,
    colors: Seq<u8>,
    nodes: Seq<NodeIndex>,
    adjacent: Seq<Vec<(EdgeIndex, NodeIndex)>>,
    cursors: Seq<usize>,
    ev: Seq<DfsEvent>,
)
    requires
        dfs_state(g, mask, dir, starts, colors, nodes, adjacent, cursors, ev),
        nodes.len() > 0,
        cursors.last() == adjacent.last()@.len(),
        !(ev.len() > 0 && ev.last() is TreeEdge),
        reported(ev, nodes.last().0 as int) == edge_row(g, mask, dir, nodes.last().0 as int),
    ensures
        event_fits(g, mask, dir, ev, DfsEvent::Finish(nodes.last())),
        dfs_state(
            g,
            mask,
            dir,
            starts,
            colors.update(nodes.last().0 as int, 2),
            nodes.drop_last(),
            adjacent.drop_last(),
            cursors.drop_last(),
            ev.push(DfsEvent::Finish(nodes.last())),
        ),
{
    let n = g.node_count;
    let m = nodes.len() - 1;
    let t = nodes.last();
    let v = t.0 as int;
    let c2 = colors.update(v, 2);
    let nodes2 = nodes.drop_last();
    let adj2 = adjacent.drop_last();
    let cur2 = cursors.drop_last();
    let ev2 = ev.push(DfsEvent::Finish(t));
    assert(nodes[m] == t);
    lemma_push(g, mask, dir, ev, DfsEvent::Finish(t));
    assert(nodes.map_values(|x: NodeIndex| x.0 as int)[m] == v);
    assert(nodes2.map_values(|x: NodeIndex| x.0 as int) =~= nodes.map_values(|x: NodeIndex| x.0 as int).drop_last());
    assert(0 <= v < n && colors[v] == 1);
    lemma_push(g, mask, dir, ev, DfsEvent::Finish(t));
    assert(discoveries(ev).contains(v));
    assert(!finishes(ev).contains(v));
    assert forall|x: int| 0 <= x < n implies (#[trigger] c2[x] == 2 <==> finishes(ev2).contains(x)) by {
        lemma_push_contains(finishes(ev), v, x);
    }
    assert forall|x: int| #[trigger] finishes(ev2).contains(x) implies 0 <= x < n by {
        lemma_push_contains(finishes(ev), v, x);
    }
    assert forall|x: int| 0 <= x < n implies (#[trigger] c2[x] == 0 <==> !discoveries(ev2).contains(x)) by {
        if x == v {
        }
    }
    assert forall|j: int| 0 <= j < nodes2.len() implies 0 <= #[trigger] nodes2[j].0 < n && c2[nodes2[j].0 as int]
        == 1 by {
        assert(nodes2[j] == nodes[j]);
        assert(nodes[j] != nodes[m]);
        assert(colors[nodes[j].0 as int] == 1);
    }
    assert forall|j: int, k: int| 0 <= j < k < nodes2.len() implies nodes2[j] != nodes2[k] by {
        assert(nodes2[j] == nodes[j] && nodes2[k] == nodes[k]);
    }
    assert forall|x: int| 0 <= x < n && #[trigger] c2[x] == 1 implies exists|j: int|
        0 <= j < nodes2.len() && nodes2[j].0 == x by {
        assert(x != v);
        assert(colors[x] == 1);
        let j = choose|j: int| 0 <= j < nodes.len() && nodes[j].0 == x;
        assert(j != m);
        assert(nodes2[j].0 == x);
    }
    assert forall|j: int| 0 <= j < nodes2.len() implies frame_ok(
        g,
        mask,
        dir,
        c2,
        #[trigger] nodes2[j],
        adj2[j]@,
        cur2[j],
    ) by {
        assert(nodes2[j] == nodes[j] && adj2[j] == adjacent[j] && cur2[j] == cursors[j]);
        assert(frame_ok(g, mask, dir, colors, nodes[j], adjacent[j]@, cursors[j]));
        assert forall|k: int| 0 <= k < cur2[j] implies c2[#[trigger] adj2[j]@[k].1.0 as int] != 0 by {
            assert(colors[adjacent[j]@[k].1.0 as int] != 0);
            assert(follows(g, mask, dir, adjacent[j]@[k].0.0 as int, nodes[j].0 as int, adjacent[j]@[k].1.0 as int));
            assert(step(g, mask, dir, nodes[j].0 as int, adjacent[j]@[k].1.0 as int));
            lemma_step_in_range(g, mask, dir, nodes[j].0 as int, adjacent[j]@[k].1.0 as int);
        }
    }
    assert(frame_ok(g, mask, dir, colors, nodes[m], adjacent[m]@, cursors[m]));
    assert forall|x: int, w: int| 0 <= x < n && #[trigger] c2[x] == 2 && #[trigger] step(g, mask, dir, x, w) implies c2[w]
        != 0 by {
        lemma_step_in_range(g, mask, dir, x, w);
        if x == v {
            let k = choose|k: int| 0 <= k < adjacent[m]@.len() && adjacent[m]@[k].1.0 == w;
            assert(colors[adjacent[m]@[k].1.0 as int] != 0);
        } else {
            assert(colors[x] == 2);
        }
    }
    assert forall|x: int| 0 <= x < n && #[trigger] c2[x] != 0 implies reached_from(g, mask, dir, starts, x) by {
        if x != v {
            assert(colors[x] != 0);
        }
    }
    assert forall|x: int| 0 <= x < n implies #[trigger] c2[x] <= 2 by {
        if x != v {
            assert(colors[x] <= 2);
        }
    }
}

/// With no frame left and every start discovered, the discovered nodes are
/// exactly those reachable from the starts, and all are finished.
proof fn lemma_complete(
    g: GraphModel,
    mask: Seq<bool>,
    dir: Direction,
    starts: Seq<NodeIndex>,
    colors: Seq<u8>,
    nodes: Seq<NodeIndex>,
    adjacent: Seq<Vec<(EdgeIndex, NodeIndex)>>,
    cursors: Seq<usize>,
    ev: Seq<DfsEvent>,
)
    requires
        dfs_state(g, mask, dir, starts, colors, nodes, adjacent, cursors, ev),
        nodes.len() == 0,
        forall|i: int| 0 <= i < starts.len() && 0 <= #[trigger] starts[i].0 < g.node_count ==> colors[starts[i].0 as int] != 0,
    ensures
        forall|v: int| #[trigger] discoveries(ev).contains(v) <==> reached_from(g, mask, dir, starts, v),
        forall|v: int| #[trigger] finishes(ev).contains(v) <==> discoveries(ev).contains(v),
{
    let n = g.node_count;
    let set = Set::new(|v: int| 0 <= v < n && colors[v] == 2);
    assert forall|v: int| 0 <= v < n && #[trigger] colors[v] != 0 implies colors[v] == 2 by {
        if colors[v] == 1 {
            let j = choose|j: int| 0 <= j < nodes.len() && nodes[j].0 == v;
        }
    }
    assert forall|u: int, w: int| set.contains(u) && #[trigger] step(g, mask, dir, u, w) implies set.contains(w) by {
        lemma_step_in_range(g, mask, dir, u, w);
        assert(colors[u] == 2);
        assert(colors[w] != 0);
    }
    assert forall|v: int| #[trigger] discoveries(ev).contains(v) <==> reached_from(g, mask, dir, starts, v) by {
        if discoveries(ev).contains(v) {
            assert(0 <= v < n);
            assert(colors[v] != 0);
        }
        if reached_from(g, mask, dir, starts, v) {
            let i = choose|i: int|
                0 <= i < starts.len() && 0 <= starts[i].0 < g.node_count && #[trigger] walkable(
                    g,
                    mask,
                    dir,
                    starts[i].0 as int,
                    v,
                );
            assert(colors[starts[i].0 as int] != 0);
            assert(set.contains(starts[i].0 as int));
            lemma_closed_holds_reachable(g, mask, dir, starts[i].0 as int, v, set);
            assert(colors[v] != 0);
        }
    }
    assert forall|v: int| #[trigger] finishes(ev).contains(v) <==> discoveries(ev).contains(v) by {
        if finishes(ev).contains(v) {
            assert(0 <= v < n);
            assert(colors[v] == 2);
        }
        if discoveries(ev).contains(v) {
            assert(0 <= v < n);
            assert(colors[v] != 0);
        }
    }
}

/// How many nodes are undiscovered.
pub open spec fn whites(c: Seq<u8>) -> nat
    decreases c.len(),
{
    if c.len() == 0 {
        0
    } else {
        whites(c.drop_last()) + if c.last() == 0 {
            1nat
        } else {
            0nat
        }
    }
}

/// How many frame entries, and frames, are left to explore.
pub open spec fn pending(adjacent: Seq<Vec<(EdgeIndex, NodeIndex)>>, cursors: Seq<usize>) -> int
    decreases cursors.len(),
{
    if cursors.len() == 0 || adjacent.len() == 0 {
        0
    } else {
        pending(adjacent.drop_last(), cursors.drop_last()) + adjacent.last()@.len() - cursors.last() + 1
    }
}

proof fn lemma_whites_update(c: Seq<u8>, v: int, x: u8)
    requires
        0 <= v < c.len(),
        x != 0,
    ensures
        c[v] == 0 ==> whites(c.update(v, x)) + 1 == whites(c),
        c[v] != 0 ==> whites(c.update(v, x)) == whites(c),
    decreases c.len(),
{
    let c2 = c.update(v, x);
    if v == c.len() - 1 {
        assert(c2.drop_last() =~= c.drop_last());
    } else {
        lemma_whites_update(c.drop_last(), v, x);
        assert(c2.drop_last() =~= c.drop_last().update(v, x));
    }
}

proof fn lemma_pending_nonneg(adjacent: Seq<Vec<(EdgeIndex, NodeIndex)>>, cursors: Seq<usize>)
    requires
        adjacent.len() == cursors.len(),
        forall|j: int| 0 <= j < cursors.len() ==> #[trigger] cursors[j] <= adjacent[j]@.len(),
    ensures
        pending(adjacent, cursors) >= 0,
    decreases cursors.len(),
{
    if cursors.len() > 0 {
        lemma_pending_nonneg(adjacent.drop_last(), cursors.drop_last());
        assert(cursors.last() <= adjacent.last()@.len()) by {
            assert(cursors[cursors.len() - 1] <= adjacent[cursors.len() - 1]@.len());
        }
    }
}

proof fn lemma_pending_step(adjacent: Seq<Vec<(EdgeIndex, NodeIndex)>>, cursors: Seq<usize>)
    requires
        adjacent.len() == cursors.len(),
        cursors.len() > 0,
        cursors.last() < usize::MAX,
    ensures
        pending(adjacent, cursors.update(cursors.len() - 1, (cursors.last() + 1) as usize)) == pending(
            adjacent,
            cursors,
        ) - 1,
{
    let c2 = cursors.update(cursors.len() - 1, (cursors.last() + 1) as usize);
    assert(c2.drop_last() =~= cursors.drop_last());
}

proof fn lemma_pending_pop(adjacent: Seq<Vec<(EdgeIndex, NodeIndex)>>, cursors: Seq<usize>)
    requires
        adjacent.len() == cursors.len(),
        cursors.len() > 0,
    ensures
        pending(adjacent.drop_last(), cursors.drop_last()) == pending(adjacent, cursors) - (adjacent.last()@.len()
            - cursors.last() + 1),
{
}

/// A frame's state is valid and every step out of the frame's node appears
/// among its entries.
proof fn lemma_state_frames(
    g: GraphModel,
    mask: Seq<bool>,
    dir: Direction,
    starts: Seq<NodeIndex>,
    colors: Seq<u8>,
    nodes: Seq<NodeIndex>,
    adjacent: Seq<Vec<(EdgeIndex, NodeIndex)>>,
    cursors: Seq<usize>,
    ev: Seq<DfsEvent>,
)
    requires
        dfs_state(g, mask, dir, starts, colors, nodes, adjacent, cursors, ev),
    ensures
        forall|j: int| 0 <= j < cursors.len() ==> #[trigger] cursors[j] <= adjacent[j]@.len(),
        pending(adjacent, cursors) >= 0,
{
    assert forall|j: int| 0 <= j < cursors.len() implies #[trigger] cursors[j] <= adjacent[j]@.len() by {
        assert(frame_ok(g, mask, dir, colors, nodes[j], adjacent[j]@, cursors[j]));
    }
    lemma_pending_nonneg(adjacent, cursors);
}

/// Depth-first search from each start in turn that names an undiscovered
/// node, in `direction` along the edges `keep_edge` accepts, reporting each
/// event to `visitor` and stopping at the first event it answers `Break`.
/// Between a node's discovery and its finish, each accepted edge out of it
/// is reported once, as a tree, back or cross/forward edge, in row order:
/// outgoing edges then incoming ones, each in edge order.
/// Returns whether the search ran to its end, and the events in order.
pub fn depth_first_search_filtered<F: Fn(EdgeIndex) -> bool, V: Fn(DfsEvent) -> TraversalControl>(
    graph: &Topology,
    starts: Vec<NodeIndex>,
    direction: Direction,
    workspace: &mut DfsEventWorkspace,
    keep_edge: F,
    visitor: V,
) -> (r: (bool, Vec<DfsEvent>))
    requires
        forall|e: EdgeIndex| call_requires(keep_edge, (e,)),
        forall|ev: DfsEvent| call_requires(visitor, (ev,)),
    ensures
        exists|mask: Seq<bool>|
            answers(keep_edge, graph@, mask) && dfs_outcome(graph@, mask, direction, starts@, visitor, r.0, r.1@),
{
    let mask = edge_mask(graph, &keep_edge);
    let outcome = search_masked(graph, starts, direction, workspace, &mask, visitor);
    outcome
}

/// Depth-first search along outgoing edges; see `depth_first_search_filtered`.
pub fn depth_first_search<V: Fn(DfsEvent) -> TraversalControl>(
    graph: &Topology,
    starts: Vec<NodeIndex>,
    workspace: &mut DfsEventWorkspace,
    visitor: V,
) -> (r: (bool, Vec<DfsEvent>))
    requires
        forall|ev: DfsEvent| call_requires(visitor, (ev,)),
    ensures
        dfs_outcome(
            graph@,
            crate::algo::reach::all_edges(graph@),
            Direction::Outgoing,
            starts@,
            visitor,
            r.0,
            r.1@,
        ),
{
    let mask = full_mask(graph);
    search_masked(graph, starts, Direction::Outgoing, workspace, &mask, visitor)
}

fn search_masked<V: Fn(DfsEvent) -> TraversalControl>(
    graph: &Topology,
    starts: Vec<NodeIndex>,
    direction: Direction,
    workspace: &mut DfsEventWorkspace,
    mask: &Vec<bool>,
    visitor: V,
) -> (r: (bool, Vec<DfsEvent>))
    requires
        mask@.len() == graph@.edges.len(),
        forall|ev: DfsEvent| call_requires(visitor, (ev,)),
    ensures
        dfs_outcome(graph@, mask@, direction, starts@, visitor, r.0, r.1@),
{
    let ghost g = graph@;
    let ghost sv = starts@;
    let n = graph.node_count();
    workspace.begin(n);
    let mut events: Vec<DfsEvent> = Vec::new();
    proof {
        assert(discoveries(events@) =~= Seq::<int>::empty());
        assert(finishes(events@) =~= Seq::<int>::empty());
        assert(open_stack(events@) =~= Seq::<int>::empty());
        assert(workspace.nodes@.map_values(|x: NodeIndex| x.0 as int) =~= Seq::<int>::empty());
    }
    let mut i: usize = 0;
    while i < starts.len()
        invariant
            g == graph@,
            sv == starts@,
            n == g.node_count,
            mask@.len() == g.edges.len(),
            forall|ev: DfsEvent| call_requires(visitor, (ev,)),
            i <= starts@.len(),
            dfs_state(g, mask@, direction, sv, workspace.colors@, workspace.nodes@, workspace.adjacent@, workspace.cursors@, events@),
            workspace.nodes@.len() == 0,
            rows_reported(g, mask@, direction, workspace.colors@, workspace.nodes@, workspace.adjacent@, workspace.cursors@, events@),
            forall|j: int| 0 <= j < i && 0 <= #[trigger] sv[j].0 < n ==> workspace.colors@[sv[j].0 as int] != 0,
            events@.len() > 0 ==> !(events@.last() is TreeEdge),
            forall|k: int| 0 <= k < events@.len() ==> call_ensures(visitor, (#[trigger] events@[k],), TraversalControl::Continue),
        decreases starts@.len() - i,
    {
        let root = starts[i];
        if root.index() < n && workspace.colors[root.index()] == 0 {
            proof {
                lemma_reach_self(g, mask@, direction, root.0 as int);
                assert(walkable(g, mask@, direction, sv[i as int].0 as int, root.0 as int));
                assert(reached_from(g, mask@, direction, sv, root.0 as int));
            }
            let adj = adjacency(graph, root, direction, mask);
            let ghost c0 = workspace.colors@;
            let ghost e0 = events@;
            proof {
                lemma_discover(g, mask@, direction, sv, c0, workspace.nodes@, workspace.adjacent@, workspace.cursors@, e0, root, adj);
                lemma_push(g, mask@, direction, e0, DfsEvent::Discover(root));
                lemma_whites_update(c0, root.0 as int, 1);
            }
            workspace.colors.set(root.index(), 1);
            events.push(DfsEvent::Discover(root));
            let answer = visitor(DfsEvent::Discover(root));
            if answer == TraversalControl::Break {
                return (false, events);
            }
            let ghost nodes_r = workspace.nodes@;
            let ghost adj_r = workspace.adjacent@;
            let ghost cur_r = workspace.cursors@;
            workspace.nodes.push(root);
            workspace.adjacent.push(adj);
            workspace.cursors.push(0);
            proof {
                assert(events@.last() == DfsEvent::Discover(root));
                lemma_rows_discover(g, mask@, direction, c0, nodes_r, adj_r, cur_r, e0, root, adj);
            }
            while workspace.nodes.len() > 0
                invariant
                    g == graph@,
                    sv == starts@,
                    n == g.node_count,
                    mask@.len() == g.edges.len(),
                    forall|ev: DfsEvent| call_requires(visitor, (ev,)),
                    i < starts@.len(),
                    dfs_state(g, mask@, direction, sv, workspace.colors@, workspace.nodes@, workspace.adjacent@, workspace.cursors@, events@),
                    rows_reported(g, mask@, direction, workspace.colors@, workspace.nodes@, workspace.adjacent@, workspace.cursors@, events@),
                    forall|j: int| 0 <= j <= i && 0 <= #[trigger] sv[j].0 < n ==> workspace.colors@[sv[j].0 as int] != 0,
                    events@.len() > 0 ==> !(events@.last() is TreeEdge),
                    forall|k: int| 0 <= k < events@.len() ==> call_ensures(visitor, (#[trigger] events@[k],), TraversalControl::Continue),
                decreases whites(workspace.colors@), pending(workspace.adjacent@, workspace.cursors@),
            {
                let ghost c0 = workspace.colors@;
                let ghost e0 = events@;
                let ghost nodes0 = workspace.nodes@;
                let ghost adj0 = workspace.adjacent@;
                let ghost cur0 = workspace.cursors@;
                proof {
                    lemma_state_frames(g, mask@, direction, sv, c0, nodes0, adj0, cur0, e0);
                }
                let top = workspace.nodes.len() - 1;
                let next = workspace.cursors[top];
                if next < workspace.adjacent[top].len() {
                    let entry = workspace.adjacent[top][next];
                    let edge = entry.0;
                    let target = entry.1;
                    let source = workspace.nodes[top];
                    proof {
                        assert(frame_ok(g, mask@, direction, c0, nodes0[top as int], adj0[top as int]@, cur0[top as int]));
                        assert(follows(g, mask@, direction, edge.0 as int, source.0 as int, target.0 as int));
                        assert(step(g, mask@, direction, source.0 as int, target.0 as int));
                        lemma_step_in_range(g, mask@, direction, source.0 as int, target.0 as int);
                        assert(c0[source.0 as int] == 1);
                        assert(open_after(e0, source.0 as int));
                        assert(nodes0.map_values(|x: NodeIndex| x.0 as int)[top as int] == source.0 as int);
                        assert(open_stack(e0).last() == source.0 as int);
                        assert(reported(e0, source.0 as int) == adj0[top as int]@.take(next as int));
                        assert(adj0[top as int]@ == edge_row(g, mask@, direction, source.0 as int));
                        assert(next_in_row(g, mask@, direction, e0, edge, source, target));
                    }
                    let color = workspace.colors[target.index()];
                    if color == 0 {
                        let event = DfsEvent::TreeEdge { edge, source, target };
                        proof {
                            assert(event_fits(g, mask@, direction, e0, event));
                            lemma_edge_event(g, mask@, direction, sv, c0, nodes0, adj0, cur0, e0, event);
                            lemma_push(g, mask@, direction, e0, event);
                        }
                        events.push(event);
                        let answer = visitor(event);
                        if answer == TraversalControl::Break {
                            return (false, events);
                        }
                        let ghost e1 = events@;
                        proof {
                            lemma_rows_edge(g, mask@, direction, c0, nodes0, adj0, cur0, e0, event);
                        }
                        proof {
                            assert(reached_from(g, mask@, direction, sv, source.0 as int));
                            lemma_reached_step(g, mask@, direction, sv, source.0 as int, target.0 as int);
                        }
                        let adj = adjacency(graph, target, direction, mask);
                        proof {
                            lemma_discover(g, mask@, direction, sv, c0, nodes0, adj0, cur0, e1, target, adj);
                            lemma_push(g, mask@, direction, e1, DfsEvent::Discover(target));
                            lemma_whites_update(c0, target.0 as int, 1);
                        }
                        workspace.colors.set(target.index(), 1);
                        events.push(DfsEvent::Discover(target));
                        let answer = visitor(DfsEvent::Discover(target));
                        if answer == TraversalControl::Break {
                            return (false, events);
                        }
                        workspace.nodes.push(target);
                        workspace.adjacent.push(adj);
                        workspace.cursors.push(0);
                        proof {
                            let c1 = c0.update(target.0 as int, 1);
                            assert(workspace.adjacent@[top as int] == adj0[top as int]);
                            assert(workspace.cursors@[top as int] == next);
                            lemma_advance(
                                g,
                                mask@,
                                direction,
                                sv,
                                c1,
                                workspace.nodes@,
                                workspace.adjacent@,
                                workspace.cursors@,
                                events@,
                                top as int,
                            );
                        }
                        workspace.cursors.set(top, next + 1);
                        proof {
                            assert(workspace.colors@ == c0.update(target.0 as int, 1));
                            assert(whites(workspace.colors@) < whites(c0));
                            let cur1 = cur0.update(cur0.len() - 1, (cur0.last() + 1) as usize);
                            lemma_rows_discover(g, mask@, direction, c0, nodes0, adj0, cur1, e1, target, adj);
                            assert(workspace.cursors@ =~= cur1.push(0));
                        }
                    } else {
                        let event = if color == 1 {
                            DfsEvent::BackEdge { edge, source, target }
                        } else {
                            DfsEvent::CrossForwardEdge { edge, source, target }
                        };
                        proof {
                            assert(c0[target.0 as int] <= 2);
                            assert(event_fits(g, mask@, direction, e0, event));
                            lemma_edge_event(g, mask@, direction, sv, c0, nodes0, adj0, cur0, e0, event);
                            lemma_push(g, mask@, direction, e0, event);
                        }
                        events.push(event);
                        let answer = visitor(event);
                        if answer == TraversalControl::Break {
                            return (false, events);
                        }
                        proof {
                            lemma_advance(g, mask@, direction, sv, c0, nodes0, adj0, cur0, events@, top as int);
                            lemma_pending_step(adj0, cur0);
                            lemma_rows_edge(g, mask@, direction, c0, nodes0, adj0, cur0, e0, event);
                        }
                        workspace.cursors.set(top, next + 1);
                        proof {
                            assert(workspace.cursors@ == cur0.update(cur0.len() - 1, (cur0.last() + 1) as usize));
                            lemma_state_frames(g, mask@, direction, sv, workspace.colors@, workspace.nodes@, workspace.adjacent@, workspace.cursors@, events@);
                            assert(pending(workspace.adjacent@, workspace.cursors@) < pending(adj0, cur0));
                        }
                    }
                } else {
                    let v = workspace.nodes[top];
                    proof {
                        assert(frame_ok(g, mask@, direction, c0, nodes0[top as int], adj0[top as int]@, cur0[top as int]));
                        assert(reported(e0, v.0 as int) == adj0[top as int]@.take(next as int));
                        assert(adj0[top as int]@.take(next as int) =~= adj0[top as int]@);
                        lemma_finish(g, mask@, direction, sv, c0, nodes0, adj0, cur0, e0);
                        lemma_rows_finish(g, mask@, direction, c0, nodes0, adj0, cur0, e0);
                        lemma_push(g, mask@, direction, e0, DfsEvent::Finish(v));
                        lemma_pending_pop(adj0, cur0);
                        lemma_whites_update(c0, v.0 as int, 2);
                        assert(c0[v.0 as int] == 1);
                    }
                    workspace.nodes.pop();
                    workspace.adjacent.pop();
                    workspace.cursors.pop();
                    workspace.colors.set(v.index(), 2);
                    events.push(DfsEvent::Finish(v));
                    proof {
                        assert(workspace.nodes@ =~= nodes0.drop_last());
                        assert(workspace.adjacent@ =~= adj0.drop_last());
                        assert(workspace.cursors@ =~= cur0.drop_last());
                    }
                    let answer = visitor(DfsEvent::Finish(v));
                    if answer == TraversalControl::Break {
                        return (false, events);
                    }
                    proof {
                        lemma_state_frames(g, mask@, direction, sv, workspace.colors@, workspace.nodes@, workspace.adjacent@, workspace.cursors@, events@);
                        assert(whites(workspace.colors@) == whites(c0));
                        assert(pending(workspace.adjacent@, workspace.cursors@) < pending(adj0, cur0));
                    }
                }
            }
        }
        i = i + 1;
    }
    proof {
        lemma_complete(g, mask@, direction, sv, workspace.colors@, workspace.nodes@, workspace.adjacent@, workspace.cursors@, events@);
    }
    (true, events)
}

} // verus!
