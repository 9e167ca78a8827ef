use super::reach::{
    answers, lemma_closed_holds_reachable, lemma_distinct_bounded, lemma_node_ints_drop_last,
    lemma_node_ints_push, lemma_reach_self, lemma_reach_step, lemma_step_in_range, node_ints,
    search_result, step, walkable, Direction,
};
use super::traversal::{edge_mask, expand, full_mask};
use crate::topology::{EdgeIndex, GraphModel, NodeIndex, Topology};
use vstd::prelude::*;

verus! {

/// Reusable mark, queue and stack storage for lazy traversals.
pub struct TraversalWorkspace {
    seen: Vec<bool>,
    queue: Vec<NodeIndex>,
    stack: Vec<NodeIndex>,
    scratch: Vec<NodeIndex>,
}

impl View for TraversalWorkspace {
    type V = (Seq<bool>, Seq<NodeIndex>, Seq<NodeIndex>, Seq<NodeIndex>);

    /// The marks, the queue, the stack and the scratch list.
    closed spec fn view(&self) -> Self::V {
        (self.seen@, self.queue@, self.stack@, self.scratch@)
    }
}

impl TraversalWorkspace {
    /// An empty workspace.
    pub fn new() -> (r: Self)
        ensures
            r@ == (Seq::<bool>::empty(), Seq::<NodeIndex>::empty(), Seq::<NodeIndex>::empty(), Seq::<
                NodeIndex,
            >::empty()),
    {
        TraversalWorkspace { seen: Vec::new(), queue: Vec::new(), stack: Vec::new(), scratch: Vec::new() }
    }

    /// Clears every mark for `n` slots and empties the queue and stacks.
    fn begin(&mut self, n: usize)
        ensures
            final(self).seen@ == Seq::new(n as nat, |v: int| false),
            final(self).queue@.len() == 0,
            final(self).stack@.len() == 0,
            final(self).scratch@.len() == 0,
    {
        self.seen = crate::util::filled_vec(false, n);
        self.queue.clear();
        self.stack.clear();
        self.scratch.clear();
    }
}

/// `order` is in breadth-first order: each node after the first is found
/// from the earliest node before it with a step to it, and nodes are found
/// in the order of the nodes they are found from.
pub open spec fn bfs_order(g: GraphModel, mask: Seq<bool>, dir: Direction, order: Seq<int>) -> bool {
    exists|parent: Seq<int>|
        {
            &&& parent.len() == order.len()
            &&& forall|j: int|
                1 <= j < order.len() ==> {
                    &&& 0 <= #[trigger] parent[j] < j
                    &&& step(g, mask, dir, order[parent[j]], order[j])
                    &&& forall|i: int| 0 <= i < parent[j] ==> !step(g, mask, dir, #[trigger] order[i], order[j])
                }
            &&& forall|j: int, k: int| 1 <= j < k < order.len() ==> #[trigger] parent[j] <= #[trigger] parent[k]
        }
}

/// `order` is in depth-first order: each node after the first is found
/// from the earliest node before it with a step to it, and a node found
/// from `order[p]` comes out only after every node found from a later
/// node that comes out before it: the last found is the first out.
pub open spec fn dfs_order(g: GraphModel, mask: Seq<bool>, dir: Direction, order: Seq<int>) -> bool {
    exists|parent: Seq<int>|
        {
            &&& parent.len() == order.len()
            &&& forall|j: int|
                1 <= j < order.len() ==> {
                    &&& 0 <= #[trigger] parent[j] < j
                    &&& step(g, mask, dir, order[parent[j]], order[j])
                    &&& forall|i: int| 0 <= i < parent[j] ==> !step(g, mask, dir, #[trigger] order[i], order[j])
                }
            &&& forall|j: int, k: int|
                1 <= j < k < order.len() && #[trigger] parent[k] < j ==> parent[k] <= #[trigger] parent[j]
        }
}

/// A lazy breadth-first traversal along the edges that a mask accepts.
pub struct Bfs<'g> {
    graph: &'g Topology,
    workspace: TraversalWorkspace,
    direction: Direction,
    mask: Vec<bool>,
    start: NodeIndex,
    head: usize,
    parents: Ghost<Seq<int>>,
}

impl<'g> Bfs<'g> {
    /// The traversal state: the queue holds, without repetition, the nodes
    /// found so far, all reachable; the first `head` of them are emitted,
    /// and every step out of an emitted node leads to a found node.
    pub closed spec fn inv(&self) -> bool {
        let g = self.graph@;
        let n = g.node_count;
        let s = self.start.0 as int;
        &&& g.valid()
        &&& n <= u32::MAX
        &&& self.mask@.len() == g.edges.len()
        &&& if 0 <= s < n {
            &&& self.workspace.seen@.len() == n
            &&& self.workspace.queue@.len() >= 1
            &&& self.workspace.queue@[0] == self.start
            &&& self.head <= self.workspace.queue@.len()
            &&& forall|i: int| 0 <= i < self.workspace.queue@.len() ==> 0 <= #[trigger] self.workspace.queue@[i].0 < n
            &&& forall|i: int, j: int| 0 <= i < j < self.workspace.queue@.len() ==> self.workspace.queue@[i] != self.workspace.queue@[j]
            &&& forall|v: int|
            0 <= v < n ==> (#[trigger] self.workspace.seen@[v] <==> exists|i: int|
                0 <= i < self.workspace.queue@.len() && self.workspace.queue@[i].0 == v)
            &&& forall|i: int|
            0 <= i < self.workspace.queue@.len() ==> walkable(g, self.mask@, self.direction, s, #[trigger] self.workspace.queue@[i].0 as int)
            &&& forall|i: int, w: int|
            0 <= i < self.head && #[trigger] step(g, self.mask@, self.direction, self.workspace.queue@[i].0 as int, w)
                ==> self.workspace.seen@[w]
            &&& self.parents@.len() == self.workspace.queue@.len()
            &&& forall|j: int|
                1 <= j < self.workspace.queue@.len() ==> {
                    &&& 0 <= #[trigger] self.parents@[j] < j
                    &&& self.parents@[j] < self.head
                    &&& step(
                        g,
                        self.mask@,
                        self.direction,
                        self.workspace.queue@[self.parents@[j]].0 as int,
                        self.workspace.queue@[j].0 as int,
                    )
                    &&& forall|i: int|
                        0 <= i < self.parents@[j] ==> !step(
                            g,
                            self.mask@,
                            self.direction,
                            #[trigger] self.workspace.queue@[i].0 as int,
                            self.workspace.queue@[j].0 as int,
                        )
                }
            &&& forall|j: int, k: int|
                1 <= j < k < self.workspace.queue@.len() ==> #[trigger] self.parents@[j] <= #[trigger] self.parents@[k]
        } else {
            &&& self.workspace.queue@.len() == 0
            &&& self.head == 0
        }
    }

    /// The traversed graph.
    pub closed spec fn model(&self) -> GraphModel {
        self.graph@
    }

    /// Which edges the traversal follows.
    pub closed spec fn accepted(&self) -> Seq<bool> {
        self.mask@
    }

    /// The direction edges are followed in.
    pub closed spec fn heading(&self) -> Direction {
        self.direction
    }

    /// The position of the start node.
    pub closed spec fn origin(&self) -> int {
        self.start.0 as int
    }

    /// The nodes emitted so far, in order.
    pub closed spec fn emitted(&self) -> Seq<NodeIndex> {
        self.workspace.queue@.subrange(0, self.head as int)
    }

    fn begin(
        graph: &'g Topology,
        start: NodeIndex,
        direction: Direction,
        workspace: TraversalWorkspace,
        mask: Vec<bool>,
    ) -> (r: Self)
        requires
            mask@.len() == graph@.edges.len(),
        ensures
            r.inv(),
            r.model() == graph@,
            r.accepted() == mask@,
            r.heading() == direction,
            r.origin() == start.0,
            r.emitted().len() == 0,
    {
        let n = graph.node_count();
        let mut workspace = workspace;
        workspace.begin(n);
        if start.index() < n {
            workspace.seen.set(start.index(), true);
            workspace.queue.push(start);
        }
        let ghost parents = if (start.0 as int) < n { seq![0int] } else { Seq::<int>::empty() };
        let r = Bfs { graph, workspace, direction, mask, start, head: 0, parents: Ghost(parents) };
        proof {
            let g = graph@;
            let s = start.0 as int;
            if 0 <= s < n {
                lemma_reach_self(g, r.mask@, direction, s);
                assert forall|v: int| 0 <= v < n implies (#[trigger] r.workspace.seen@[v] <==> exists|i: int|
                    0 <= i < r.workspace.queue@.len() && r.workspace.queue@[i].0 == v) by {
                    if v == s {
                        assert(r.workspace.queue@[0].0 == v);
                    }
                }
            }
            assert(r.emitted() =~= Seq::<NodeIndex>::empty());
        }
        r
    }

    /// A breadth-first traversal from `start` along outgoing edges.
    pub fn new(graph: &'g Topology, start: NodeIndex, workspace: TraversalWorkspace) -> (r: Self)
        ensures
            r.inv(),
            r.model() == graph@,
            r.accepted() == crate::algo::reach::all_edges(graph@),
            r.heading() == Direction::Outgoing,
            r.origin() == start.0,
            r.emitted().len() == 0,
    {
        let mask = full_mask(graph);
        Self::begin(graph, start, Direction::Outgoing, workspace, mask)
    }

    /// A breadth-first traversal from `start` in `direction` along the
    /// edges that `keep_edge` accepts; `keep_edge` is asked once per edge.
    pub fn filtered<F: Fn(EdgeIndex) -> bool>(
        graph: &'g Topology,
        start: NodeIndex,
        direction: Direction,
        workspace: TraversalWorkspace,
        keep_edge: F,
    ) -> (r: Self)
        requires
            forall|e: EdgeIndex| call_requires(keep_edge, (e,)),
        ensures
            r.inv(),
            r.model() == graph@,
            answers(keep_edge, graph@, r.accepted()),
            r.heading() == direction,
            r.origin() == start.0,
            r.emitted().len() == 0,
    {
        let mask = edge_mask(graph, &keep_edge);
        Self::begin(graph, start, direction, workspace, mask)
    }

    /// The next node in breadth-first order; `None` once every reachable
    /// node has been emitted.
    pub fn next(&mut self) -> (r: Option<NodeIndex>)
        requires
            old(self).inv(),
        ensures
            final(self).inv(),
            final(self).model() == old(self).model(),
            final(self).accepted() == old(self).accepted(),
            final(self).heading() == old(self).heading(),
            final(self).origin() == old(self).origin(),
            final(self).emitted().len() <= final(self).model().node_count,
            match r {
                Some(v) => {
                    &&& final(self).emitted() == old(self).emitted().push(v)
                    &&& !node_ints(old(self).emitted()).contains(v.0 as int)
                    &&& walkable(old(self).model(), old(self).accepted(), old(self).heading(), old(self).origin(), v.0 as int)
                },
                None => final(self).emitted() == old(self).emitted() && search_result(
                    old(self).model(),
                    old(self).accepted(),
                    old(self).heading(),
                    old(self).origin(),
                    node_ints(old(self).emitted()),
                ) && bfs_order(old(self).model(), old(self).accepted(), old(self).heading(), node_ints(old(self).emitted())),
            },
    {
        let ghost g = self.graph@;
        let ghost s = self.start.0 as int;
        let n = self.graph.node_count();
        if self.head >= self.workspace.queue.len() {
            proof {
                if 0 <= s < n {
                    assert(self.emitted() =~= self.workspace.queue@);
                    self.lemma_bounded();
            let ints = node_ints(self.workspace.queue@);
            let set = Set::new(|v: int| 0 <= v < n && self.workspace.seen@[v]);
            assert forall|u: int, w: int| set.contains(u) && #[trigger] step(g, self.mask@, self.direction, u, w)
                implies set.contains(w) by {
                lemma_step_in_range(g, self.mask@, self.direction, u, w);
                let i = choose|i: int| 0 <= i < self.workspace.queue@.len() && self.workspace.queue@[i].0 == u;
                assert(step(g, self.mask@, self.direction, self.workspace.queue@[i].0 as int, w));
            }
            assert forall|v: int| #[trigger] ints.contains(v) <==> walkable(g, self.mask@, self.direction, s, v) by {
                if ints.contains(v) {
                    let i = choose|i: int| 0 <= i < ints.len() && ints[i] == v;
                    assert(walkable(g, self.mask@, self.direction, s, self.workspace.queue@[i].0 as int));
                }
                if walkable(g, self.mask@, self.direction, s, v) {
                    assert(set.contains(s)) by {
                        assert(self.workspace.queue@[0].0 == s);
                    }
                    lemma_closed_holds_reachable(g, self.mask@, self.direction, s, v, set);
                    let i = choose|i: int| 0 <= i < self.workspace.queue@.len() && self.workspace.queue@[i].0 == v;
                    assert(ints[i] == v);
                }
            }
            assert(ints.no_duplicates()) by {
                assert forall|i: int, j: int|
                    0 <= i < ints.len() && 0 <= j < ints.len() && i != j implies ints[i] != ints[j] by {
                    if i < j {
                        assert(self.workspace.queue@[i] != self.workspace.queue@[j]);
                    } else {
                        assert(self.workspace.queue@[j] != self.workspace.queue@[i]);
                    }
                }
            }
                } else {
                    assert(node_ints(self.emitted()).len() == 0);
                }
            }
            return None;
        }
        let ghost before = self.emitted();
        let ghost old_queue = self.workspace.queue@;
        proof {
            assert(node_ints(self.workspace.queue@).no_duplicates()) by {
                assert forall|i: int, j: int|
                    0 <= i < node_ints(self.workspace.queue@).len() && 0 <= j < node_ints(self.workspace.queue@).len() && i != j
                    implies node_ints(self.workspace.queue@)[i] != node_ints(self.workspace.queue@)[j] by {
                    if i < j {
                        assert(self.workspace.queue@[i] != self.workspace.queue@[j]);
                    } else {
                        assert(self.workspace.queue@[j] != self.workspace.queue@[i]);
                    }
                }
            }
            lemma_distinct_bounded(node_ints(self.workspace.queue@), n as int);
        }
        let node = self.workspace.queue[self.head];
        let ghost old_visited = self.workspace.queue@;
        let ghost old_seen = self.workspace.seen@;
        expand(self.graph, node, self.direction, &self.mask, &mut self.workspace.seen, &mut self.workspace.queue);
        proof {
            assert forall|i: int| 0 <= i < self.workspace.queue@.len() implies 0 <= #[trigger] self.workspace.queue@[i].0 < n by {
                if i < old_visited.len() {
                    assert(self.workspace.queue@.subrange(0, old_visited.len() as int)[i] == old_visited[i]);
                }
            }
            assert forall|i: int, j: int| 0 <= i < j < self.workspace.queue@.len() implies self.workspace.queue@[i]
                != self.workspace.queue@[j] by {
                if j < old_visited.len() {
                    assert(self.workspace.queue@.subrange(0, old_visited.len() as int)[i] == old_visited[i]);
                    assert(self.workspace.queue@.subrange(0, old_visited.len() as int)[j] == old_visited[j]);
                } else if i < old_visited.len() {
                    assert(self.workspace.queue@.subrange(0, old_visited.len() as int)[i] == old_visited[i]);
                    assert(old_seen[old_visited[i].0 as int]);
                }
            }
            assert forall|v: int| 0 <= v < n implies (#[trigger] self.workspace.seen@[v] <==> exists|i: int|
                0 <= i < self.workspace.queue@.len() && self.workspace.queue@[i].0 == v) by {
                if exists|i: int| 0 <= i < old_visited.len() && old_visited[i].0 == v {
                    let i = choose|i: int| 0 <= i < old_visited.len() && old_visited[i].0 == v;
                    assert(self.workspace.queue@.subrange(0, old_visited.len() as int)[i] == old_visited[i]);
                }
                if exists|i: int| 0 <= i < self.workspace.queue@.len() && self.workspace.queue@[i].0 == v {
                    let i = choose|i: int| 0 <= i < self.workspace.queue@.len() && self.workspace.queue@[i].0 == v;
                    if i < old_visited.len() {
                        assert(self.workspace.queue@.subrange(0, old_visited.len() as int)[i] == old_visited[i]);
                    }
                }
            }
            assert forall|i: int| 0 <= i < self.workspace.queue@.len() implies walkable(
                g,
                self.mask@,
                self.direction,
                s,
                #[trigger] self.workspace.queue@[i].0 as int,
            ) by {
                if i < old_visited.len() {
                    assert(self.workspace.queue@.subrange(0, old_visited.len() as int)[i] == old_visited[i]);
                } else {
                    assert(walkable(g, self.mask@, self.direction, s, node.0 as int));
                    lemma_reach_step(g, self.mask@, self.direction, s, node.0 as int, self.workspace.queue@[i].0 as int);
                }
            }
            assert forall|i: int, w: int|
                0 <= i < self.head + 1 && #[trigger] step(g, self.mask@, self.direction, self.workspace.queue@[i].0 as int, w)
                implies self.workspace.seen@[w] by {
                lemma_step_in_range(g, self.mask@, self.direction, self.workspace.queue@[i].0 as int, w);
                assert(self.workspace.queue@.subrange(0, old_visited.len() as int)[i] == old_visited[i]);
                if i < self.head {
                    assert(old_seen[w]);
                }
            }
            assert(self.workspace.queue@[0] == self.start) by {
                assert(self.workspace.queue@.subrange(0, old_visited.len() as int)[0] == old_visited[0]);
            }
        }
        proof {
            let h = self.head as int;
            let q = self.workspace.queue@;
            let old_parents = self.parents@;
            let grown = old_parents + Seq::new((q.len() - old_visited.len()) as nat, |i: int| h);
            self.parents = Ghost(grown);
            assert forall|j: int| 1 <= j < q.len() implies {
                &&& 0 <= #[trigger] grown[j] < j
                &&& grown[j] < h + 1
                &&& step(g, self.mask@, self.direction, q[grown[j]].0 as int, q[j].0 as int)
                &&& forall|i: int| 0 <= i < grown[j] ==> !step(g, self.mask@, self.direction, #[trigger] q[i].0 as int, q[j].0 as int)
            } by {
                if j < old_visited.len() {
                    assert(grown[j] == old_parents[j]);
                    assert(q.subrange(0, old_visited.len() as int)[j] == old_visited[j]);
                    assert(q.subrange(0, old_visited.len() as int)[old_parents[j]] == old_visited[old_parents[j]]);
                    assert forall|i: int| 0 <= i < grown[j] implies !step(g, self.mask@, self.direction, #[trigger] q[i].0 as int, q[j].0 as int) by {
                        assert(q.subrange(0, old_visited.len() as int)[i] == old_visited[i]);
                    }
                } else {
                    assert(grown[j] == h);
                    assert(q.subrange(0, old_visited.len() as int)[h] == old_visited[h]);
                    assert(!old_seen[q[j].0 as int]);
                    assert forall|i: int| 0 <= i < grown[j] implies !step(g, self.mask@, self.direction, #[trigger] q[i].0 as int, q[j].0 as int) by {
                        assert(q.subrange(0, old_visited.len() as int)[i] == old_visited[i]);
                        if step(g, self.mask@, self.direction, old_visited[i].0 as int, q[j].0 as int) {
                            assert(old_seen[q[j].0 as int]);
                        }
                    }
                }
            }
            assert forall|j: int, k: int| 1 <= j < k < q.len() implies #[trigger] grown[j] <= #[trigger] grown[k] by {
                if k < old_visited.len() {
                } else if j < old_visited.len() {
                    assert(grown[j] == old_parents[j]);
                    assert(old_parents[j] < h);
                }
            }
        }
        self.head = self.head + 1;
        proof {
            assert(self.workspace.queue@.subrange(0, old_queue.len() as int) == old_queue);
            assert(self.emitted() =~= before.push(node)) by {
                assert forall|i: int| 0 <= i < before.len() implies self.emitted()[i] == before[i] by {
                    assert(self.workspace.queue@.subrange(0, old_queue.len() as int)[i] == old_queue[i]);
                }
            }
            assert(!node_ints(before).contains(node.0 as int)) by {
                if node_ints(before).contains(node.0 as int) {
                    let i = choose|i: int| 0 <= i < before.len() && node_ints(before)[i] == node.0 as int;
                    assert(old_queue[i] == before[i]);
                    assert(old_queue[i] != old_queue[self.head - 1]);
                }
            }
            self.lemma_bounded();
        }
        Some(node)
    }

    proof fn lemma_bounded(&self)
        requires
            self.inv(),
        ensures
            self.emitted().len() <= self.workspace.queue@.len() <= self.graph@.node_count,
    {
        let g = self.graph@;
        let n = g.node_count;
        let q = self.workspace.queue@;
        if 0 <= self.start.0 < n {
            assert(node_ints(q).no_duplicates()) by {
                assert forall|i: int, j: int|
                    0 <= i < node_ints(q).len() && 0 <= j < node_ints(q).len() && i != j
                    implies node_ints(q)[i] != node_ints(q)[j] by {
                    if i < j {
                        assert(q[i] != q[j]);
                    } else {
                        assert(q[j] != q[i]);
                    }
                }
            }
            assert forall|i: int| 0 <= i < node_ints(q).len() implies 0 <= #[trigger] node_ints(q)[i] < n by {
                assert(0 <= q[i].0 < n);
            }
            lemma_distinct_bounded(node_ints(q), n as int);
        }
    }

    /// The storage the traversal works in: its marks, the nodes found so
    /// far in order, the unused stack and scratch list.
    pub closed spec fn storage(&self) -> (Seq<bool>, Seq<NodeIndex>, Seq<NodeIndex>, Seq<NodeIndex>) {
        self.workspace@
    }

    /// Ends the traversal and hands back its workspace.
    pub fn into_workspace(self) -> (r: TraversalWorkspace)
        ensures
            r@ == self.storage(),
    {
        self.workspace
    }
}

/// A lazy depth-first traversal along the edges that a mask accepts; a
/// node's neighbors are explored in adjacency order.
pub struct Dfs<'g> {
    graph: &'g Topology,
    workspace: TraversalWorkspace,
    direction: Direction,
    mask: Vec<bool>,
    start: NodeIndex,
    visited: Ghost<Seq<NodeIndex>>,
    parents: Ghost<Seq<int>>,
    pushers: Ghost<Seq<int>>,
}

impl<'g> Dfs<'g> {
    /// The traversal state: emitted and stacked nodes are distinct, marked,
    /// and reachable; every step out of an emitted node leads to a marked
    /// node.
    pub closed spec fn inv(&self) -> bool {
        let g = self.graph@;
        let n = g.node_count;
        let s = self.start.0 as int;
        &&& g.valid()
        &&& n <= u32::MAX
        &&& self.mask@.len() == g.edges.len()
        &&& if 0 <= s < n {
            &&& self.workspace.seen@.len() == n
            &&& self.visited@.len() == 0 ==> node_ints(self.workspace.stack@) == seq![s]
            &&& self.visited@.len() > 0 ==> self.visited@[0] == self.start
            &&& node_ints(self.visited@).no_duplicates()
            &&& node_ints(self.workspace.stack@).no_duplicates()
            &&& forall|v: int|
            !(#[trigger] node_ints(self.visited@).contains(v) && node_ints(self.workspace.stack@).contains(v))
            &&& forall|v: int|
            0 <= v < n ==> (#[trigger] self.workspace.seen@[v] <==> (node_ints(self.visited@).contains(v)
                || node_ints(self.workspace.stack@).contains(v)))
            &&& forall|v: int|
            #[trigger] node_ints(self.visited@).contains(v) ==> 0 <= v < n && walkable(
                g,
                self.mask@,
                self.direction,
                s,
                v,
            )
            &&& forall|v: int|
            #[trigger] node_ints(self.workspace.stack@).contains(v) ==> 0 <= v < n && walkable(
                g,
                self.mask@,
                self.direction,
                s,
                v,
            )
            &&& forall|v: int, w: int|
            #[trigger] node_ints(self.visited@).contains(v) && #[trigger] step(g, self.mask@, self.direction, v, w)
                ==> self.workspace.seen@[w]
            &&& self.search_tree()
        } else {
            &&& self.workspace.stack@.len() == 0
            &&& self.visited@.len() == 0
            &&& self.parents@.len() == 0
        }
    }

    /// Each emitted node after the first was found from the earliest
    /// emitted node with a step to it; each waiting node likewise from an
    /// emitted one, later waiting nodes from later emitted ones; and every
    /// node emitted after a waiting node was found comes from at least as
    /// late an emitted node.
    closed spec fn search_tree(&self) -> bool {
        let g = self.graph@;
        let vi = node_ints(self.visited@);
        let si = node_ints(self.workspace.stack@);
        let par = self.parents@;
        let push = self.pushers@;
        &&& par.len() == vi.len()
        &&& push.len() == si.len()
        &&& forall|j: int|
            1 <= j < vi.len() ==> {
                &&& 0 <= #[trigger] par[j] < j
                &&& step(g, self.mask@, self.direction, vi[par[j]], vi[j])
                &&& forall|i: int| 0 <= i < par[j] ==> !step(g, self.mask@, self.direction, #[trigger] vi[i], vi[j])
            }
        &&& forall|j: int, k: int| 1 <= j < k < vi.len() && #[trigger] par[k] < j ==> par[k] <= #[trigger] par[j]
        &&& vi.len() > 0 ==> forall|q: int|
            0 <= q < si.len() ==> {
                &&& 0 <= #[trigger] push[q] < vi.len()
                &&& step(g, self.mask@, self.direction, vi[push[q]], si[q])
                &&& forall|i: int| 0 <= i < push[q] ==> !step(g, self.mask@, self.direction, #[trigger] vi[i], si[q])
            }
        &&& forall|q1: int, q2: int| 0 <= q1 < q2 < si.len() ==> #[trigger] push[q1] <= #[trigger] push[q2]
        &&& forall|q: int, j: int|
            0 <= q < si.len() && 1 <= j < vi.len() && #[trigger] push[q] < j ==> push[q] <= #[trigger] par[j]
    }

    /// The emitted nodes are in depth-first order.
    proof fn lemma_order(&self)
        requires
            self.inv(),
        ensures
            dfs_order(self.graph@, self.mask@, self.direction, node_ints(self.visited@)),
    {
        let s = self.start.0 as int;
        if 0 <= s < self.graph@.node_count {
            assert(self.search_tree());
            let par = self.parents@;
            let vi = node_ints(self.visited@);
            assert(par.len() == vi.len());
        } else {
            assert(node_ints(self.visited@) =~= Seq::<int>::empty());
            assert(self.parents@.len() == 0);
        }
        let par = self.parents@;
        assert(par.len() == node_ints(self.visited@).len());
    }

    /// The traversed graph.
    pub closed spec fn model(&self) -> GraphModel {
        self.graph@
    }

    /// Which edges the traversal follows.
    pub closed spec fn accepted(&self) -> Seq<bool> {
        self.mask@
    }

    /// The direction edges are followed in.
    pub closed spec fn heading(&self) -> Direction {
        self.direction
    }

    /// The position of the start node.
    pub closed spec fn origin(&self) -> int {
        self.start.0 as int
    }

    /// The nodes emitted so far, in order.
    pub closed spec fn emitted(&self) -> Seq<NodeIndex> {
        self.visited@
    }

    fn begin(
        graph: &'g Topology,
        start: NodeIndex,
        direction: Direction,
        workspace: TraversalWorkspace,
        mask: Vec<bool>,
    ) -> (r: Self)
        requires
            mask@.len() == graph@.edges.len(),
        ensures
            r.inv(),
            r.model() == graph@,
            r.accepted() == mask@,
            r.heading() == direction,
            r.origin() == start.0,
            r.emitted().len() == 0,
    {
        let n = graph.node_count();
        let mut workspace = workspace;
        workspace.begin(n);
        if start.index() < n {
            workspace.seen.set(start.index(), true);
            workspace.stack.push(start);
        }
        let ghost pushers = if (start.0 as int) < n { seq![0int] } else { Seq::<int>::empty() };
        let r = Dfs {
            graph,
            workspace,
            direction,
            mask,
            start,
            visited: Ghost(Seq::empty()),
            parents: Ghost(Seq::empty()),
            pushers: Ghost(pushers),
        };
        proof {
            let g = graph@;
            let s = start.0 as int;
            if 0 <= s < n {
            lemma_reach_self(g, r.mask@, r.direction, s);
            lemma_node_ints_push(Seq::empty(), r.start);
            assert(node_ints(r.visited@) =~= Seq::empty());
            assert(node_ints(r.workspace.stack@) =~= seq![s]);
            assert forall|v: int| 0 <= v < n implies (#[trigger] r.workspace.seen@[v] <==> (node_ints(
                r.visited@,
            ).contains(v) || node_ints(r.workspace.stack@).contains(v))) by {
                if v == s {
                    assert(node_ints(r.workspace.stack@)[0] == s);
                }
            }
            }
        }
        r
    }

    /// A depth-first traversal from `start` along outgoing edges.
    pub fn new(graph: &'g Topology, start: NodeIndex, workspace: TraversalWorkspace) -> (r: Self)
        ensures
            r.inv(),
            r.model() == graph@,
            r.accepted() == crate::algo::reach::all_edges(graph@),
            r.heading() == Direction::Outgoing,
            r.origin() == start.0,
            r.emitted().len() == 0,
    {
        let mask = full_mask(graph);
        Self::begin(graph, start, Direction::Outgoing, workspace, mask)
    }

    /// A depth-first traversal from `start` in `direction` along the edges
    /// that `keep_edge` accepts; `keep_edge` is asked once per edge.
    pub fn filtered<F: Fn(EdgeIndex) -> bool>(
        graph: &'g Topology,
        start: NodeIndex,
        direction: Direction,
        workspace: TraversalWorkspace,
        keep_edge: F,
    ) -> (r: Self)
        requires
            forall|e: EdgeIndex| call_requires(keep_edge, (e,)),
        ensures
            r.inv(),
            r.model() == graph@,
            answers(keep_edge, graph@, r.accepted()),
            r.heading() == direction,
            r.origin() == start.0,
            r.emitted().len() == 0,
    {
        let mask = edge_mask(graph, &keep_edge);
        Self::begin(graph, start, direction, workspace, mask)
    }

    /// The next node in depth-first preorder; `None` once every reachable
    /// node has been emitted.
    pub fn next(&mut self) -> (r: Option<NodeIndex>)
        requires
            old(self).inv(),
        ensures
            final(self).inv(),
            final(self).model() == old(self).model(),
            final(self).accepted() == old(self).accepted(),
            final(self).heading() == old(self).heading(),
            final(self).origin() == old(self).origin(),
            final(self).emitted().len() <= final(self).model().node_count,
            dfs_order(final(self).model(), final(self).accepted(), final(self).heading(), node_ints(final(self).emitted())),
            match r {
                Some(v) => {
                    &&& final(self).emitted() == old(self).emitted().push(v)
                    &&& !node_ints(old(self).emitted()).contains(v.0 as int)
                    &&& walkable(old(self).model(), old(self).accepted(), old(self).heading(), old(self).origin(), v.0 as int)
                },
                None => final(self).emitted() == old(self).emitted() && search_result(
                    old(self).model(),
                    old(self).accepted(),
                    old(self).heading(),
                    old(self).origin(),
                    node_ints(old(self).emitted()),
                ),
            },
    {
        let ghost g = self.graph@;
        let ghost s = self.start.0 as int;
        let n = self.graph.node_count();
        if self.workspace.stack.len() == 0 {
            proof {
                if 0 <= s < n {
            let vi = node_ints(self.visited@);
            assert(node_ints(self.workspace.stack@).len() == 0);
            assert(self.visited@.len() > 0);
            let set = Set::new(|v: int| 0 <= v < n && self.workspace.seen@[v]);
            assert forall|u: int, w: int| set.contains(u) && #[trigger] step(g, self.mask@, self.direction, u, w)
                implies set.contains(w) by {
                lemma_step_in_range(g, self.mask@, self.direction, u, w);
                assert(vi.contains(u));
            }
            assert forall|v: int| #[trigger] vi.contains(v) <==> walkable(g, self.mask@, self.direction, s, v) by {
                if walkable(g, self.mask@, self.direction, s, v) {
                    assert(vi[0] == s);
                    assert(set.contains(s));
                    lemma_closed_holds_reachable(g, self.mask@, self.direction, s, v, set);
                }
            }
                    self.lemma_bounded();
                } else {
                    assert(node_ints(self.emitted()).len() == 0);
                }
            }
            proof {
                self.lemma_order();
            }
            return None;
        }
        proof {
            if !(0 <= s < n) {
                assert(false);
            }
        }
        let ghost old_stack = self.workspace.stack@;
        let ghost old_visited = self.visited@;
        let ghost old_pushers = self.pushers@;
        let ghost old_parents = self.parents@;
        let ghost prior = *self;
        let node = self.workspace.stack.pop().unwrap();
        proof {
            lemma_node_ints_drop_last(old_stack);
            assert(node_ints(old_stack).contains(node.0 as int)) by {
                assert(node_ints(old_stack)[old_stack.len() - 1] == node.0 as int);
            }
            assert(node_ints(self.workspace.stack@).no_duplicates());
        }
        self.visited = Ghost(self.visited@.push(node));
        self.parents = Ghost(old_parents.push(if old_visited.len() == 0 { 0int } else { old_pushers.last() }));
        self.pushers = Ghost(old_pushers.drop_last());
        proof {
            lemma_node_ints_push(old_visited, node);
            let vi = node_ints(self.visited@);
            assert(vi.no_duplicates()) by {
                assert(!node_ints(old_visited).contains(node.0 as int));
                assert forall|i: int, j: int| 0 <= i < vi.len() && 0 <= j < vi.len() && i != j implies vi[i]
                    != vi[j] by {
                    if i == vi.len() - 1 {
                        assert(node_ints(old_visited)[j] == vi[j]);
                    } else if j == vi.len() - 1 {
                        assert(node_ints(old_visited)[i] == vi[i]);
                    }
                }
            }
            assert forall|i: int| 0 <= i < vi.len() implies 0 <= #[trigger] vi[i] < n by {
                assert(vi.contains(vi[i]));
                if i < vi.len() - 1 {
                    assert(node_ints(old_visited).contains(vi[i]));
                }
            }
            lemma_distinct_bounded(vi, n as int);
            assert forall|v: int| #[trigger] node_ints(self.workspace.stack@).contains(v) implies node_ints(
                old_stack,
            ).contains(v) && v != node.0 as int by {
                let i = choose|i: int| 0 <= i < node_ints(self.workspace.stack@).len() && node_ints(self.workspace.stack@)[i] == v;
                assert(node_ints(old_stack)[i] == v);
                if v == node.0 as int {
                    assert(node_ints(old_stack)[old_stack.len() - 1] == v);
                }
            }
            assert forall|v: int| #[trigger] vi.contains(v) implies node_ints(old_visited).contains(v)
                || v == node.0 as int by {
                let i = choose|i: int| 0 <= i < vi.len() && vi[i] == v;
                if i < vi.len() - 1 {
                    assert(node_ints(old_visited)[i] == v);
                }
            }
            assert forall|v: int| node_ints(old_stack).contains(v) implies #[trigger] node_ints(
                self.workspace.stack@,
            ).contains(v) || v == node.0 as int by {
                let i = choose|i: int| 0 <= i < old_stack.len() && node_ints(old_stack)[i] == v;
                if i < old_stack.len() - 1 {
                    assert(node_ints(self.workspace.stack@)[i] == v);
                }
            }
            assert(vi.contains(node.0 as int)) by {
                assert(vi[vi.len() - 1] == node.0 as int);
            }
            assert forall|v: int| node_ints(old_visited).contains(v) implies #[trigger] vi.contains(v) by {
                let i = choose|i: int| 0 <= i < old_visited.len() && node_ints(old_visited)[i] == v;
                assert(vi[i] == v);
            }
        }
        self.workspace.scratch.clear();
        let ghost pre_seen = self.workspace.seen@;
        let ghost pre_stack = self.workspace.stack@;
        proof {
            assert(self.workspace.scratch@ =~= Seq::<NodeIndex>::empty());
        }
        expand(self.graph, node, self.direction, &self.mask, &mut self.workspace.seen, &mut self.workspace.scratch);
        let ghost found = self.workspace.scratch@;
        let mut stack: Vec<NodeIndex> = Vec::new();
        std::mem::swap(&mut stack, &mut self.workspace.stack);
        let mut k: usize = self.workspace.scratch.len();
        while k > 0
            invariant
                k <= found.len(),
                self.workspace.scratch@ == found,
                n == g.node_count,
                pre_seen.len() == n,
                forall|i: int| 0 <= i < found.len() ==> 0 <= #[trigger] found[i].0 < n && !pre_seen[found[i].0 as int],
                forall|i: int, j: int| 0 <= i < j < found.len() ==> found[i] != found[j],
                forall|v: int| 0 <= v < n && #[trigger] node_ints(pre_stack).contains(v) ==> pre_seen[v],
                node_ints(pre_stack).no_duplicates(),
                node_ints(stack@).no_duplicates(),
                forall|v: int|
                    #[trigger] node_ints(stack@).contains(v) <==> (node_ints(pre_stack).contains(v)
                        || exists|i: int| k <= i < found.len() && found[i].0 == v),
                stack@.len() == pre_stack.len() + found.len() - k,
                forall|q: int| 0 <= q < pre_stack.len() ==> #[trigger] stack@[q] == pre_stack[q],
                forall|t: int|
                    0 <= t < found.len() - k ==> #[trigger] stack@[pre_stack.len() + t] == found[found.len() - 1 - t],
            decreases k,
        {
            let next = self.workspace.scratch[k - 1];
            let ghost before = stack@;
            stack.push(next);
            proof {
                lemma_node_ints_push(before, next);
                let si = node_ints(stack@);
                assert(!node_ints(before).contains(next.0 as int)) by {
                    if node_ints(before).contains(next.0 as int) {
                        if node_ints(pre_stack).contains(next.0 as int) {
                            assert(pre_seen[next.0 as int]);
                        } else {
                            let i = choose|i: int| k <= i < found.len() && found[i].0 == next.0;
                            assert(found[i] == next);
                        }
                    }
                }
                assert(si.no_duplicates()) by {
                    assert forall|i: int, j: int| 0 <= i < si.len() && 0 <= j < si.len() && i != j implies si[i]
                        != si[j] by {
                        if i == si.len() - 1 {
                            assert(node_ints(before)[j] == si[j]);
                            assert(node_ints(before).contains(si[j]));
                        } else if j == si.len() - 1 {
                            assert(node_ints(before)[i] == si[i]);
                            assert(node_ints(before).contains(si[i]));
                        } else {
                            assert(node_ints(before)[i] == si[i]);
                            assert(node_ints(before)[j] == si[j]);
                        }
                    }
                }
                assert forall|v: int| #[trigger] si.contains(v) <==> (node_ints(pre_stack).contains(v)
                    || exists|i: int| k - 1 <= i < found.len() && found[i].0 == v) by {
                    if si.contains(v) {
                        let i = choose|i: int| 0 <= i < si.len() && si[i] == v;
                        if i < si.len() - 1 {
                            assert(node_ints(before)[i] == v);
                            assert(node_ints(before).contains(v));
                        } else {
                            assert(found[k - 1].0 == v);
                        }
                    }
                    if exists|i: int| k - 1 <= i < found.len() && found[i].0 == v {
                        let i = choose|i: int| k - 1 <= i < found.len() && found[i].0 == v;
                        if i == k - 1 {
                            assert(si[si.len() - 1] == v);
                        } else {
                            assert(node_ints(before).contains(v));
                            let j = choose|j: int| 0 <= j < before.len() && node_ints(before)[j] == v;
                            assert(si[j] == v);
                        }
                    }
                    if node_ints(pre_stack).contains(v) {
                        assert(node_ints(before).contains(v));
                        let j = choose|j: int| 0 <= j < before.len() && node_ints(before)[j] == v;
                        assert(si[j] == v);
                    }
                }
            }
            k = k - 1;
        }
        std::mem::swap(&mut stack, &mut self.workspace.stack);
        let ghost top = old_visited.len() as int;
        self.pushers = Ghost(self.pushers@ + Seq::new(found.len(), |t: int| top));
        proof {
            self.lemma_grown_tree(prior, pre_stack, found, node);
        }
        proof {
            let vi = node_ints(self.visited@);
            let si = node_ints(self.workspace.stack@);
            assert forall|v: int| 0 <= v < n implies (#[trigger] self.workspace.seen@[v] <==> (vi.contains(v)
                || si.contains(v))) by {
                if exists|i: int| 0 <= i < found.len() && found[i].0 == v {
                    let i = choose|i: int| 0 <= i < found.len() && found[i].0 == v;
                    assert(found.subrange(0, 0) =~= Seq::<NodeIndex>::empty());
                }
            }
            assert forall|v: int| !(#[trigger] vi.contains(v) && si.contains(v)) by {
                if vi.contains(v) && si.contains(v) {
                    if node_ints(pre_stack).contains(v) {
                    } else {
                        let i = choose|i: int| 0 <= i < found.len() && found[i].0 == v;
                        assert(pre_seen[v]);
                    }
                }
            }
            assert forall|v: int| #[trigger] vi.contains(v) implies 0 <= v < n && walkable(
                g,
                self.mask@,
                self.direction,
                s,
                v,
            ) by {}
            assert forall|v: int| #[trigger] si.contains(v) implies 0 <= v < n && walkable(
                g,
                self.mask@,
                self.direction,
                s,
                v,
            ) by {
                if !node_ints(pre_stack).contains(v) {
                    let i = choose|i: int| 0 <= i < found.len() && found[i].0 == v;
                    assert(step(g, self.mask@, self.direction, node.0 as int, v));
                    assert(node_ints(old_stack).contains(node.0 as int));
                    lemma_reach_step(g, self.mask@, self.direction, s, node.0 as int, v);
                }
            }
            assert forall|v: int, w: int| #[trigger] vi.contains(v) && #[trigger] step(
                g,
                self.mask@,
                self.direction,
                v,
                w,
            ) implies self.workspace.seen@[w] by {
                lemma_step_in_range(g, self.mask@, self.direction, v, w);
                if v != node.0 as int {
                    assert(node_ints(old_visited).contains(v));
                    assert(pre_seen[w]);
                }
            }
            assert(self.visited@[0] == self.start) by {
                if old_visited.len() == 0 {
                    assert(node_ints(old_stack) == seq![s]);
                    assert(node.0 as int == s);
                } else {
                    assert(self.visited@[0] == old_visited[0]);
                }
            }
        }
        proof {
            self.lemma_bounded();
            self.lemma_order();
        }
        Some(node)
    }

    /// Emitting the top of the stack and pushing the nodes first found from
    /// it keeps the search tree.
    proof fn lemma_grown_tree(&self, prior: Self, pre_stack: Seq<NodeIndex>, found: Seq<NodeIndex>, node: NodeIndex)
        requires
            prior.inv(),
            0 <= prior.start.0 < prior.graph@.node_count,
            self.graph@ == prior.graph@,
            self.mask@ == prior.mask@,
            self.direction == prior.direction,
            prior.workspace.stack@.len() > 0,
            node == prior.workspace.stack@.last(),
            pre_stack == prior.workspace.stack@.drop_last(),
            self.visited@ == prior.visited@.push(node),
            self.parents@ == prior.parents@.push(
                if prior.visited@.len() == 0 {
                    0int
                } else {
                    prior.pushers@.last()
                },
            ),
            self.pushers@ == prior.pushers@.drop_last() + Seq::new(found.len(), |t: int| prior.visited@.len() as int),
            self.workspace.stack@.len() == pre_stack.len() + found.len(),
            forall|q: int| 0 <= q < pre_stack.len() ==> #[trigger] self.workspace.stack@[q] == pre_stack[q],
            forall|t: int|
                0 <= t < found.len() ==> #[trigger] self.workspace.stack@[pre_stack.len() + t] == found[found.len() - 1 - t],
            forall|i: int|
                0 <= i < found.len() ==> 0 <= #[trigger] found[i].0 < prior.graph@.node_count && !prior.workspace.seen@[found[i].0 as int]
                    && step(prior.graph@, prior.mask@, prior.direction, node.0 as int, found[i].0 as int),
        ensures
            self.search_tree(),
    {
        let g = self.graph@;
        let mask = self.mask@;
        let dir = self.direction;
        assert(prior.search_tree());
        let ovi = node_ints(prior.visited@);
        let osi = node_ints(prior.workspace.stack@);
        let opar = prior.parents@;
        let opush = prior.pushers@;
        let vi = node_ints(self.visited@);
        let si = node_ints(self.workspace.stack@);
        let par = self.parents@;
        let push = self.pushers@;
        let l = ovi.len() as int;
        let p = pre_stack.len() as int;
        lemma_node_ints_push(prior.visited@, node);
        assert(vi.len() == l + 1);
        assert(osi[p] == node.0 as int);
        assert forall|i: int| 0 <= i < l implies #[trigger] vi[i] == ovi[i] by {}
        assert(vi[l] == node.0 as int);
        assert forall|q: int| 0 <= q < p implies #[trigger] si[q] == osi[q] && push[q] == opush[q] by {
            assert(self.workspace.stack@[q] == pre_stack[q]);
        }
        assert forall|q: int| p <= q < si.len() implies push[q] == l && #[trigger] si[q] == found[found.len() - 1 - (q - p)].0 as int
            && step(g, mask, dir, node.0 as int, si[q]) && !prior.workspace.seen@[si[q]] by {
            assert(self.workspace.stack@[p + (q - p)] == found[found.len() - 1 - (q - p)]);
        }
        if l > 0 {
            assert(0 <= opush[p] < l);
        } else {
            assert(osi =~= seq![prior.start.0 as int]);
        }
        assert forall|j: int| 1 <= j < vi.len() implies {
            &&& 0 <= #[trigger] par[j] < j
            &&& step(g, mask, dir, vi[par[j]], vi[j])
            &&& forall|i: int| 0 <= i < par[j] ==> !step(g, mask, dir, #[trigger] vi[i], vi[j])
        } by {
            if j < l {
                assert(par[j] == opar[j]);
                assert(vi[par[j]] == ovi[par[j]]);
                assert forall|i: int| 0 <= i < par[j] implies !step(g, mask, dir, #[trigger] vi[i], vi[j]) by {
                    assert(vi[i] == ovi[i]);
                }
            } else {
                assert(par[j] == opush[p]);
                assert(vi[par[j]] == ovi[par[j]]);
                assert forall|i: int| 0 <= i < par[j] implies !step(g, mask, dir, #[trigger] vi[i], vi[j]) by {
                    assert(vi[i] == ovi[i]);
                }
            }
        }
        assert forall|j: int, k: int| 1 <= j < k < vi.len() && #[trigger] par[k] < j implies par[k] <= #[trigger] par[j] by {
            assert(par[j] == opar[j]);
            if k < l {
                assert(par[k] == opar[k]);
            } else {
                assert(par[k] == opush[p]);
            }
        }
        assert forall|q: int| 0 <= q < si.len() implies {
            &&& 0 <= #[trigger] push[q] < vi.len()
            &&& step(g, mask, dir, vi[push[q]], si[q])
            &&& forall|i: int| 0 <= i < push[q] ==> !step(g, mask, dir, #[trigger] vi[i], si[q])
        } by {
            if q < p {
                assert(l > 0);
                assert(vi[push[q]] == ovi[push[q]]);
                assert forall|i: int| 0 <= i < push[q] implies !step(g, mask, dir, #[trigger] vi[i], si[q]) by {
                    assert(vi[i] == ovi[i]);
                }
            } else {
                assert forall|i: int| 0 <= i < push[q] implies !step(g, mask, dir, #[trigger] vi[i], si[q]) by {
                    assert(vi[i] == ovi[i]);
                    assert(ovi.contains(ovi[i]));
                    if step(g, mask, dir, vi[i], si[q]) {
                        assert(prior.workspace.seen@[si[q]]);
                    }
                }
            }
        }
        assert forall|q1: int, q2: int| 0 <= q1 < q2 < si.len() implies #[trigger] push[q1] <= #[trigger] push[q2] by {
            if q2 < p {
            } else if q1 < p {
                assert(l > 0);
                assert(opush[q1] < l);
            }
        }
        assert forall|q: int, j: int| 0 <= q < si.len() && 1 <= j < vi.len() && #[trigger] push[q] < j implies push[q]
            <= #[trigger] par[j] by {
            if q < p {
                if j < l {
                    assert(par[j] == opar[j]);
                } else {
                    assert(par[j] == opush[p]);
                }
            }
        }
    }

    proof fn lemma_bounded(&self)
        requires
            self.inv(),
        ensures
            self.emitted().len() <= self.graph@.node_count,
    {
        let n = self.graph@.node_count;
        let vi = node_ints(self.visited@);
        if 0 <= self.start.0 < n {
            assert forall|i: int| 0 <= i < vi.len() implies 0 <= #[trigger] vi[i] < n by {
                assert(vi.contains(vi[i]));
            }
            lemma_distinct_bounded(vi, n as int);
        }
    }

    /// The storage the traversal works in: its marks, the unused queue, the
    /// stack of nodes waiting and the scratch list.
    pub closed spec fn storage(&self) -> (Seq<bool>, Seq<NodeIndex>, Seq<NodeIndex>, Seq<NodeIndex>) {
        self.workspace@
    }

    /// Ends the traversal and hands back its workspace.
    pub fn into_workspace(self) -> (r: TraversalWorkspace)
        ensures
            r@ == self.storage(),
    {
        self.workspace
    }
}

/// A breadth-first traversal from `start` along outgoing edges.
pub fn bfs_iter<'g>(graph: &'g Topology, start: NodeIndex, workspace: TraversalWorkspace) -> (r: Bfs<'g>)
    ensures
        r.inv(),
        r.model() == graph@,
        r.accepted() == crate::algo::reach::all_edges(graph@),
        r.heading() == Direction::Outgoing,
        r.origin() == start.0,
        r.emitted().len() == 0,
{
    Bfs::new(graph, start, workspace)
}

/// A breadth-first traversal from `start` in `direction` along the edges
/// that `keep_edge` accepts.
pub fn bfs_iter_filtered<'g, F: Fn(EdgeIndex) -> bool>(
    graph: &'g Topology,
    start: NodeIndex,
    direction: Direction,
    workspace: TraversalWorkspace,
    keep_edge: F,
) -> (r: Bfs<'g>)
    requires
        forall|e: EdgeIndex| call_requires(keep_edge, (e,)),
    ensures
        r.inv(),
        r.model() == graph@,
        answers(keep_edge, graph@, r.accepted()),
        r.heading() == direction,
        r.origin() == start.0,
        r.emitted().len() == 0,
{
    Bfs::filtered(graph, start, direction, workspace, keep_edge)
}

/// A depth-first traversal from `start` along outgoing edges.
pub fn dfs_iter<'g>(graph: &'g Topology, start: NodeIndex, workspace: TraversalWorkspace) -> (r: Dfs<'g>)
    ensures
        r.inv(),
        r.model() == graph@,
        r.accepted() == crate::algo::reach::all_edges(graph@),
        r.heading() == Direction::Outgoing,
        r.origin() == start.0,
        r.emitted().len() == 0,
{
    Dfs::new(graph, start, workspace)
}

/// A depth-first traversal from `start` in `direction` along the edges
/// that `keep_edge` accepts.
pub fn dfs_iter_filtered<'g, F: Fn(EdgeIndex) -> bool>(
    graph: &'g Topology,
    start: NodeIndex,
    direction: Direction,
    workspace: TraversalWorkspace,
    keep_edge: F,
) -> (r: Dfs<'g>)
    requires
        forall|e: EdgeIndex| call_requires(keep_edge, (e,)),
    ensures
        r.inv(),
        r.model() == graph@,
        answers(keep_edge, graph@, r.accepted()),
        r.heading() == direction,
        r.origin() == start.0,
        r.emitted().len() == 0,
{
    Dfs::filtered(graph, start, direction, workspace, keep_edge)
}

/// Breadth-first order of the nodes reachable from `start` along the edges
/// that `mask` accepts.
pub(crate) fn breadth_first(graph: &Topology, start: NodeIndex, direction: Direction, mask: &Vec<bool>) -> (r:
    Vec<NodeIndex>)
    requires
        mask@.len() == graph@.edges.len(),
    ensures
        search_result(graph@, mask@, direction, start.0 as int, node_ints(r@)),
        bfs_order(graph@, mask@, direction, node_ints(r@)),
{
    let own = crate::util::copied(mask.as_slice());
    let mut walk = Bfs::begin(graph, start, direction, TraversalWorkspace::new(), own);
    let mut out: Vec<NodeIndex> = Vec::new();
    let n = graph.node_count();
    loop
        invariant
            walk.inv(),
            walk.model() == graph@,
            walk.accepted() == mask@,
            walk.heading() == direction,
            walk.origin() == start.0,
            out@ == walk.emitted(),
            n == graph@.node_count,
            out@.len() <= n,
        ensures
            search_result(graph@, mask@, direction, start.0 as int, node_ints(out@)),
            bfs_order(graph@, mask@, direction, node_ints(out@)),
        decreases n - out@.len(),
    {
        match walk.next() {
            Some(v) => {
                out.push(v);
            },
            None => {
                break;
            },
        }
    }
    out
}

/// Depth-first preorder of the nodes reachable from `start` along the edges
/// that `mask` accepts.
pub(crate) fn depth_first(graph: &Topology, start: NodeIndex, direction: Direction, mask: &Vec<bool>) -> (r:
    Vec<NodeIndex>)
    requires
        mask@.len() == graph@.edges.len(),
    ensures
        search_result(graph@, mask@, direction, start.0 as int, node_ints(r@)),
        dfs_order(graph@, mask@, direction, node_ints(r@)),
{
    let own = crate::util::copied(mask.as_slice());
    let mut walk = Dfs::begin(graph, start, direction, TraversalWorkspace::new(), own);
    let mut out: Vec<NodeIndex> = Vec::new();
    let n = graph.node_count();
    loop
        invariant
            walk.inv(),
            walk.model() == graph@,
            walk.accepted() == mask@,
            walk.heading() == direction,
            walk.origin() == start.0,
            out@ == walk.emitted(),
            n == graph@.node_count,
            out@.len() <= n,
            dfs_order(graph@, mask@, direction, node_ints(out@)),
        ensures
            search_result(graph@, mask@, direction, start.0 as int, node_ints(out@)),
            dfs_order(graph@, mask@, direction, node_ints(out@)),
        decreases n - out@.len(),
    {
        match walk.next() {
            Some(v) => {
                out.push(v);
            },
            None => {
                break;
            },
        }
    }
    out
}

} // verus!
