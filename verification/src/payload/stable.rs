use super::directed::{payload_build, PayloadGraph};
use super::frozen::{FrozenPayloadGraph, PayloadFreezeMap};
use super::acyclic::{
    acyclic, arc, carries, lemma_closed_set_holds, lemma_distinct_slots, lemma_reaches_self, lemma_reaches_step, reaches,
    slot_opt,
};
use super::keys::{StableEdgeKey, StableNodeKey};
use crate::error::{GraphError, Result};
use crate::topology::{EdgeEndpoints, EdgeIndex, NodeIndex};
use vstd::prelude::*;

verus! {

/// One node slot: its generation, its payload while live, and the edge
/// slots that leave and enter it, most recently linked first.
pub struct NodeCell<N> {
    pub generation: u32,
    pub value: Option<N>,
    pub outgoing: Seq<u32>,
    pub incoming: Seq<u32>,
}

/// One edge slot: its generation, its payload while live, and its endpoint
/// node slots.
pub struct EdgeCell<E> {
    pub generation: u32,
    pub value: Option<E>,
    pub source: u32,
    pub target: u32,
}

/// The abstract content of a stable payload graph: its slots and the free
/// slots that the next additions reuse, last freed first.
#[verifier::ext_equal]
pub struct StableModel<N, E> {
    pub nodes: Seq<NodeCell<N>>,
    pub edges: Seq<EdgeCell<E>>,
    pub free_nodes: Seq<u32>,
    pub free_edges: Seq<u32>,
}

/// How many node slots hold a payload.
pub open spec fn live_nodes<N>(cells: Seq<NodeCell<N>>) -> nat
    decreases cells.len(),
{
    if cells.len() == 0 {
        0
    } else {
        live_nodes(cells.drop_last()) + if cells.last().value is Some {
            1nat
        } else {
            0nat
        }
    }
}

/// How many edge slots hold a payload.
pub open spec fn live_edges<E>(cells: Seq<EdgeCell<E>>) -> nat
    decreases cells.len(),
{
    if cells.len() == 0 {
        0
    } else {
        live_edges(cells.drop_last()) + if cells.last().value is Some {
            1nat
        } else {
            0nat
        }
    }
}

impl<N, E> StableModel<N, E> {
    /// Node slot `v` holds a payload.
    pub open spec fn node_live(self, v: int) -> bool {
        0 <= v < self.nodes.len() && self.nodes[v].value is Some
    }

    /// Edge slot `x` holds a payload.
    pub open spec fn edge_live(self, x: int) -> bool {
        0 <= x < self.edges.len() && self.edges[x].value is Some
    }

    /// `key` names a live node in its current generation.
    pub open spec fn has_node(self, key: StableNodeKey) -> bool {
        self.node_live(key.slot as int) && self.nodes[key.slot as int].generation == key.generation
    }

    /// `key` names a live edge in its current generation.
    pub open spec fn has_edge(self, key: StableEdgeKey) -> bool {
        self.edge_live(key.slot as int) && self.edges[key.slot as int].generation == key.generation
    }

    /// The key of node slot `v` in its current generation.
    pub open spec fn node_key(self, v: int) -> StableNodeKey {
        StableNodeKey { slot: v as u32, generation: self.nodes[v].generation }
    }

    /// The key of edge slot `x` in its current generation.
    pub open spec fn edge_key(self, x: int) -> StableEdgeKey {
        StableEdgeKey { slot: x as u32, generation: self.edges[x].generation }
    }

    /// Slots fit `u32`; live edges join live nodes; each node lists, once,
    /// exactly the live edges that leave it and those that enter it; free
    /// slots are distinct and empty.
    pub open spec fn wf(self) -> bool {
        &&& self.nodes.len() <= u32::MAX + 1
        &&& self.edges.len() <= u32::MAX + 1
        &&& forall|x: int|
            #[trigger] self.edge_live(x) ==> self.node_live(self.edges[x].source as int) && self.node_live(
                self.edges[x].target as int,
            )
        &&& forall|v: int| 0 <= v < self.nodes.len() ==> (#[trigger] self.nodes[v]).outgoing.no_duplicates()
        &&& forall|v: int| 0 <= v < self.nodes.len() ==> (#[trigger] self.nodes[v]).incoming.no_duplicates()
        &&& forall|v: int, x: u32|
            0 <= v < self.nodes.len() && #[trigger] self.nodes[v].outgoing.contains(x) ==> self.edge_live(x as int)
                && self.edges[x as int].source == v
        &&& forall|v: int, x: u32|
            0 <= v < self.nodes.len() && #[trigger] self.nodes[v].incoming.contains(x) ==> self.edge_live(x as int)
                && self.edges[x as int].target == v
        &&& forall|x: int|
            #[trigger] self.edge_live(x) ==> self.nodes[self.edges[x].source as int].outgoing.contains(x as u32)
                && self.nodes[self.edges[x].target as int].incoming.contains(x as u32)
        &&& self.free_nodes.no_duplicates()
        &&& self.free_edges.no_duplicates()
        &&& forall|i: int|
            0 <= i < self.free_nodes.len() ==> 0 <= #[trigger] self.free_nodes[i] < self.nodes.len()
                && !self.node_live(self.free_nodes[i] as int)
        &&& forall|i: int|
            0 <= i < self.free_edges.len() ==> 0 <= #[trigger] self.free_edges[i] < self.edges.len()
                && !self.edge_live(self.free_edges[i] as int)
    }
}

/// At most every slot is live.
pub proof fn lemma_live_nodes_bound<N>(cells: Seq<NodeCell<N>>)
    ensures
        live_nodes(cells) <= cells.len(),
    decreases cells.len(),
{
    if cells.len() > 0 {
        lemma_live_nodes_bound(cells.drop_last());
    }
}

/// At most every slot is live.
pub proof fn lemma_live_edges_bound<E>(cells: Seq<EdgeCell<E>>)
    ensures
        live_edges(cells) <= cells.len(),
    decreases cells.len(),
{
    if cells.len() > 0 {
        lemma_live_edges_bound(cells.drop_last());
    }
}

/// Cells with the same liveness have the same live count.
pub proof fn lemma_live_nodes_same<N>(a: Seq<NodeCell<N>>, b: Seq<NodeCell<N>>)
    requires
        a.len() == b.len(),
        forall|i: int| 0 <= i < a.len() ==> (#[trigger] a[i].value is Some <==> b[i].value is Some),
    ensures
        live_nodes(a) == live_nodes(b),
    decreases a.len(),
{
    if a.len() > 0 {
        lemma_live_nodes_same(a.drop_last(), b.drop_last());
        assert(a[a.len() - 1].value is Some <==> b[b.len() - 1].value is Some);
    }
}

/// Cells with the same liveness have the same live count.
pub proof fn lemma_live_edges_same<E>(a: Seq<EdgeCell<E>>, b: Seq<EdgeCell<E>>)
    requires
        a.len() == b.len(),
        forall|i: int| 0 <= i < a.len() ==> (#[trigger] a[i].value is Some <==> b[i].value is Some),
    ensures
        live_edges(a) == live_edges(b),
    decreases a.len(),
{
    if a.len() > 0 {
        lemma_live_edges_same(a.drop_last(), b.drop_last());
        assert(a[a.len() - 1].value is Some <==> b[b.len() - 1].value is Some);
    }
}

/// Node cells of any payload types with the same liveness have the same
/// live count.
pub proof fn lemma_live_nodes_same_kinds<N, M>(a: Seq<NodeCell<N>>, b: Seq<NodeCell<M>>)
    requires
        a.len() == b.len(),
        forall|i: int| 0 <= i < a.len() ==> (#[trigger] b[i].value is Some <==> a[i].value is Some),
    ensures
        live_nodes(a) == live_nodes(b),
    decreases a.len(),
{
    if a.len() > 0 {
        lemma_live_nodes_same_kinds(a.drop_last(), b.drop_last());
        assert(b[b.len() - 1].value is Some <==> a[a.len() - 1].value is Some);
    }
}

/// Edge cells of any payload types with the same liveness have the same
/// live count.
pub proof fn lemma_live_edges_same_kinds<E, F>(a: Seq<EdgeCell<E>>, b: Seq<EdgeCell<F>>)
    requires
        a.len() == b.len(),
        forall|i: int| 0 <= i < a.len() ==> (#[trigger] b[i].value is Some <==> a[i].value is Some),
    ensures
        live_edges(a) == live_edges(b),
    decreases a.len(),
{
    if a.len() > 0 {
        lemma_live_edges_same_kinds(a.drop_last(), b.drop_last());
        assert(b[b.len() - 1].value is Some <==> a[a.len() - 1].value is Some);
    }
}

/// A dead slot leaves room below the slot count.
pub proof fn lemma_live_nodes_dead<N>(cells: Seq<NodeCell<N>>, v: int)
    requires
        0 <= v < cells.len(),
        cells[v].value is None,
    ensures
        live_nodes(cells) < cells.len(),
    decreases cells.len(),
{
    if v == cells.len() - 1 {
        lemma_live_nodes_bound(cells.drop_last());
    } else {
        lemma_live_nodes_dead(cells.drop_last(), v);
    }
}

/// A dead slot leaves room below the slot count.
pub proof fn lemma_live_edges_dead<E>(cells: Seq<EdgeCell<E>>, x: int)
    requires
        0 <= x < cells.len(),
        cells[x].value is None,
    ensures
        live_edges(cells) < cells.len(),
    decreases cells.len(),
{
    if x == cells.len() - 1 {
        lemma_live_edges_bound(cells.drop_last());
    } else {
        lemma_live_edges_dead(cells.drop_last(), x);
    }
}

/// Replacing one node cell changes the live count by the change of that
/// cell's liveness.
pub proof fn lemma_live_nodes_update<N>(cells: Seq<NodeCell<N>>, v: int, c: NodeCell<N>)
    requires
        0 <= v < cells.len(),
    ensures
        live_nodes(cells.update(v, c)) + (if cells[v].value is Some { 1int } else { 0int }) == live_nodes(cells) + (
        if c.value is Some { 1int } else { 0int }),
    decreases cells.len(),
{
    let after = cells.update(v, c);
    if v == cells.len() - 1 {
        assert(after.drop_last() =~= cells.drop_last());
    } else {
        lemma_live_nodes_update(cells.drop_last(), v, c);
        assert(after.drop_last() =~= cells.drop_last().update(v, c));
    }
}

/// Replacing one edge cell changes the live count by the change of that
/// cell's liveness.
pub proof fn lemma_live_edges_update<E>(cells: Seq<EdgeCell<E>>, x: int, c: EdgeCell<E>)
    requires
        0 <= x < cells.len(),
    ensures
        live_edges(cells.update(x, c)) + (if cells[x].value is Some { 1int } else { 0int }) == live_edges(cells) + (
        if c.value is Some { 1int } else { 0int }),
    decreases cells.len(),
{
    let after = cells.update(x, c);
    if x == cells.len() - 1 {
        assert(after.drop_last() =~= cells.drop_last());
    } else {
        lemma_live_edges_update(cells.drop_last(), x, c);
        assert(after.drop_last() =~= cells.drop_last().update(x, c));
    }
}

/// A cell pushed after the others adds its liveness to the count.
pub proof fn lemma_live_nodes_push<N>(cells: Seq<NodeCell<N>>, c: NodeCell<N>)
    ensures
        live_nodes(cells.push(c)) == live_nodes(cells) + if c.value is Some { 1nat } else { 0nat },
{
    assert(cells.push(c).drop_last() =~= cells);
}

/// A cell pushed after the others adds its liveness to the count.
pub proof fn lemma_live_edges_push<E>(cells: Seq<EdgeCell<E>>, c: EdgeCell<E>)
    ensures
        live_edges(cells.push(c)) == live_edges(cells) + if c.value is Some { 1nat } else { 0nat },
{
    assert(cells.push(c).drop_last() =~= cells);
}

/// The error for a stale node key.
pub open spec fn stale_node(key: StableNodeKey) -> GraphError {
    GraphError::InvalidStableKey { category: "node", slot: key.slot, generation: key.generation }
}

/// A new node with `payload` in slot `v` of generation `generation`.
pub open spec fn fresh_node<N>(generation: u32, payload: N) -> NodeCell<N> {
    NodeCell { generation, value: Some(payload), outgoing: Seq::empty(), incoming: Seq::empty() }
}

/// A new edge with `payload` from node slot `s` to node slot `t`.
pub open spec fn fresh_edge<E>(generation: u32, payload: E, s: u32, t: u32) -> EdgeCell<E> {
    EdgeCell { generation, value: Some(payload), source: s, target: t }
}

impl<N, E> StableModel<N, E> {
    /// The model with node slot `v` holding `payload`.
    pub open spec fn with_node_value(self, v: int, payload: N) -> Self {
        StableModel { nodes: self.nodes.update(v, NodeCell { value: Some(payload), ..self.nodes[v] }), ..self }
    }

    /// The model with edge slot `x` holding `payload`.
    pub open spec fn with_edge_value(self, x: int, payload: E) -> Self {
        StableModel { edges: self.edges.update(x, EdgeCell { value: Some(payload), ..self.edges[x] }), ..self }
    }

    /// What adding a node with `payload` yields: the last free slot is
    /// reused in its generation, else a new slot of generation zero is
    /// appended while slots fit `u32`.
    pub open spec fn add_node_result(self, payload: N, after: Self, r: Result<StableNodeKey>) -> bool {
        if self.free_nodes.len() > 0 {
            let v = self.free_nodes.last();
            &&& r == Ok::<StableNodeKey, GraphError>(StableNodeKey { slot: v, generation: self.nodes[v as int].generation })
            &&& after == StableModel {
                nodes: self.nodes.update(v as int, fresh_node(self.nodes[v as int].generation, payload)),
                free_nodes: self.free_nodes.drop_last(),
                ..self
            }
        } else if self.nodes.len() > u32::MAX {
            &&& r == Err::<StableNodeKey, GraphError>(GraphError::IndexCapacityExceeded {
                category: "stable payload nodes",
                count: self.nodes.len() as usize,
            })
            &&& after == self
        } else {
            &&& r == Ok::<StableNodeKey, GraphError>(StableNodeKey { slot: self.nodes.len() as u32, generation: 0 })
            &&& after == StableModel { nodes: self.nodes.push(fresh_node(0, payload)), ..self }
        }
    }

    /// What adding an edge between two live nodes yields: the last free
    /// edge slot is reused in its generation, else a new slot is appended
    /// while slots fit `u32`; the edge is linked first in both lists.
    pub open spec fn add_edge_result(
        self,
        source: StableNodeKey,
        target: StableNodeKey,
        payload: E,
        after: Self,
        r: Result<StableEdgeKey>,
    ) -> bool {
        if !self.has_node(source) {
            r == Err::<StableEdgeKey, GraphError>(stale_node(source)) && after == self
        } else if !self.has_node(target) {
            r == Err::<StableEdgeKey, GraphError>(stale_node(target)) && after == self
        } else if self.free_edges.len() == 0 && self.edges.len() > u32::MAX {
            &&& r == Err::<StableEdgeKey, GraphError>(GraphError::IndexCapacityExceeded {
                category: "stable payload edges",
                count: self.edges.len() as usize,
            })
            &&& after == self
        } else {
            let x: u32 = if self.free_edges.len() > 0 { self.free_edges.last() } else { self.edges.len() as u32 };
            let generation: u32 = if self.free_edges.len() > 0 { self.edges[x as int].generation } else { 0 };
            let cell = fresh_edge(generation, payload, source.slot, target.slot);
            let s = source.slot as int;
            let t = target.slot as int;
            let linked_out = self.nodes.update(s, NodeCell { outgoing: seq![x] + self.nodes[s].outgoing, ..self.nodes[s] });
            &&& r == Ok::<StableEdgeKey, GraphError>(StableEdgeKey { slot: x, generation })
            &&& after == StableModel {
                nodes: linked_out.update(t, NodeCell { incoming: seq![x] + linked_out[t].incoming, ..linked_out[t] }),
                edges: if self.free_edges.len() > 0 { self.edges.update(x as int, cell) } else { self.edges.push(cell) },
                free_edges: if self.free_edges.len() > 0 { self.free_edges.drop_last() } else { self.free_edges },
                ..self
            }
        }
    }
}

/// `s` without its occurrences of `x`, in order.
pub open spec fn without(s: Seq<u32>, x: u32) -> Seq<u32>
    decreases s.len(),
{
    if s.len() == 0 {
        s
    } else {
        let rest = without(s.drop_last(), x);
        if s.last() == x {
            rest
        } else {
            rest.push(s.last())
        }
    }
}

/// What `without` keeps, and that it keeps a list repetition-free.
pub proof fn lemma_without(s: Seq<u32>, x: u32)
    ensures
        forall|y: u32| #[trigger] without(s, x).contains(y) <==> (s.contains(y) && y != x),
        s.no_duplicates() ==> without(s, x).no_duplicates(),
        !s.contains(x) ==> without(s, x) == s,
    decreases s.len(),
{
    if s.len() > 0 {
        let p = s.drop_last();
        lemma_without(p, x);
        let rest = without(p, x);
        assert forall|y: u32| #[trigger] without(s, x).contains(y) <==> (s.contains(y) && y != x) by {
            if s.contains(y) && y != x {
                let i = choose|i: int| 0 <= i < s.len() && s[i] == y;
                if i < s.len() - 1 {
                    assert(p[i] == y);
                    assert(rest.contains(y));
                    if s.last() != x {
                        let j = choose|j: int| 0 <= j < rest.len() && rest[j] == y;
                        assert(rest.push(s.last())[j] == y);
                    }
                } else {
                    assert(rest.push(s.last())[rest.len() as int] == y);
                }
            }
            if without(s, x).contains(y) {
                let w = without(s, x);
                let j = choose|j: int| 0 <= j < w.len() && w[j] == y;
                if s.last() != x && j == rest.len() {
                    assert(s[s.len() - 1] == y);
                } else {
                    assert(rest[j] == y);
                    assert(rest.contains(y));
                    let i = choose|i: int| 0 <= i < p.len() && p[i] == y;
                    assert(s[i] == y);
                }
            }
        }
        if s.no_duplicates() {
            assert(p.no_duplicates()) by {
                assert forall|i: int, j: int| 0 <= i < p.len() && 0 <= j < p.len() && i != j implies p[i] != p[j] by {
                    assert(s[i] == p[i] && s[j] == p[j]);
                }
            }
            if s.last() != x {
                assert(!rest.contains(s.last())) by {
                    if rest.contains(s.last()) {
                        assert(p.contains(s.last()));
                        let i = choose|i: int| 0 <= i < p.len() && p[i] == s.last();
                        assert(s[i] == s[s.len() - 1]);
                    }
                }
                let w = rest.push(s.last());
                assert forall|i: int, j: int| 0 <= i < w.len() && 0 <= j < w.len() && i != j implies w[i] != w[j] by {
                    if i == rest.len() {
                        assert(rest.contains(w[j]));
                    } else if j == rest.len() {
                        assert(rest.contains(w[i]));
                    }
                }
            }
        }
        if !s.contains(x) {
            assert(!p.contains(x)) by {
                if p.contains(x) {
                    let i = choose|i: int| 0 <= i < p.len() && p[i] == x;
                    assert(s[i] == x);
                }
            }
            assert(s.last() != x) by {
                assert(s[s.len() - 1] == s.last());
            }
            assert(rest.push(s.last()) =~= s);
        }
    }
}

/// Removing the occurrence at `i` of a repetition-free list is `without`.
pub proof fn lemma_remove_is_without(s: Seq<u32>, i: int)
    requires
        s.no_duplicates(),
        0 <= i < s.len(),
    ensures
        s.remove(i) == without(s, s[i]),
    decreases s.len(),
{
    let x = s[i];
    let p = s.drop_last();
    if i == s.len() - 1 {
        assert(!p.contains(x)) by {
            if p.contains(x) {
                let j = choose|j: int| 0 <= j < p.len() && p[j] == x;
                assert(s[j] == s[i]);
            }
        }
        lemma_without(p, x);
        assert(s.remove(i) =~= p);
    } else {
        assert(p.no_duplicates()) by {
            assert forall|a: int, b: int| 0 <= a < p.len() && 0 <= b < p.len() && a != b implies p[a] != p[b] by {
                assert(s[a] == p[a] && s[b] == p[b]);
            }
        }
        lemma_remove_is_without(p, i);
        assert(s.last() != x) by {
            assert(s[s.len() - 1] != s[i]);
        }
        assert(s.remove(i) =~= p.remove(i).push(s.last()));
    }
}

impl<N, E> StableModel<N, E> {
    /// The model after removing live edge `x`: unlinked from both lists,
    /// payload gone, generation bumped and slot freed unless the
    /// generation is exhausted.
    pub open spec fn drop_edge(self, x: int) -> Self {
        let e = self.edges[x];
        let s = e.source as int;
        let t = e.target as int;
        let n1 = self.nodes.update(s, NodeCell { outgoing: without(self.nodes[s].outgoing, x as u32), ..self.nodes[s] });
        let n2 = n1.update(t, NodeCell { incoming: without(n1[t].incoming, x as u32), ..n1[t] });
        let bump = e.generation < u32::MAX;
        StableModel {
            nodes: n2,
            edges: self.edges.update(
                x,
                EdgeCell { generation: if bump { (e.generation + 1) as u32 } else { e.generation }, value: None, ..e },
            ),
            free_edges: if bump { self.free_edges.push(x as u32) } else { self.free_edges },
            ..self
        }
    }

    /// The model after removing the edges `xs`, in order.
    pub open spec fn drop_edges(self, xs: Seq<u32>) -> Self
        decreases xs.len(),
    {
        if xs.len() == 0 {
            self
        } else {
            self.drop_edges(xs.drop_last()).drop_edge(xs.last() as int)
        }
    }

    /// The model after removing the edgeless live node `v`.
    pub open spec fn drop_node(self, v: int) -> Self {
        let c = self.nodes[v];
        let bump = c.generation < u32::MAX;
        StableModel {
            nodes: self.nodes.update(
                v,
                NodeCell {
                    generation: if bump { (c.generation + 1) as u32 } else { c.generation },
                    value: None,
                    outgoing: Seq::empty(),
                    incoming: Seq::empty(),
                },
            ),
            free_nodes: if bump { self.free_nodes.push(v as u32) } else { self.free_nodes },
            ..self
        }
    }
}

/// Removing a live edge keeps the model well formed and frees one edge.
pub proof fn lemma_drop_edge_wf<N, E>(m: StableModel<N, E>, x: int)
    requires
        m.wf(),
        m.edge_live(x),
    ensures
        m.drop_edge(x).wf(),
        m.drop_edge(x).nodes.len() == m.nodes.len(),
        m.drop_edge(x).edges.len() == m.edges.len(),
        forall|v: int| 0 <= v < m.nodes.len() ==> (#[trigger] m.drop_edge(x).nodes[v]).value == m.nodes[v].value
            && m.drop_edge(x).nodes[v].generation == m.nodes[v].generation,
        forall|y: int| 0 <= y < m.edges.len() && y != x ==> #[trigger] m.drop_edge(x).edges[y] == m.edges[y],
        !m.drop_edge(x).edge_live(x),
        live_nodes(m.drop_edge(x).nodes) == live_nodes(m.nodes),
        live_edges(m.drop_edge(x).edges) + 1 == live_edges(m.edges),
{
    let a = m.drop_edge(x);
    let e = m.edges[x];
    let s = e.source as int;
    let t = e.target as int;
    let xu = x as u32;
    assert(xu as int == x);
    lemma_without(m.nodes[s].outgoing, xu);
    lemma_without(m.nodes[t].incoming, xu);
    assert(m.nodes[s].outgoing.no_duplicates());
    assert(m.nodes[t].incoming.no_duplicates());
    assert forall|v: int| 0 <= v < m.nodes.len() implies (#[trigger] a.nodes[v]).outgoing == (if v == s {
        without(m.nodes[s].outgoing, xu)
    } else {
        m.nodes[v].outgoing
    }) && a.nodes[v].incoming == (if v == t {
        without(m.nodes[t].incoming, xu)
    } else {
        m.nodes[v].incoming
    }) by {}
    assert forall|y: int| #[trigger] a.edge_live(y) implies a.node_live(a.edges[y].source as int) && a.node_live(
        a.edges[y].target as int) by {
        assert(m.edge_live(y));
    }
    assert forall|w: int, y: u32| 0 <= w < a.nodes.len() && #[trigger] a.nodes[w].outgoing.contains(y) implies a.edge_live(
        y as int) && a.edges[y as int].source == w by {
        assert(m.nodes[w].outgoing.contains(y));
    }
    assert forall|w: int, y: u32| 0 <= w < a.nodes.len() && #[trigger] a.nodes[w].incoming.contains(y) implies a.edge_live(
        y as int) && a.edges[y as int].target == w by {
        assert(m.nodes[w].incoming.contains(y));
    }
    assert forall|y: int| #[trigger] a.edge_live(y) implies a.nodes[a.edges[y].source as int].outgoing.contains(y as u32)
        && a.nodes[a.edges[y].target as int].incoming.contains(y as u32) by {
        assert(m.edge_live(y));
        assert(y != x);
        assert(m.nodes[m.edges[y].source as int].outgoing.contains(y as u32));
        assert(m.nodes[m.edges[y].target as int].incoming.contains(y as u32));
        assert((y as u32) != xu);
    }
    assert forall|w: int| 0 <= w < a.nodes.len() implies (#[trigger] a.nodes[w]).outgoing.no_duplicates() by {
        assert(m.nodes[w].outgoing.no_duplicates());
    }
    assert forall|w: int| 0 <= w < a.nodes.len() implies (#[trigger] a.nodes[w]).incoming.no_duplicates() by {
        assert(m.nodes[w].incoming.no_duplicates());
    }
    if e.generation < u32::MAX {
        assert(!m.free_edges.contains(xu)) by {
            if m.free_edges.contains(xu) {
                let i = choose|i: int| 0 <= i < m.free_edges.len() && m.free_edges[i] == xu;
                assert(!m.edge_live(m.free_edges[i] as int));
            }
        }
        assert(a.free_edges.no_duplicates()) by {
            let f = a.free_edges;
            assert forall|i: int, j: int| 0 <= i < f.len() && 0 <= j < f.len() && i != j implies f[i] != f[j] by {
                if i == m.free_edges.len() {
                    assert(m.free_edges.contains(f[j]));
                } else if j == m.free_edges.len() {
                    assert(m.free_edges.contains(f[i]));
                }
            }
        }
    }
    assert forall|i: int| 0 <= i < a.free_edges.len() implies 0 <= #[trigger] a.free_edges[i] < a.edges.len()
        && !a.edge_live(a.free_edges[i] as int) by {
        if i < m.free_edges.len() {
            assert(a.free_edges[i] == m.free_edges[i]);
        }
    }
    assert forall|i: int| 0 <= i < a.free_nodes.len() implies 0 <= #[trigger] a.free_nodes[i] < a.nodes.len()
        && !a.node_live(a.free_nodes[i] as int) by {
        assert(a.free_nodes[i] == m.free_nodes[i]);
    }
    lemma_live_nodes_same(m.nodes, a.nodes);
    lemma_live_edges_update(m.edges, x, a.edges[x]);
}

/// Removing an edgeless live node keeps the model well formed.
pub proof fn lemma_drop_node_wf<N, E>(m: StableModel<N, E>, v: int)
    requires
        m.wf(),
        m.node_live(v),
        m.nodes[v].outgoing.len() == 0,
        m.nodes[v].incoming.len() == 0,
    ensures
        m.drop_node(v).wf(),
        live_nodes(m.drop_node(v).nodes) + 1 == live_nodes(m.nodes),
        live_edges(m.drop_node(v).edges) == live_edges(m.edges),
{
    let a = m.drop_node(v);
    let vu = v as u32;
    assert(vu as int == v);
    assert forall|y: int| #[trigger] a.edge_live(y) implies a.node_live(a.edges[y].source as int) && a.node_live(
        a.edges[y].target as int) by {
        assert(m.edge_live(y));
        assert(m.nodes[m.edges[y].source as int].outgoing.contains(y as u32));
        assert(m.nodes[m.edges[y].target as int].incoming.contains(y as u32));
        if m.edges[y].source as int == v {
            assert(m.nodes[v].outgoing.len() > 0);
        }
        if m.edges[y].target as int == v {
            assert(m.nodes[v].incoming.len() > 0);
        }
    }
    assert forall|w: int, y: u32| 0 <= w < a.nodes.len() && #[trigger] a.nodes[w].outgoing.contains(y) implies a.edge_live(
        y as int) && a.edges[y as int].source == w by {
        assert(m.nodes[w].outgoing.contains(y));
    }
    assert forall|w: int, y: u32| 0 <= w < a.nodes.len() && #[trigger] a.nodes[w].incoming.contains(y) implies a.edge_live(
        y as int) && a.edges[y as int].target == w by {
        assert(m.nodes[w].incoming.contains(y));
    }
    assert forall|y: int| #[trigger] a.edge_live(y) implies a.nodes[a.edges[y].source as int].outgoing.contains(y as u32)
        && a.nodes[a.edges[y].target as int].incoming.contains(y as u32) by {
        assert(m.edge_live(y));
        assert(m.nodes[m.edges[y].source as int].outgoing.contains(y as u32));
        assert(m.nodes[m.edges[y].target as int].incoming.contains(y as u32));
        if m.edges[y].source as int == v {
            assert(m.nodes[v].outgoing.len() > 0);
        }
        if m.edges[y].target as int == v {
            assert(m.nodes[v].incoming.len() > 0);
        }
    }
    assert forall|w: int| 0 <= w < a.nodes.len() implies (#[trigger] a.nodes[w]).outgoing.no_duplicates() by {
        assert(m.nodes[w].outgoing.no_duplicates());
    }
    assert forall|w: int| 0 <= w < a.nodes.len() implies (#[trigger] a.nodes[w]).incoming.no_duplicates() by {
        assert(m.nodes[w].incoming.no_duplicates());
    }
    if m.nodes[v].generation < u32::MAX {
        assert(!m.free_nodes.contains(vu)) by {
            if m.free_nodes.contains(vu) {
                let i = choose|i: int| 0 <= i < m.free_nodes.len() && m.free_nodes[i] == vu;
                assert(!m.node_live(m.free_nodes[i] as int));
            }
        }
        assert(a.free_nodes.no_duplicates()) by {
            let f = a.free_nodes;
            assert forall|i: int, j: int| 0 <= i < f.len() && 0 <= j < f.len() && i != j implies f[i] != f[j] by {
                if i == m.free_nodes.len() {
                    assert(m.free_nodes.contains(f[j]));
                } else if j == m.free_nodes.len() {
                    assert(m.free_nodes.contains(f[i]));
                }
            }
        }
    }
    assert forall|i: int| 0 <= i < a.free_nodes.len() implies 0 <= #[trigger] a.free_nodes[i] < a.nodes.len()
        && !a.node_live(a.free_nodes[i] as int) by {
        if i < m.free_nodes.len() {
            assert(a.free_nodes[i] == m.free_nodes[i]);
        }
    }
    assert forall|i: int| 0 <= i < a.free_edges.len() implies 0 <= #[trigger] a.free_edges[i] < a.edges.len()
        && !a.edge_live(a.free_edges[i] as int) by {
        assert(a.free_edges[i] == m.free_edges[i]);
    }
    lemma_live_nodes_update(m.nodes, v, a.nodes[v]);
}

impl<N, E> StableModel<N, E> {
    /// The model with live edge `x` moved to run from node slot `s2` to
    /// node slot `t2`: unlinked from its old lists, linked first in the new.
    pub open spec fn relink(self, x: int, s2: u32, t2: u32) -> Self {
        let e = self.edges[x];
        let s = e.source as int;
        let t = e.target as int;
        let xu = x as u32;
        let n1 = self.nodes.update(s, NodeCell { outgoing: without(self.nodes[s].outgoing, xu), ..self.nodes[s] });
        let n2 = n1.update(t, NodeCell { incoming: without(n1[t].incoming, xu), ..n1[t] });
        let n3 = n2.update(s2 as int, NodeCell { outgoing: seq![xu] + n2[s2 as int].outgoing, ..n2[s2 as int] });
        let n4 = n3.update(t2 as int, NodeCell { incoming: seq![xu] + n3[t2 as int].incoming, ..n3[t2 as int] });
        StableModel { nodes: n4, edges: self.edges.update(x, EdgeCell { source: s2, target: t2, ..e }), ..self }
    }

    /// What moving edge `key` to new endpoints yields.
    pub open spec fn set_endpoints_result(
        self,
        key: StableEdgeKey,
        source: StableNodeKey,
        target: StableNodeKey,
        after: Self,
        r: Result<bool>,
    ) -> bool {
        if !self.has_node(source) {
            r == Err::<bool, GraphError>(stale_node(source)) && after == self
        } else if !self.has_node(target) {
            r == Err::<bool, GraphError>(stale_node(target)) && after == self
        } else if !self.has_edge(key) {
            r == Ok::<bool, GraphError>(false) && after == self
        } else if self.edges[key.slot as int].source == source.slot && self.edges[key.slot as int].target
            == target.slot {
            r == Ok::<bool, GraphError>(true) && after == self
        } else {
            r == Ok::<bool, GraphError>(true) && after == self.relink(key.slot as int, source.slot, target.slot)
        }
    }
}

/// Moving a live edge between live nodes keeps the model well formed.
pub proof fn lemma_relink_wf<N, E>(m: StableModel<N, E>, x: int, s2: u32, t2: u32)
    requires
        m.wf(),
        m.edge_live(x),
        m.node_live(s2 as int),
        m.node_live(t2 as int),
    ensures
        m.relink(x, s2, t2).wf(),
        live_nodes(m.relink(x, s2, t2).nodes) == live_nodes(m.nodes),
        live_edges(m.relink(x, s2, t2).edges) == live_edges(m.edges),
{
    let a = m.relink(x, s2, t2);
    let e = m.edges[x];
    let s = e.source as int;
    let t = e.target as int;
    let xu = x as u32;
    assert(xu as int == x);
    lemma_without(m.nodes[s].outgoing, xu);
    lemma_without(m.nodes[t].incoming, xu);
    let out2 = |w: int| if w == s { without(m.nodes[s].outgoing, xu) } else { m.nodes[w].outgoing };
    let in2 = |w: int| if w == t { without(m.nodes[t].incoming, xu) } else { m.nodes[w].incoming };
    assert forall|w: int| 0 <= w < m.nodes.len() implies (#[trigger] a.nodes[w]).outgoing == (if w == s2 as int {
        seq![xu] + out2(w)
    } else {
        out2(w)
    }) && a.nodes[w].incoming == (if w == t2 as int {
        seq![xu] + in2(w)
    } else {
        in2(w)
    }) && a.nodes[w].value == m.nodes[w].value && a.nodes[w].generation == m.nodes[w].generation by {}
    assert forall|w: int, y: u32| 0 <= w < m.nodes.len() && #[trigger] out2(w).contains(y) implies m.edge_live(y as int)
        && m.edges[y as int].source == w && y != xu by {
        assert(m.nodes[w].outgoing.contains(y));
    }
    assert forall|w: int, y: u32| 0 <= w < m.nodes.len() && #[trigger] in2(w).contains(y) implies m.edge_live(y as int)
        && m.edges[y as int].target == w && y != xu by {
        assert(m.nodes[w].incoming.contains(y));
    }
    assert forall|y: int| #[trigger] a.edge_live(y) implies a.node_live(a.edges[y].source as int) && a.node_live(
        a.edges[y].target as int) by {
        assert(m.edge_live(y));
    }
    assert forall|w: int, y: u32| 0 <= w < a.nodes.len() && #[trigger] a.nodes[w].outgoing.contains(y) implies a.edge_live(
        y as int) && a.edges[y as int].source == w by {
        if y != xu {
            if w == s2 as int {
                let i = choose|i: int| 0 <= i < a.nodes[w].outgoing.len() && a.nodes[w].outgoing[i] == y;
                assert(out2(w)[i - 1] == y);
            }
            assert(out2(w).contains(y));
        } else {
            if w != s2 as int {
                assert(out2(w).contains(y));
            }
        }
    }
    assert forall|w: int, y: u32| 0 <= w < a.nodes.len() && #[trigger] a.nodes[w].incoming.contains(y) implies a.edge_live(
        y as int) && a.edges[y as int].target == w by {
        if y != xu {
            if w == t2 as int {
                let i = choose|i: int| 0 <= i < a.nodes[w].incoming.len() && a.nodes[w].incoming[i] == y;
                assert(in2(w)[i - 1] == y);
            }
            assert(in2(w).contains(y));
        } else {
            if w != t2 as int {
                assert(in2(w).contains(y));
            }
        }
    }
    assert forall|y: int| #[trigger] a.edge_live(y) implies a.nodes[a.edges[y].source as int].outgoing.contains(y as u32)
        && a.nodes[a.edges[y].target as int].incoming.contains(y as u32) by {
        if y == x {
            assert(a.nodes[s2 as int].outgoing[0] == xu);
            assert(a.nodes[t2 as int].incoming[0] == xu);
        } else {
            assert(m.edge_live(y));
            let b = m.edges[y].source as int;
            let c = m.edges[y].target as int;
            assert(m.nodes[b].outgoing.contains(y as u32));
            assert(m.nodes[c].incoming.contains(y as u32));
            assert((y as u32) != xu);
            assert(out2(b).contains(y as u32));
            assert(in2(c).contains(y as u32));
            let ob = out2(b);
            let ic = in2(c);
            let i = choose|i: int| 0 <= i < ob.len() && ob[i] == y as u32;
            let j = choose|j: int| 0 <= j < ic.len() && ic[j] == y as u32;
            if b == s2 as int {
                assert(a.nodes[b].outgoing[i + 1] == ob[i]);
            } else {
                assert(a.nodes[b].outgoing[i] == ob[i]);
            }
            if c == t2 as int {
                assert(a.nodes[c].incoming[j + 1] == ic[j]);
            } else {
                assert(a.nodes[c].incoming[j] == ic[j]);
            }
        }
    }
    assert forall|w: int| 0 <= w < a.nodes.len() implies (#[trigger] a.nodes[w]).outgoing.no_duplicates() by {
        assert(m.nodes[w].outgoing.no_duplicates());
        let o = out2(w);
        assert(o.no_duplicates());
        if w == s2 as int {
            assert(!o.contains(xu));
            let p = a.nodes[w].outgoing;
            assert forall|i: int, j: int| 0 <= i < p.len() && 0 <= j < p.len() && i != j implies p[i] != p[j] by {
                if i == 0 {
                    assert(o.contains(p[j]));
                } else if j == 0 {
                    assert(o.contains(p[i]));
                } else {
                    assert(p[i] == o[i - 1] && p[j] == o[j - 1]);
                }
            }
        }
    }
    assert forall|w: int| 0 <= w < a.nodes.len() implies (#[trigger] a.nodes[w]).incoming.no_duplicates() by {
        assert(m.nodes[w].incoming.no_duplicates());
        let o = in2(w);
        assert(o.no_duplicates());
        if w == t2 as int {
            assert(!o.contains(xu));
            let p = a.nodes[w].incoming;
            assert forall|i: int, j: int| 0 <= i < p.len() && 0 <= j < p.len() && i != j implies p[i] != p[j] by {
                if i == 0 {
                    assert(o.contains(p[j]));
                } else if j == 0 {
                    assert(o.contains(p[i]));
                } else {
                    assert(p[i] == o[i - 1] && p[j] == o[j - 1]);
                }
            }
        }
    }
    assert forall|i: int| 0 <= i < a.free_edges.len() implies 0 <= #[trigger] a.free_edges[i] < a.edges.len()
        && !a.edge_live(a.free_edges[i] as int) by {
        assert(a.free_edges[i] == m.free_edges[i]);
        assert(!m.edge_live(m.free_edges[i] as int));
    }
    assert forall|i: int| 0 <= i < a.free_nodes.len() implies 0 <= #[trigger] a.free_nodes[i] < a.nodes.len()
        && !a.node_live(a.free_nodes[i] as int) by {
        assert(a.free_nodes[i] == m.free_nodes[i]);
    }
    lemma_live_nodes_same(m.nodes, a.nodes);
    lemma_live_edges_same(m.edges, a.edges);
}

/// The position of node slot `v` among the live node slots.
pub open spec fn node_rank<N>(cells: Seq<NodeCell<N>>, v: int) -> nat {
    live_nodes(cells.subrange(0, v))
}

/// The position of edge slot `x` among the live edge slots.
pub open spec fn edge_rank<E>(cells: Seq<EdgeCell<E>>, x: int) -> nat {
    live_edges(cells.subrange(0, x))
}

/// The payloads of the live node slots, in slot order.
pub open spec fn live_node_payloads<N>(cells: Seq<NodeCell<N>>) -> Seq<N>
    decreases cells.len(),
{
    if cells.len() == 0 {
        Seq::empty()
    } else {
        let rest = live_node_payloads(cells.drop_last());
        match cells.last().value {
            Some(p) => rest.push(p),
            None => rest,
        }
    }
}

impl<N, E> StableModel<N, E> {
    /// The live edges among the first `k` slots, in slot order, with their
    /// endpoints renumbered by node rank and their payloads.
    pub open spec fn frozen_edges(self, k: nat) -> Seq<(EdgeEndpoints<NodeIndex>, E)>
        decreases k,
    {
        if k == 0 {
            Seq::empty()
        } else {
            let rest = self.frozen_edges((k - 1) as nat);
            let e = self.edges[k - 1];
            match e.value {
                Some(p) => rest.push(
                    (
                        EdgeEndpoints {
                            source: NodeIndex(node_rank(self.nodes, e.source as int) as u32),
                            target: NodeIndex(node_rank(self.nodes, e.target as int) as u32),
                        },
                        p,
                    ),
                ),
                None => rest,
            }
        }
    }

    /// Per node slot: its generation and rank when live.
    pub open spec fn node_freeze_map(self) -> Seq<Option<(u32, NodeIndex)>> {
        Seq::new(
            self.nodes.len(),
            |v: int|
                if self.nodes[v].value is Some {
                    Some((self.nodes[v].generation, NodeIndex(node_rank(self.nodes, v) as u32)))
                } else {
                    None
                },
        )
    }

    /// Per edge slot: its generation and rank when live.
    pub open spec fn edge_freeze_map(self) -> Seq<Option<(u32, EdgeIndex)>> {
        Seq::new(
            self.edges.len(),
            |x: int|
                if self.edges[x].value is Some {
                    Some((self.edges[x].generation, EdgeIndex(edge_rank(self.edges, x) as u32)))
                } else {
                    None
                },
        )
    }
}

proof fn lemma_rank_step_nodes<N>(cells: Seq<NodeCell<N>>, v: int)
    requires
        0 <= v < cells.len(),
    ensures
        node_rank(cells, v + 1) == node_rank(cells, v) + if cells[v].value is Some { 1nat } else { 0nat },
        live_node_payloads(cells.subrange(0, v + 1)) == match cells[v].value {
            Some(p) => live_node_payloads(cells.subrange(0, v)).push(p),
            None => live_node_payloads(cells.subrange(0, v)),
        },
{
    assert(cells.subrange(0, v + 1).drop_last() =~= cells.subrange(0, v));
}

proof fn lemma_rank_step_edges<E>(cells: Seq<EdgeCell<E>>, x: int)
    requires
        0 <= x < cells.len(),
    ensures
        edge_rank(cells, x + 1) == edge_rank(cells, x) + if cells[x].value is Some { 1nat } else { 0nat },
{
    assert(cells.subrange(0, x + 1).drop_last() =~= cells.subrange(0, x));
}

proof fn lemma_rank_bound<N>(cells: Seq<NodeCell<N>>, v: int)
    requires
        0 <= v <= cells.len(),
    ensures
        node_rank(cells, v) <= v,
{
    lemma_live_nodes_bound(cells.subrange(0, v));
}

proof fn lemma_rank_live<N>(cells: Seq<NodeCell<N>>, v: int)
    requires
        0 <= v < cells.len(),
        cells[v].value is Some,
    ensures
        node_rank(cells, v) < live_nodes(cells),
    decreases cells.len() - v,
{
    lemma_rank_step_nodes(cells, v);
    if v + 1 == cells.len() {
        assert(cells.subrange(0, v + 1) =~= cells);
    } else {
        lemma_rank_monotone(cells, v + 1, cells.len() as int);
        assert(cells.subrange(0, cells.len() as int) =~= cells);
    }
}

proof fn lemma_rank_monotone<N>(cells: Seq<NodeCell<N>>, a: int, b: int)
    requires
        0 <= a <= b <= cells.len(),
    ensures
        node_rank(cells, a) <= node_rank(cells, b),
    decreases b - a,
{
    if a < b {
        lemma_rank_monotone(cells, a, b - 1);
        lemma_rank_step_nodes(cells, b - 1);
    }
}

/// `after` is `before` with every payload replaced by what `map_node` or
/// `map_edge` answered for it, every slot, link and free list kept.
pub open spec fn mapped_model<N, E, M, F, NM: Fn(N) -> M, EM: Fn(E) -> F>(
    before: StableModel<N, E>,
    after: StableModel<M, F>,
    map_node: NM,
    map_edge: EM,
) -> bool {
    &&& after.nodes.len() == before.nodes.len()
    &&& after.edges.len() == before.edges.len()
    &&& after.free_nodes == before.free_nodes
    &&& after.free_edges == before.free_edges
    &&& forall|v: int|
        0 <= v < before.nodes.len() ==> {
            let a = #[trigger] after.nodes[v];
            let b = before.nodes[v];
            &&& a.generation == b.generation
            &&& a.outgoing == b.outgoing
            &&& a.incoming == b.incoming
            &&& match b.value {
                Some(p) => a.value matches Some(q) && call_ensures(map_node, (p,), q),
                None => a.value is None,
            }
        }
    &&& forall|x: int|
        0 <= x < before.edges.len() ==> {
            let a = #[trigger] after.edges[x];
            let b = before.edges[x];
            &&& a.generation == b.generation
            &&& a.source == b.source
            &&& a.target == b.target
            &&& match b.value {
                Some(p) => a.value matches Some(q) && call_ensures(map_edge, (p,), q),
                None => a.value is None,
            }
        }
}

/// A dead node has no edges listed.
pub proof fn lemma_dead_node_lists<N, E>(m: StableModel<N, E>, v: int)
    requires
        m.wf(),
        0 <= v < m.nodes.len(),
        !m.node_live(v),
    ensures
        m.nodes[v].outgoing =~= Seq::<u32>::empty(),
        m.nodes[v].incoming =~= Seq::<u32>::empty(),
{
    if m.nodes[v].outgoing.len() > 0 {
        let x = m.nodes[v].outgoing[0];
        assert(m.nodes[v].outgoing.contains(x));
    }
    if m.nodes[v].incoming.len() > 0 {
        let x = m.nodes[v].incoming[0];
        assert(m.nodes[v].incoming.contains(x));
    }
}

/// A dead edge is in no list.
pub proof fn lemma_dead_edge_unlisted<N, E>(m: StableModel<N, E>, x: u32)
    requires
        m.wf(),
        !m.edge_live(x as int),
    ensures
        forall|v: int| 0 <= v < m.nodes.len() ==> !(#[trigger] m.nodes[v]).outgoing.contains(x) && !m.nodes[v].incoming.contains(x),
{
}

/// Taking the last free slot keeps the rest distinct and free of it.
pub proof fn lemma_drop_free(free: Seq<u32>)
    requires
        free.len() > 0,
        free.no_duplicates(),
    ensures
        free.drop_last().no_duplicates(),
        forall|i: int| 0 <= i < free.drop_last().len() ==> #[trigger] free.drop_last()[i] != free.last() && free.drop_last()[i] == free[i],
{
    assert forall|i: int| 0 <= i < free.drop_last().len() implies #[trigger] free.drop_last()[i] != free.last() by {
        assert(free[i] != free[free.len() - 1]);
    }
}

/// A new live node keeps the model well formed.
pub proof fn lemma_add_node_wf<N, E>(m: StableModel<N, E>, payload: N, after: StableModel<N, E>, r: Result<StableNodeKey>)
    requires
        m.wf(),
        m.add_node_result(payload, after, r),
    ensures
        after.wf(),
        r is Ok ==> after.nodes.len() >= 1,
{
    if m.free_nodes.len() > 0 {
        let v = m.free_nodes.last() as int;
        assert(0 <= m.free_nodes[m.free_nodes.len() - 1] < m.nodes.len());
        lemma_dead_node_lists(m, v);
        lemma_drop_free(m.free_nodes);
        assert forall|x: int| #[trigger] after.edge_live(x) implies after.node_live(after.edges[x].source as int) && after.node_live(
            after.edges[x].target as int) by {
            assert(m.edge_live(x));
        }
        assert forall|w: int, x: u32| 0 <= w < after.nodes.len() && #[trigger] after.nodes[w].outgoing.contains(x) implies after.edge_live(
            x as int) && after.edges[x as int].source == w by {
            assert(m.nodes[w].outgoing.contains(x));
        }
        assert forall|w: int, x: u32| 0 <= w < after.nodes.len() && #[trigger] after.nodes[w].incoming.contains(x) implies after.edge_live(
            x as int) && after.edges[x as int].target == w by {
            assert(m.nodes[w].incoming.contains(x));
        }
        assert forall|x: int| #[trigger] after.edge_live(x) implies after.nodes[after.edges[x].source as int].outgoing.contains(
            x as u32) && after.nodes[after.edges[x].target as int].incoming.contains(x as u32) by {
            assert(m.edge_live(x));
        }
        assert forall|i: int| 0 <= i < after.free_nodes.len() implies 0 <= #[trigger] after.free_nodes[i] < after.nodes.len()
            && !after.node_live(after.free_nodes[i] as int) by {
            assert(after.free_nodes[i] == m.free_nodes[i]);
        }
        assert forall|w: int| 0 <= w < after.nodes.len() implies (#[trigger] after.nodes[w]).outgoing.no_duplicates() by {
            assert(m.nodes[w].outgoing.no_duplicates());
        }
        assert forall|w: int| 0 <= w < after.nodes.len() implies (#[trigger] after.nodes[w]).incoming.no_duplicates() by {
            assert(m.nodes[w].incoming.no_duplicates());
        }
    } else if m.nodes.len() <= u32::MAX {
        let n = m.nodes.len() as int;
        assert forall|x: int| #[trigger] after.edge_live(x) implies after.node_live(after.edges[x].source as int) && after.node_live(
            after.edges[x].target as int) by {
            assert(m.edge_live(x));
        }
        assert forall|w: int, x: u32| 0 <= w < after.nodes.len() && #[trigger] after.nodes[w].outgoing.contains(x) implies after.edge_live(
            x as int) && after.edges[x as int].source == w by {
            if w < n {
                assert(m.nodes[w].outgoing.contains(x));
            }
        }
        assert forall|w: int, x: u32| 0 <= w < after.nodes.len() && #[trigger] after.nodes[w].incoming.contains(x) implies after.edge_live(
            x as int) && after.edges[x as int].target == w by {
            if w < n {
                assert(m.nodes[w].incoming.contains(x));
            }
        }
        assert forall|x: int| #[trigger] after.edge_live(x) implies after.nodes[after.edges[x].source as int].outgoing.contains(
            x as u32) && after.nodes[after.edges[x].target as int].incoming.contains(x as u32) by {
            assert(m.edge_live(x));
        }
        assert forall|i: int| 0 <= i < after.free_nodes.len() implies 0 <= #[trigger] after.free_nodes[i] < after.nodes.len()
            && !after.node_live(after.free_nodes[i] as int) by {
        }
        assert forall|w: int| 0 <= w < after.nodes.len() implies (#[trigger] after.nodes[w]).outgoing.no_duplicates() by {
            if w < n {
                assert(m.nodes[w].outgoing.no_duplicates());
            }
        }
        assert forall|w: int| 0 <= w < after.nodes.len() implies (#[trigger] after.nodes[w]).incoming.no_duplicates() by {
            if w < n {
                assert(m.nodes[w].incoming.no_duplicates());
            }
        }
    }
}

/// A new live edge between live nodes keeps the model well formed.
pub proof fn lemma_add_edge_wf<N, E>(
    m: StableModel<N, E>,
    source: StableNodeKey,
    target: StableNodeKey,
    payload: E,
    after: StableModel<N, E>,
    r: Result<StableEdgeKey>,
)
    requires
        m.wf(),
        m.add_edge_result(source, target, payload, after, r),
        r is Ok,
    ensures
        after.wf(),
{
    let x: u32 = if m.free_edges.len() > 0 { m.free_edges.last() } else { m.edges.len() as u32 };
    let s = source.slot as int;
    let t = target.slot as int;
    if m.free_edges.len() > 0 {
        assert(0 <= m.free_edges[m.free_edges.len() - 1] < m.edges.len());
        lemma_drop_free(m.free_edges);
    }
    assert(!m.edge_live(x as int));
    lemma_dead_edge_unlisted(m, x);
    assert(after.edge_live(x as int));
    assert(after.edges[x as int].source == source.slot && after.edges[x as int].target == target.slot);
    assert forall|y: int| #[trigger] after.edge_live(y) implies after.node_live(after.edges[y].source as int) && after.node_live(
        after.edges[y].target as int) by {
        if y != x {
            assert(m.edge_live(y));
        }
    }
    assert forall|w: int, y: u32| 0 <= w < after.nodes.len() && #[trigger] after.nodes[w].outgoing.contains(y) implies after.edge_live(
        y as int) && after.edges[y as int].source == w by {
        if w == s && y != x {
            let i = choose|i: int| 0 <= i < after.nodes[w].outgoing.len() && after.nodes[w].outgoing[i] == y;
            assert(i > 0);
            assert(m.nodes[w].outgoing[i - 1] == y);
            assert(m.nodes[w].outgoing.contains(y));
        } else if w != s {
            assert(m.nodes[w].outgoing.contains(y));
        }
    }
    assert forall|w: int, y: u32| 0 <= w < after.nodes.len() && #[trigger] after.nodes[w].incoming.contains(y) implies after.edge_live(
        y as int) && after.edges[y as int].target == w by {
        if w == t && y != x {
            let i = choose|i: int| 0 <= i < after.nodes[w].incoming.len() && after.nodes[w].incoming[i] == y;
            assert(i > 0);
            if s == t {
                assert(after.nodes[w].incoming == seq![x] + m.nodes[w].incoming);
            }
            assert(m.nodes[w].incoming[i - 1] == y);
            assert(m.nodes[w].incoming.contains(y));
        } else if w != t {
            if w == s {
                assert(after.nodes[w].incoming == m.nodes[w].incoming);
            }
            assert(m.nodes[w].incoming.contains(y));
        }
    }
    assert forall|y: int| #[trigger] after.edge_live(y) implies after.nodes[after.edges[y].source as int].outgoing.contains(
        y as u32) && after.nodes[after.edges[y].target as int].incoming.contains(y as u32) by {
        if y == x {
            assert(after.nodes[s].outgoing[0] == x);
            assert(after.nodes[t].incoming[0] == x);
        } else {
            assert(m.edge_live(y));
            let a = m.edges[y].source as int;
            let b = m.edges[y].target as int;
            assert(m.nodes[a].outgoing.contains(y as u32));
            assert(m.nodes[b].incoming.contains(y as u32));
            let i = choose|i: int| 0 <= i < m.nodes[a].outgoing.len() && m.nodes[a].outgoing[i] == y as u32;
            let j = choose|j: int| 0 <= j < m.nodes[b].incoming.len() && m.nodes[b].incoming[j] == y as u32;
            if a == s {
                assert(after.nodes[a].outgoing[i + 1] == y as u32);
            } else {
                assert(after.nodes[a].outgoing[i] == y as u32);
            }
            if b == t {
                assert(after.nodes[b].incoming[j + 1] == y as u32);
            } else if b == s {
                assert(after.nodes[b].incoming == m.nodes[b].incoming);
                assert(after.nodes[b].incoming[j] == y as u32);
            } else {
                assert(after.nodes[b].incoming[j] == y as u32);
            }
        }
    }
    assert forall|w: int| 0 <= w < after.nodes.len() implies (#[trigger] after.nodes[w]).outgoing.no_duplicates() by {
        assert(m.nodes[w].outgoing.no_duplicates());
        if w == s {
            let o = after.nodes[w].outgoing;
            assert forall|i: int, j: int| 0 <= i < o.len() && 0 <= j < o.len() && i != j implies o[i] != o[j] by {
                if i == 0 {
                    assert(m.nodes[w].outgoing.contains(o[j]));
                } else if j == 0 {
                    assert(m.nodes[w].outgoing.contains(o[i]));
                } else {
                    assert(o[i] == m.nodes[w].outgoing[i - 1] && o[j] == m.nodes[w].outgoing[j - 1]);
                }
            }
        }
    }
    assert forall|w: int| 0 <= w < after.nodes.len() implies (#[trigger] after.nodes[w]).incoming.no_duplicates() by {
        assert(m.nodes[w].incoming.no_duplicates());
        if w == t {
            let o = after.nodes[w].incoming;
            if s == t {
                assert(o == seq![x] + m.nodes[w].incoming);
            }
            assert forall|i: int, j: int| 0 <= i < o.len() && 0 <= j < o.len() && i != j implies o[i] != o[j] by {
                if i == 0 {
                    assert(m.nodes[w].incoming.contains(o[j]));
                } else if j == 0 {
                    assert(m.nodes[w].incoming.contains(o[i]));
                } else {
                    assert(o[i] == m.nodes[w].incoming[i - 1] && o[j] == m.nodes[w].incoming[j - 1]);
                }
            }
        } else if w == s {
            assert(after.nodes[w].incoming == m.nodes[w].incoming);
        }
    }
    assert forall|i: int| 0 <= i < after.free_edges.len() implies 0 <= #[trigger] after.free_edges[i] < after.edges.len()
        && !after.edge_live(after.free_edges[i] as int) by {
        if m.free_edges.len() > 0 {
            assert(after.free_edges[i] == m.free_edges[i]);
        }
    }
    assert forall|i: int| 0 <= i < after.free_nodes.len() implies 0 <= #[trigger] after.free_nodes[i] < after.nodes.len()
        && !after.node_live(after.free_nodes[i] as int) by {
        assert(after.free_nodes[i] == m.free_nodes[i]);
    }
}

/// A vector of rows with `x` taken out of row `v`.
fn remove_from(rows: &mut Vec<Vec<u32>>, v: usize, x: u32)
    requires
        v < old(rows)@.len(),
        old(rows)@[v as int]@.no_duplicates(),
    ensures
        final(rows)@.len() == old(rows)@.len(),
        forall|i: int| 0 <= i < old(rows)@.len() && i != v ==> #[trigger] final(rows)@[i]@ == old(rows)@[i]@,
        final(rows)@[v as int]@ == without(old(rows)@[v as int]@, x),
{
    let mut row: Vec<u32> = Vec::new();
    rows.set_and_swap(v, &mut row);
    let ghost before = row@;
    let mut i: usize = 0;
    while i < row.len()
        invariant
            row@ == before,
            i <= row@.len(),
            forall|k: int| 0 <= k < i ==> row@[k] != x,
        ensures
            row@ == before,
            i <= row@.len(),
            forall|k: int| 0 <= k < i ==> row@[k] != x,
            i < row@.len() ==> row@[i as int] == x,
        decreases row@.len() - i,
    {
        if row[i] == x {
            break;
        }
        i = i + 1;
    }
    proof {
        lemma_without(before, x);
    }
    if i < row.len() {
        proof {
            lemma_remove_is_without(before, i as int);
        }
        row.remove(i);
    } else {
        proof {
            assert(!before.contains(x));
        }
    }
    rows.set_and_swap(v, &mut row);
}

/// A vector of rows with `x` put in front of row `v`.
fn push_front(rows: &mut Vec<Vec<u32>>, v: usize, x: u32)
    requires
        v < old(rows)@.len(),
    ensures
        final(rows)@.len() == old(rows)@.len(),
        forall|i: int| 0 <= i < old(rows)@.len() && i != v ==> #[trigger] final(rows)@[i]@ == old(rows)@[i]@,
        final(rows)@[v as int]@ == seq![x] + old(rows)@[v as int]@,
{
    let mut row: Vec<u32> = Vec::new();
    rows.set_and_swap(v, &mut row);
    row.insert(0, x);
    rows.set_and_swap(v, &mut row);
    proof {
        assert(row@.insert(0, x) =~= seq![x] + row@) by {}
    }
}

/// A mutable directed graph with payloads, whose node and edge keys carry a
/// generation so that a key of a removed item never names its successor.
pub struct StablePayloadGraph<N, E> {
    node_generation: Vec<u32>,
    node_values: Vec<Option<N>>,
    outgoing: Vec<Vec<u32>>,
    incoming: Vec<Vec<u32>>,
    edge_generation: Vec<u32>,
    edge_values: Vec<Option<E>>,
    edge_source: Vec<u32>,
    edge_target: Vec<u32>,
    free_nodes: Vec<u32>,
    free_edges: Vec<u32>,
    node_count: usize,
    edge_count: usize,
}

impl<N, E> View for StablePayloadGraph<N, E> {
    type V = StableModel<N, E>;

    closed spec fn view(&self) -> StableModel<N, E> {
        StableModel {
            nodes: Seq::new(
                self.node_values@.len(),
                |v: int|
                    NodeCell {
                        generation: self.node_generation@[v],
                        value: self.node_values@[v],
                        outgoing: self.outgoing@[v]@,
                        incoming: self.incoming@[v]@,
                    },
            ),
            edges: Seq::new(
                self.edge_values@.len(),
                |x: int|
                    EdgeCell {
                        generation: self.edge_generation@[x],
                        value: self.edge_values@[x],
                        source: self.edge_source@[x],
                        target: self.edge_target@[x],
                    },
            ),
            free_nodes: self.free_nodes@,
            free_edges: self.free_edges@,
        }
    }
}

impl<N, E> StablePayloadGraph<N, E> {
    /// The tables agree in length, the model is well formed, and the
    /// counts count the live slots.
    pub closed spec fn wf(&self) -> bool {
        &&& self.node_generation@.len() == self.node_values@.len()
        &&& self.outgoing@.len() == self.node_values@.len()
        &&& self.incoming@.len() == self.node_values@.len()
        &&& self.edge_generation@.len() == self.edge_values@.len()
        &&& self.edge_source@.len() == self.edge_values@.len()
        &&& self.edge_target@.len() == self.edge_values@.len()
        &&& self@.wf()
        &&& self.node_count == live_nodes(self@.nodes)
        &&& self.edge_count == live_edges(self@.edges)
    }

    /// An empty graph.
    pub fn new() -> (r: Self)
        ensures
            r.wf(),
            r@.nodes.len() == 0,
            r@.edges.len() == 0,
            r@.free_nodes.len() == 0,
            r@.free_edges.len() == 0,
    {
        let r = StablePayloadGraph {
            node_generation: Vec::new(),
            node_values: Vec::new(),
            outgoing: Vec::new(),
            incoming: Vec::new(),
            edge_generation: Vec::new(),
            edge_values: Vec::new(),
            edge_source: Vec::new(),
            edge_target: Vec::new(),
            free_nodes: Vec::new(),
            free_edges: Vec::new(),
            node_count: 0,
            edge_count: 0,
        };
        proof {
            assert(r@.nodes =~= Seq::<NodeCell<N>>::empty());
            assert(r@.edges =~= Seq::<EdgeCell<E>>::empty());
        }
        r
    }

    /// An empty graph; the capacities are allocation hints.
    pub fn with_capacity(nodes: usize, edges: usize) -> (r: Self)
        ensures
            r.wf(),
            r@.nodes.len() == 0,
            r@.edges.len() == 0,
            r@.free_nodes.len() == 0,
            r@.free_edges.len() == 0,
    {
        Self::new()
    }

    /// How many nodes are live.
    pub fn node_count(&self) -> (r: usize)
        requires
            self.wf(),
        ensures
            r == live_nodes(self@.nodes),
    {
        self.node_count
    }

    /// How many edges are live.
    pub fn edge_count(&self) -> (r: usize)
        requires
            self.wf(),
        ensures
            r == live_edges(self@.edges),
    {
        self.edge_count
    }

    /// Whether no node and no edge is live.
    pub fn is_empty(&self) -> (r: bool)
        requires
            self.wf(),
        ensures
            r == (live_nodes(self@.nodes) == 0 && live_edges(self@.edges) == 0),
    {
        self.node_count == 0 && self.edge_count == 0
    }

    /// Whether `key` names a live node.
    fn node_present(&self, key: StableNodeKey) -> (r: bool)
        requires
            self.wf(),
        ensures
            r == self@.has_node(key),
    {
        let i = key.index();
        i < self.node_values.len() && self.node_generation[i] == key.generation && self.node_values[i].is_some()
    }

    /// Whether `key` names a live edge.
    fn edge_present(&self, key: StableEdgeKey) -> (r: bool)
        requires
            self.wf(),
        ensures
            r == self@.has_edge(key),
    {
        let i = key.index();
        i < self.edge_values.len() && self.edge_generation[i] == key.generation && self.edge_values[i].is_some()
    }

    /// The payload of the live node `key`.
    pub fn node(&self, key: StableNodeKey) -> (r: Option<&N>)
        requires
            self.wf(),
        ensures
            match r {
                Some(p) => self@.has_node(key) && self@.nodes[key.slot as int].value == Some(*p),
                None => !self@.has_node(key),
            },
    {
        if self.node_present(key) {
            self.node_values[key.index()].as_ref()
        } else {
            None
        }
    }

    /// The payload of the live edge `key`.
    pub fn edge(&self, key: StableEdgeKey) -> (r: Option<&E>)
        requires
            self.wf(),
        ensures
            match r {
                Some(p) => self@.has_edge(key) && self@.edges[key.slot as int].value == Some(*p),
                None => !self@.has_edge(key),
            },
    {
        if self.edge_present(key) {
            self.edge_values[key.index()].as_ref()
        } else {
            None
        }
    }

    /// The key of node slot `slot` in its current generation, if live.
    fn node_key_at(&self, slot: u32) -> (r: Option<StableNodeKey>)
        requires
            self.wf(),
        ensures
            match r {
                Some(k) => self@.node_live(slot as int) && k == self@.node_key(slot as int),
                None => !self@.node_live(slot as int),
            },
    {
        let i = slot as usize;
        if i < self.node_values.len() && self.node_values[i].is_some() {
            Some(StableNodeKey::new(slot, self.node_generation[i]))
        } else {
            None
        }
    }

    /// The current keys of the endpoints of the live edge `key`.
    pub fn edge_endpoints(&self, key: StableEdgeKey) -> (r: Option<EdgeEndpoints<StableNodeKey>>)
        requires
            self.wf(),
        ensures
            match r {
                Some(ends) => self@.has_edge(key) && ends.source == self@.node_key(
                    self@.edges[key.slot as int].source as int,
                ) && ends.target == self@.node_key(self@.edges[key.slot as int].target as int),
                None => !self@.has_edge(key),
            },
    {
        if !self.edge_present(key) {
            return None;
        }
        let i = key.index();
        let source = self.node_key_at(self.edge_source[i]);
        let target = self.node_key_at(self.edge_target[i]);
        proof {
            assert(self@.edge_live(i as int));
        }
        match (source, target) {
            (Some(s), Some(t)) => Some(EdgeEndpoints::new(s, t)),
            _ => None,
        }
    }

    /// The keys of the edges that leave the live node `node`, most recently
    /// linked first; empty for a stale key.
    pub fn outgoing_edges(&self, node: StableNodeKey) -> (r: Vec<StableEdgeKey>)
        requires
            self.wf(),
        ensures
            self@.has_node(node) ==> r@ == self@.nodes[node.slot as int].outgoing.map_values(
                |x: u32| self@.edge_key(x as int),
            ),
            !self@.has_node(node) ==> r@.len() == 0,
    {
        if !self.node_present(node) {
            return Vec::new();
        }
        let row = &self.outgoing[node.index()];
        proof {
            let v = node.slot as int;
            assert(self@.nodes[v].outgoing == row@);
            assert forall|i: int| 0 <= i < row@.len() implies self@.edge_live(#[trigger] row@[i] as int) by {
                assert(self@.nodes[v].outgoing.contains(row@[i]));
            }
        }
        self.edge_keys(row)
    }

    /// The keys of the edges that enter the live node `node`, most recently
    /// linked first; empty for a stale key.
    pub fn incoming_edges(&self, node: StableNodeKey) -> (r: Vec<StableEdgeKey>)
        requires
            self.wf(),
        ensures
            self@.has_node(node) ==> r@ == self@.nodes[node.slot as int].incoming.map_values(
                |x: u32| self@.edge_key(x as int),
            ),
            !self@.has_node(node) ==> r@.len() == 0,
    {
        if !self.node_present(node) {
            return Vec::new();
        }
        let row = &self.incoming[node.index()];
        proof {
            let v = node.slot as int;
            assert(self@.nodes[v].incoming == row@);
            assert forall|i: int| 0 <= i < row@.len() implies self@.edge_live(#[trigger] row@[i] as int) by {
                assert(self@.nodes[v].incoming.contains(row@[i]));
            }
        }
        self.edge_keys(row)
    }

    /// The current keys of a list of live edge slots.
    fn edge_keys(&self, row: &Vec<u32>) -> (r: Vec<StableEdgeKey>)
        requires
            self.wf(),
            forall|i: int| 0 <= i < row@.len() ==> self@.edge_live(#[trigger] row@[i] as int),
        ensures
            r@ == row@.map_values(|x: u32| self@.edge_key(x as int)),
    {
        let mut out: Vec<StableEdgeKey> = Vec::new();
        let mut k: usize = 0;
        while k < row.len()
            invariant
                self.wf(),
                k <= row@.len(),
                forall|i: int| 0 <= i < row@.len() ==> self@.edge_live(#[trigger] row@[i] as int),
                out@ == row@.subrange(0, k as int).map_values(|x: u32| self@.edge_key(x as int)),
            decreases row@.len() - k,
        {
            let x = row[k];
            proof {
                assert(self@.edge_live(row@[k as int] as int));
            }
            out.push(StableEdgeKey::new(x, self.edge_generation[x as usize]));
            proof {
                assert(row@.subrange(0, k + 1) =~= row@.subrange(0, k as int).push(x));
                assert(out@ =~= row@.subrange(0, k + 1).map_values(|x: u32| self@.edge_key(x as int)));
            }
            k = k + 1;
        }
        proof {
            assert(row@.subrange(0, row@.len() as int) =~= row@);
        }
        out
    }

    /// Every live node with its payload, by slot.
    pub fn nodes(&self) -> (r: Vec<(StableNodeKey, &N)>)
        requires
            self.wf(),
        ensures
            forall|i: int|
                0 <= i < r@.len() ==> self@.node_live((#[trigger] r@[i]).0.slot as int) && r@[i].0 == self@.node_key(
                    r@[i].0.slot as int,
                ) && self@.nodes[r@[i].0.slot as int].value == Some(*r@[i].1),
            forall|i: int, j: int| 0 <= i < j < r@.len() ==> r@[i].0.slot < r@[j].0.slot,
            forall|v: int| #[trigger] self@.node_live(v) ==> exists|i: int| 0 <= i < r@.len() && r@[i].0.slot == v,
    {
        let mut out: Vec<(StableNodeKey, &N)> = Vec::new();
        let n = self.node_values.len();
        let mut v: usize = 0;
        while v < n
            invariant
                self.wf(),
                n == self@.nodes.len() <= u32::MAX + 1,
                v <= n,
                forall|i: int|
                    0 <= i < out@.len() ==> self@.node_live((#[trigger] out@[i]).0.slot as int) && out@[i].0
                        == self@.node_key(out@[i].0.slot as int) && self@.nodes[out@[i].0.slot as int].value
                        == Some(*out@[i].1) && out@[i].0.slot < v,
                forall|i: int, j: int| 0 <= i < j < out@.len() ==> out@[i].0.slot < out@[j].0.slot,
                forall|w: int| 0 <= w < v && #[trigger] self@.node_live(w) ==> exists|i: int| 0 <= i < out@.len() && out@[i].0.slot == w,
            decreases n - v,
        {
            match self.node_values[v].as_ref() {
                Some(p) => {
                    let key = StableNodeKey::new(v as u32, self.node_generation[v]);
                    let ghost before = out@;
                    out.push((key, p));
                    proof {
                        assert forall|w: int| 0 <= w < v + 1 && #[trigger] self@.node_live(w) implies exists|i: int|
                            0 <= i < out@.len() && out@[i].0.slot == w by {
                            if w < v {
                                let i = choose|i: int| 0 <= i < before.len() && before[i].0.slot == w;
                                assert(out@[i] == before[i]);
                            } else {
                                assert(out@[before.len() as int].0.slot == w);
                            }
                        }
                    }
                },
                None => {},
            }
            v = v + 1;
        }
        out
    }

    /// Every live edge with its payload, by slot.
    pub fn edges(&self) -> (r: Vec<(StableEdgeKey, &E)>)
        requires
            self.wf(),
        ensures
            forall|i: int|
                0 <= i < r@.len() ==> self@.edge_live((#[trigger] r@[i]).0.slot as int) && r@[i].0 == self@.edge_key(
                    r@[i].0.slot as int,
                ) && self@.edges[r@[i].0.slot as int].value == Some(*r@[i].1),
            forall|i: int, j: int| 0 <= i < j < r@.len() ==> r@[i].0.slot < r@[j].0.slot,
            forall|x: int| #[trigger] self@.edge_live(x) ==> exists|i: int| 0 <= i < r@.len() && r@[i].0.slot == x,
    {
        let mut out: Vec<(StableEdgeKey, &E)> = Vec::new();
        let m = self.edge_values.len();
        let mut x: usize = 0;
        while x < m
            invariant
                self.wf(),
                m == self@.edges.len() <= u32::MAX + 1,
                x <= m,
                forall|i: int|
                    0 <= i < out@.len() ==> self@.edge_live((#[trigger] out@[i]).0.slot as int) && out@[i].0
                        == self@.edge_key(out@[i].0.slot as int) && self@.edges[out@[i].0.slot as int].value
                        == Some(*out@[i].1) && out@[i].0.slot < x,
                forall|i: int, j: int| 0 <= i < j < out@.len() ==> out@[i].0.slot < out@[j].0.slot,
                forall|w: int| 0 <= w < x && #[trigger] self@.edge_live(w) ==> exists|i: int| 0 <= i < out@.len() && out@[i].0.slot == w,
            decreases m - x,
        {
            match self.edge_values[x].as_ref() {
                Some(p) => {
                    let key = StableEdgeKey::new(x as u32, self.edge_generation[x]);
                    let ghost before = out@;
                    out.push((key, p));
                    proof {
                        assert forall|w: int| 0 <= w < x + 1 && #[trigger] self@.edge_live(w) implies exists|i: int|
                            0 <= i < out@.len() && out@[i].0.slot == w by {
                            if w < x {
                                let i = choose|i: int| 0 <= i < before.len() && before[i].0.slot == w;
                                assert(out@[i] == before[i]);
                            } else {
                                assert(out@[before.len() as int].0.slot == w);
                            }
                        }
                    }
                },
                None => {},
            }
            x = x + 1;
        }
        out
    }

    /// Checks that `key` names a live node.
    pub(crate) fn require_node(&self, key: StableNodeKey) -> (r: Result<()>)
        requires
            self.wf(),
        ensures
            self@.has_node(key) ==> r is Ok,
            !self@.has_node(key) ==> r == Err::<(), GraphError>(stale_node(key)),
    {
        if self.node_present(key) {
            Ok(())
        } else {
            Err(GraphError::InvalidStableKey { category: "node", slot: key.slot, generation: key.generation })
        }
    }

    /// Adds a node with `payload`; see `StableModel::add_node_result`.
    pub fn add_node(&mut self, payload: N) -> (r: Result<StableNodeKey>)
        requires
            old(self).wf(),
        ensures
            final(self).wf(),
            old(self)@.add_node_result(payload, final(self)@, r),
    {
        let ghost m = self@;
        match self.free_nodes.pop() {
            Some(v) => {
                let i = v as usize;
                proof {
                    assert(0 <= m.free_nodes[m.free_nodes.len() - 1] < m.nodes.len());
                    assert(!m.node_live(i as int));
                    lemma_dead_node_lists(m, i as int);
                    lemma_live_nodes_dead(m.nodes, i as int);
                    lemma_live_nodes_update(m.nodes, i as int, fresh_node(m.nodes[i as int].generation, payload));
                }
                self.node_values.set(i, Some(payload));
                self.node_count = self.node_count + 1;
                let generation = self.node_generation[i];
                let key = StableNodeKey::new(v, generation);
                proof {
                    let after = StableModel {
                        nodes: m.nodes.update(i as int, fresh_node(m.nodes[i as int].generation, payload)),
                        free_nodes: m.free_nodes.drop_last(),
                        ..m
                    };
                    assert(self@.nodes =~= after.nodes);
                    assert(self@.free_nodes =~= after.free_nodes);
                    assert(self@ == after);
                    lemma_add_node_wf(m, payload, self@, Ok(key));
                }
                Ok(key)
            },
            None => {
                let len = self.node_values.len();
                if len > u32::MAX as usize {
                    return Err(GraphError::IndexCapacityExceeded { category: "stable payload nodes", count: len });
                }
                self.node_generation.push(0);
                self.node_values.push(Some(payload));
                self.outgoing.push(Vec::new());
                self.incoming.push(Vec::new());
                let _grown = self.node_values.len();
                proof {
                    lemma_live_nodes_bound(m.nodes);
                    lemma_live_nodes_push(m.nodes, fresh_node(0, payload));
                }
                self.node_count = self.node_count + 1;
                let key = StableNodeKey::new(len as u32, 0);
                proof {
                    let after = StableModel { nodes: m.nodes.push(fresh_node(0, payload)), ..m };
                    assert(self@.nodes =~= after.nodes);
                    assert(self@ == after);
                    lemma_add_node_wf(m, payload, self@, Ok(key));
                }
                Ok(key)
            },
        }
    }

    /// Adds an edge with `payload` between two live nodes; see
    /// `StableModel::add_edge_result`.
    pub fn add_edge(&mut self, source: StableNodeKey, target: StableNodeKey, payload: E) -> (r: Result<StableEdgeKey>)
        requires
            old(self).wf(),
        ensures
            final(self).wf(),
            old(self)@.add_edge_result(source, target, payload, final(self)@, r),
    {
        let ghost m = self@;
        match self.require_node(source) {
            Err(e) => return Err(e),
            Ok(()) => {},
        }
        match self.require_node(target) {
            Err(e) => return Err(e),
            Ok(()) => {},
        }
        let x: u32;
        let generation: u32;
        match self.free_edges.pop() {
            Some(slot) => {
                let i = slot as usize;
                proof {
                    assert(0 <= m.free_edges[m.free_edges.len() - 1] < m.edges.len());
                    assert(!m.edge_live(i as int));
                    lemma_live_edges_dead(m.edges, i as int);
                    lemma_live_edges_update(
                        m.edges,
                        i as int,
                        fresh_edge(m.edges[i as int].generation, payload, source.slot, target.slot),
                    );
                }
                let _room = self.edge_values.len();
                self.edge_values.set(i, Some(payload));
                self.edge_source.set(i, source.slot);
                self.edge_target.set(i, target.slot);
                x = slot;
                generation = self.edge_generation[i];
            },
            None => {
                let len = self.edge_values.len();
                if len > u32::MAX as usize {
                    return Err(GraphError::IndexCapacityExceeded { category: "stable payload edges", count: len });
                }
                self.edge_generation.push(0);
                self.edge_values.push(Some(payload));
                self.edge_source.push(source.slot);
                self.edge_target.push(target.slot);
                let _grown = self.edge_values.len();
                proof {
                    lemma_live_edges_bound(m.edges);
                    lemma_live_edges_push(m.edges, fresh_edge(0, payload, source.slot, target.slot));
                }
                x = len as u32;
                generation = 0;
            },
        }
        self.edge_count = self.edge_count + 1;
        push_front(&mut self.outgoing, source.index(), x);
        push_front(&mut self.incoming, target.index(), x);
        let key = StableEdgeKey::new(x, generation);
        proof {
            let cell = fresh_edge(generation, payload, source.slot, target.slot);
            let s = source.slot as int;
            let t = target.slot as int;
            let linked_out = m.nodes.update(s, NodeCell { outgoing: seq![x] + m.nodes[s].outgoing, ..m.nodes[s] });
            let after = StableModel {
                nodes: linked_out.update(t, NodeCell { incoming: seq![x] + linked_out[t].incoming, ..linked_out[t] }),
                edges: if m.free_edges.len() > 0 { m.edges.update(x as int, cell) } else { m.edges.push(cell) },
                free_edges: if m.free_edges.len() > 0 { m.free_edges.drop_last() } else { m.free_edges },
                ..m
            };
            assert(self@.nodes =~= after.nodes);
            assert(self@.edges =~= after.edges);
            assert(self@.free_edges =~= after.free_edges);
            assert(self@ == after);
            lemma_add_edge_wf(m, source, target, payload, self@, Ok(key));
            lemma_live_nodes_same(m.nodes, self@.nodes);
        }
        Ok(key)
    }

    /// Mutable access to the payload of the live node `key`.
    pub fn node_mut(&mut self, key: StableNodeKey) -> (r: Option<&mut N>)
        requires
            old(self).wf(),
        ensures
            r is Some <==> old(self)@.has_node(key),
            r is None ==> final(self)@ == old(self)@ && final(self).wf(),
            r is Some ==> Some(*r.unwrap()) == old(self)@.nodes[key.slot as int].value,
            r is Some ==> final(self)@ == old(self)@.with_node_value(key.slot as int, *final(r.unwrap())),
    {
        if !self.node_present(key) {
            return None;
        }
        self.node_values[key.index()].as_mut()
    }

    /// Whether `key` names a live node.
    pub fn contains_node(&self, key: StableNodeKey) -> (r: bool)
        requires
            self.wf(),
        ensures
            r == self@.has_node(key),
    {
        self.node_present(key)
    }

    /// Whether `key` names a live edge.
    pub fn contains_edge(&self, key: StableEdgeKey) -> (r: bool)
        requires
            self.wf(),
        ensures
            r == self@.has_edge(key),
    {
        self.edge_present(key)
    }

    /// Puts `payload` in the live node `key` and returns the payload it
    /// held; nothing changes for a key that names no live node.
    pub fn replace_node(&mut self, key: StableNodeKey, payload: N) -> (r: Option<N>)
        requires
            old(self).wf(),
        ensures
            final(self).wf(),
            old(self)@.has_node(key) ==> r == old(self)@.nodes[key.slot as int].value && final(self)@ == old(
                self,
            )@.with_node_value(key.slot as int, payload),
            !old(self)@.has_node(key) ==> r is None && final(self)@ == old(self)@,
    {
        if !self.node_present(key) {
            return None;
        }
        let ghost m = self@;
        let i = key.index();
        let mut cell = Some(payload);
        std::mem::swap(&mut self.node_values[i], &mut cell);
        proof {
            let after = m.with_node_value(i as int, payload);
            assert(self@.nodes =~= after.nodes);
            assert(self@ == after);
            lemma_live_nodes_update(m.nodes, i as int, after.nodes[i as int]);
            assert(after.nodes == m.nodes.update(i as int, after.nodes[i as int]));
            assert forall|v: int| after.node_live(v) == m.node_live(v) by {}
            assert forall|x: int| after.edge_live(x) == m.edge_live(x) by {}
        }
        cell
    }

    /// Mutable access to the payload of the live edge `key`.
    pub fn edge_mut(&mut self, key: StableEdgeKey) -> (r: Option<&mut E>)
        requires
            old(self).wf(),
        ensures
            r is Some <==> old(self)@.has_edge(key),
            r is None ==> final(self)@ == old(self)@ && final(self).wf(),
            r is Some ==> Some(*r.unwrap()) == old(self)@.edges[key.slot as int].value,
            r is Some ==> final(self)@ == old(self)@.with_edge_value(key.slot as int, *final(r.unwrap())),
    {
        if !self.edge_present(key) {
            return None;
        }
        self.edge_values[key.index()].as_mut()
    }

    /// Removes the live edge `key` and returns its payload; see
    /// `StableModel::drop_edge`.
    pub fn remove_edge(&mut self, key: StableEdgeKey) -> (r: Option<E>)
        requires
            old(self).wf(),
        ensures
            final(self).wf(),
            old(self)@.has_edge(key) ==> r == old(self)@.edges[key.slot as int].value && final(self)@ == old(self)@.drop_edge(
                key.slot as int,
            ),
            !old(self)@.has_edge(key) ==> r is None && final(self)@ == old(self)@,
    {
        if !self.edge_present(key) {
            return None;
        }
        let ghost m = self@;
        let i = key.index();
        let s = self.edge_source[i] as usize;
        let t = self.edge_target[i] as usize;
        proof {
            assert(m.edge_live(i as int));
            assert(m.node_live(s as int) && m.node_live(t as int));
            assert(m.nodes[s as int].outgoing.no_duplicates());
            assert(m.nodes[t as int].incoming.no_duplicates());
            lemma_drop_edge_wf(m, i as int);
        }
        remove_from(&mut self.outgoing, s, key.slot);
        remove_from(&mut self.incoming, t, key.slot);
        let mut value: Option<E> = None;
        self.edge_values.set_and_swap(i, &mut value);
        self.edge_count = self.edge_count - 1;
        let g = self.edge_generation[i];
        if g < u32::MAX {
            self.edge_generation.set(i, g + 1);
            self.free_edges.push(key.slot);
        }
        proof {
            let a = m.drop_edge(i as int);
            assert(self@.nodes =~= a.nodes);
            assert(self@.edges =~= a.edges);
            assert(self@.free_edges =~= a.free_edges);
            assert(self@ == a);
        }
        value
    }

    /// Removes the live node `key` with every edge that touches it, in
    /// increasing edge-slot order, and returns its payload.
    pub fn remove_node(&mut self, key: StableNodeKey) -> (r: Option<N>)
        requires
            old(self).wf(),
        ensures
            final(self).wf(),
            !old(self)@.has_node(key) ==> r is None && final(self)@ == old(self)@,
            old(self)@.has_node(key) ==> r == old(self)@.nodes[key.slot as int].value && exists|xs: Seq<u32>|
                {
                    &&& forall|i: int, j: int| 0 <= i < j < xs.len() ==> xs[i] < xs[j]
                    &&& forall|y: u32| #[trigger] xs.contains(y) <==> (old(self)@.nodes[key.slot as int].outgoing.contains(y)
                        || old(self)@.nodes[key.slot as int].incoming.contains(y))
                    &&& final(self)@ == old(self)@.drop_edges(xs).drop_node(key.slot as int)
                },
    {
        if !self.node_present(key) {
            return None;
        }
        let ghost m = self@;
        let v = key.index();
        let mut incident: Vec<u32> = Vec::new();
        let out_len = self.outgoing[v].len();
        let mut k: usize = 0;
        while k < out_len
            invariant
                self.wf(),
                self@ == m,
                v < m.nodes.len(),
                out_len == m.nodes[v as int].outgoing.len(),
                k <= out_len,
                forall|i: int, j: int| 0 <= i < j < incident@.len() ==> incident@[i] < incident@[j],
                forall|y: u32| #[trigger] incident@.contains(y) <==> exists|j: int| 0 <= j < k && m.nodes[v as int].outgoing[j] == y,
            decreases out_len - k,
        {
            let x = self.outgoing[v][k];
            let ghost pre = incident@;
            crate::operator::insert_sorted(&mut incident, x);
            proof {
                assert forall|y: u32| #[trigger] incident@.contains(y) <==> exists|j: int| 0 <= j < k + 1 && m.nodes[v as int].outgoing[j] == y by {
                    if exists|j: int| 0 <= j < k + 1 && m.nodes[v as int].outgoing[j] == y {
                        let j = choose|j: int| 0 <= j < k + 1 && m.nodes[v as int].outgoing[j] == y;
                        if j < k {
                            assert(pre.contains(y));
                        }
                    }
                }
            }
            k = k + 1;
        }
        let ghost after_out = incident@;
        let in_len = self.incoming[v].len();
        let mut k: usize = 0;
        while k < in_len
            invariant
                self.wf(),
                self@ == m,
                v < m.nodes.len(),
                in_len == m.nodes[v as int].incoming.len(),
                k <= in_len,
                forall|i: int, j: int| 0 <= i < j < incident@.len() ==> incident@[i] < incident@[j],
                forall|y: u32| #[trigger] incident@.contains(y) <==> (after_out.contains(y) || exists|j: int| 0 <= j < k && m.nodes[v as int].incoming[j] == y),
            decreases in_len - k,
        {
            let x = self.incoming[v][k];
            let ghost pre = incident@;
            crate::operator::insert_sorted(&mut incident, x);
            proof {
                assert forall|y: u32| #[trigger] incident@.contains(y) <==> (after_out.contains(y) || exists|j: int| 0 <= j < k + 1 && m.nodes[v as int].incoming[j] == y) by {
                    if exists|j: int| 0 <= j < k + 1 && m.nodes[v as int].incoming[j] == y {
                        let j = choose|j: int| 0 <= j < k + 1 && m.nodes[v as int].incoming[j] == y;
                        if j < k {
                            assert(pre.contains(y));
                        }
                    }
                }
            }
            k = k + 1;
        }
        let ghost xs = incident@;
        proof {
            assert forall|y: u32| #[trigger] xs.contains(y) <==> (m.nodes[v as int].outgoing.contains(y) || m.nodes[v as int].incoming.contains(y)) by {
                if m.nodes[v as int].outgoing.contains(y) {
                    let j = choose|j: int| 0 <= j < m.nodes[v as int].outgoing.len() && m.nodes[v as int].outgoing[j] == y;
                    assert(after_out.contains(y));
                }
                if m.nodes[v as int].incoming.contains(y) {
                    let j = choose|j: int| 0 <= j < m.nodes[v as int].incoming.len() && m.nodes[v as int].incoming[j] == y;
                }
            }
            assert forall|y: u32| #[trigger] xs.contains(y) implies m.edge_live(y as int) by {
                if m.nodes[v as int].outgoing.contains(y) {
                } else {
                    assert(m.nodes[v as int].incoming.contains(y));
                }
            }
            assert(xs.subrange(0, 0) =~= Seq::<u32>::empty());
        }
        let mut k: usize = 0;
        while k < incident.len()
            invariant
                self.wf(),
                xs == incident@,
                forall|i: int, j: int| 0 <= i < j < xs.len() ==> xs[i] < xs[j],
                forall|y: u32| #[trigger] xs.contains(y) ==> m.edge_live(y as int),
                m.wf(),
                m.node_live(v as int),
                v < m.nodes.len(),
                k <= xs.len(),
                self@ == m.drop_edges(xs.subrange(0, k as int)),
                self@.nodes.len() == m.nodes.len(),
                self@.edges.len() == m.edges.len(),
                forall|w: int| 0 <= w < m.nodes.len() ==> (#[trigger] self@.nodes[w]).value == m.nodes[w].value
                    && self@.nodes[w].generation == m.nodes[w].generation,
                forall|y: int| 0 <= y < m.edges.len() && !xs.subrange(0, k as int).contains(y as u32) ==> #[trigger] self@.edges[y] == m.edges[y],
                forall|y: int| 0 <= y < m.edges.len() && xs.subrange(0, k as int).contains(y as u32) ==> !#[trigger] self@.edge_live(y),
                live_nodes(self@.nodes) == live_nodes(m.nodes),
            decreases xs.len() - k,
        {
            let x = incident[k];
            let ghost cur = self@;
            proof {
                assert(xs.contains(x)) by {
                    assert(xs[k as int] == x);
                }
                assert(m.edge_live(x as int));
                assert(!xs.subrange(0, k as int).contains(x)) by {
                    if xs.subrange(0, k as int).contains(x) {
                        let j = choose|j: int| 0 <= j < k && xs.subrange(0, k as int)[j] == x;
                        assert(xs[j] < xs[k as int]);
                    }
                }
                assert(cur.edges[x as int] == m.edges[x as int]);
                assert(cur.edge_live(x as int));
                lemma_drop_edge_wf(cur, x as int);
            }
            let g = self.edge_generation[x as usize];
            let removed = self.remove_edge(StableEdgeKey::new(x, g));
            proof {
                let pre = xs.subrange(0, k as int);
                let post = xs.subrange(0, k + 1);
                assert(post.drop_last() =~= pre);
                assert(post.last() == x);
                assert(self@ == m.drop_edges(post));
                assert forall|y: int| 0 <= y < m.edges.len() && !post.contains(y as u32) implies #[trigger] self@.edges[y] == m.edges[y] by {
                    if pre.contains(y as u32) {
                        let j = choose|j: int| 0 <= j < pre.len() && pre[j] == y as u32;
                        assert(post[j] == y as u32);
                    }
                    assert(y != x);
                }
                assert forall|y: int| 0 <= y < m.edges.len() && post.contains(y as u32) implies !#[trigger] self@.edge_live(y) by {
                    if y != x {
                        let j = choose|j: int| 0 <= j < post.len() && post[j] == y as u32;
                        assert(j < k);
                        assert(pre[j] == y as u32);
                        assert(pre.contains(y as u32));
                        assert(!cur.edge_live(y));
                        assert(self@.edges[y] == cur.edges[y]);
                    } else {
                        assert(!cur.drop_edge(x as int).edge_live(x as int));
                    }
                }
            }
            k = k + 1;
        }
        let ghost done = self@;
        proof {
            assert(xs.subrange(0, xs.len() as int) =~= xs);
            assert forall|y: u32| !done.nodes[v as int].outgoing.contains(y) by {
                if done.nodes[v as int].outgoing.contains(y) {
                    assert(done.edge_live(y as int) && done.edges[y as int].source == v);
                    assert(!xs.contains(y));
                    assert(done.edges[y as int] == m.edges[y as int]);
                    assert(m.edge_live(y as int));
                    assert(m.nodes[v as int].outgoing.contains(y));
                }
            }
            assert forall|y: u32| !done.nodes[v as int].incoming.contains(y) by {
                if done.nodes[v as int].incoming.contains(y) {
                    assert(done.edge_live(y as int) && done.edges[y as int].target == v);
                    assert(!xs.contains(y));
                    assert(done.edges[y as int] == m.edges[y as int]);
                    assert(m.edge_live(y as int));
                    assert(m.nodes[v as int].incoming.contains(y));
                }
            }
            if done.nodes[v as int].outgoing.len() > 0 {
                assert(done.nodes[v as int].outgoing.contains(done.nodes[v as int].outgoing[0]));
            }
            if done.nodes[v as int].incoming.len() > 0 {
                assert(done.nodes[v as int].incoming.contains(done.nodes[v as int].incoming[0]));
            }
            assert(done.node_live(v as int));
            lemma_drop_node_wf(done, v as int);
        }
        let mut value: Option<N> = None;
        self.node_values.set_and_swap(v, &mut value);
        self.outgoing.set(v, Vec::new());
        self.incoming.set(v, Vec::new());
        self.node_count = self.node_count - 1;
        let g = self.node_generation[v];
        if g < u32::MAX {
            self.node_generation.set(v, g + 1);
            self.free_nodes.push(key.slot);
        }
        proof {
            let a = done.drop_node(v as int);
            assert(self@.nodes =~= a.nodes);
            assert(self@.free_nodes =~= a.free_nodes);
            assert(self@ == a);
        }
        value
    }

    /// Moves the live edge `key` to run from `source` to `target`, keeping
    /// its key and payload; see `StableModel::set_endpoints_result`.
    pub fn set_edge_endpoints(&mut self, key: StableEdgeKey, source: StableNodeKey, target: StableNodeKey) -> (r: Result<bool>)
        requires
            old(self).wf(),
        ensures
            final(self).wf(),
            old(self)@.set_endpoints_result(key, source, target, final(self)@, r),
    {
        let ghost m = self@;
        match self.require_node(source) {
            Err(e) => return Err(e),
            Ok(()) => {},
        }
        match self.require_node(target) {
            Err(e) => return Err(e),
            Ok(()) => {},
        }
        if !self.edge_present(key) {
            return Ok(false);
        }
        let i = key.index();
        let s = self.edge_source[i];
        let t = self.edge_target[i];
        if s == source.slot && t == target.slot {
            return Ok(true);
        }
        proof {
            assert(m.edge_live(i as int));
            assert(m.node_live(s as int) && m.node_live(t as int));
            assert(m.nodes[s as int].outgoing.no_duplicates());
            assert(m.nodes[t as int].incoming.no_duplicates());
            lemma_relink_wf(m, i as int, source.slot, target.slot);
        }
        remove_from(&mut self.outgoing, s as usize, key.slot);
        remove_from(&mut self.incoming, t as usize, key.slot);
        self.edge_source.set(i, source.slot);
        self.edge_target.set(i, target.slot);
        push_front(&mut self.outgoing, source.index(), key.slot);
        push_front(&mut self.incoming, target.index(), key.slot);
        proof {
            let a = m.relink(i as int, source.slot, target.slot);
            assert(self@.nodes =~= a.nodes);
            assert(self@.edges =~= a.edges);
            assert(self@ == a);
        }
        Ok(true)
    }

    /// Compacts the live slots, in slot order, into a payload graph, with
    /// the map from stable keys to compact indexes.
    pub fn freeze(self) -> (r: crate::error::Result<FrozenPayloadGraph<N, E>>)
        requires
            self.wf(),
        ensures
            payload_build(
                live_node_payloads(self@.nodes),
                self@.frozen_edges(self@.edges.len()),
                match r {
                    Ok(f) => Ok::<PayloadGraph<N, E>, GraphError>(f.frozen()),
                    Err(e) => Err::<PayloadGraph<N, E>, GraphError>(e),
                },
            ),
            r matches Ok(f) ==> f.key_map().node_slots() == self@.node_freeze_map() && f.key_map().edge_slots()
                == self@.edge_freeze_map(),
    {
        let ghost m = self@;
        let StablePayloadGraph {
            node_generation,
            node_values,
            outgoing: _,
            incoming: _,
            edge_generation,
            edge_values,
            edge_source,
            edge_target,
            free_nodes: _,
            free_edges: _,
            node_count: _,
            edge_count: _,
        } = self;
        let mut node_values = node_values;
        let mut edge_values = edge_values;
        let n = node_values.len();
        let mut node_map: Vec<Option<(u32, NodeIndex)>> = Vec::new();
        let mut nodes: Vec<N> = Vec::new();
        let mut v: usize = 0;
        while v < n
            invariant
                n == m.nodes.len() <= u32::MAX + 1,
                node_generation@.len() == n,
                node_values@.len() == n,
                forall|j: int| 0 <= j < n ==> #[trigger] node_generation@[j] == m.nodes[j].generation,
                forall|j: int| v <= j < n ==> #[trigger] node_values@[j] == m.nodes[j].value,
                v <= n,
                node_map@ == m.node_freeze_map().subrange(0, v as int),
                nodes@ == live_node_payloads(m.nodes.subrange(0, v as int)),
                nodes@.len() == node_rank(m.nodes, v as int),
            decreases n - v,
        {
            let mut cell: Option<N> = None;
            node_values.set_and_swap(v, &mut cell);
            proof {
                lemma_rank_step_nodes(m.nodes, v as int);
                lemma_rank_bound(m.nodes, v as int);
            }
            match cell {
                Some(p) => {
                    let idx = nodes.len();
                    node_map.push(Some((node_generation[v], NodeIndex::new(idx as u32))));
                    nodes.push(p);
                },
                None => {
                    node_map.push(None);
                },
            }
            proof {
                assert(node_map@ =~= m.node_freeze_map().subrange(0, v + 1));
            }
            v = v + 1;
        }
        let me = edge_values.len();
        let mut edge_map: Vec<Option<(u32, EdgeIndex)>> = Vec::new();
        let mut edges: Vec<(EdgeEndpoints<NodeIndex>, E)> = Vec::new();
        let mut x: usize = 0;
        proof {
            assert(node_map@ =~= m.node_freeze_map());
            assert(m.nodes.subrange(0, n as int) =~= m.nodes);
        }
        while x < me
            invariant
                me == m.edges.len() <= u32::MAX + 1,
                m.wf(),
                edge_generation@.len() == me,
                edge_values@.len() == me,
                edge_source@.len() == me,
                edge_target@.len() == me,
                node_map@ == m.node_freeze_map(),
                forall|j: int| 0 <= j < me ==> #[trigger] edge_generation@[j] == m.edges[j].generation,
                forall|j: int| 0 <= j < me ==> #[trigger] edge_source@[j] == m.edges[j].source,
                forall|j: int| 0 <= j < me ==> #[trigger] edge_target@[j] == m.edges[j].target,
                forall|j: int| x <= j < me ==> #[trigger] edge_values@[j] == m.edges[j].value,
                x <= me,
                edge_map@ == m.edge_freeze_map().subrange(0, x as int),
                edges@ == m.frozen_edges(x as nat),
                edges@.len() == edge_rank(m.edges, x as int),
            decreases me - x,
        {
            let mut cell: Option<E> = None;
            edge_values.set_and_swap(x, &mut cell);
            proof {
                lemma_rank_step_edges(m.edges, x as int);
                lemma_live_edges_bound(m.edges.subrange(0, x as int));
            }
            match cell {
                Some(p) => {
                    let s = edge_source[x] as usize;
                    let t = edge_target[x] as usize;
                    proof {
                        assert(m.edge_live(x as int));
                        assert(m.node_live(s as int) && m.node_live(t as int));
                    }
                    let source = match node_map[s] {
                        Some(entry) => entry.1,
                        None => NodeIndex::new(0),
                    };
                    let target = match node_map[t] {
                        Some(entry) => entry.1,
                        None => NodeIndex::new(0),
                    };
                    let idx = edges.len();
                    edge_map.push(Some((edge_generation[x], EdgeIndex::new(idx as u32))));
                    edges.push((EdgeEndpoints::new(source, target), p));
                },
                None => {
                    edge_map.push(None);
                },
            }
            proof {
                assert(edge_map@ =~= m.edge_freeze_map().subrange(0, x + 1));
            }
            x = x + 1;
        }
        proof {
            assert(edge_map@ =~= m.edge_freeze_map());
        }
        let ghost node_seq = nodes@;
        let ghost edge_seq = edges@;
        let built = PayloadGraph::try_from_edges(nodes, edges);
        match built {
            Ok(graph) => {
                let f = FrozenPayloadGraph::from_parts(graph, PayloadFreezeMap::from_slots(node_map, edge_map));
                Ok(f)
            },
            Err(e) => Err(e),
        }
    }

    /// The same graph with every node payload replaced by `map_node` of it
    /// and every edge payload by `map_edge` of it, keys unchanged.
    pub fn map_payloads<M, F, NM: Fn(N) -> M, EM: Fn(E) -> F>(self, map_node: NM, map_edge: EM) -> (r: StablePayloadGraph<M, F>)
        requires
            self.wf(),
            forall|p: N| call_requires(map_node, (p,)),
            forall|p: E| call_requires(map_edge, (p,)),
        ensures
            r.wf(),
            mapped_model(self@, r@, map_node, map_edge),
    {
        let ghost m = self@;
        let StablePayloadGraph {
            node_generation,
            node_values,
            outgoing,
            incoming,
            edge_generation,
            edge_values,
            edge_source,
            edge_target,
            free_nodes,
            free_edges,
            node_count,
            edge_count,
        } = self;
        let mut node_values = node_values;
        let mut edge_values = edge_values;
        let n = node_values.len();
        let mut mapped_nodes: Vec<Option<M>> = Vec::new();
        let mut v: usize = 0;
        while v < n
            invariant
                n == node_values@.len() == m.nodes.len(),
                v <= n,
                forall|j: int| v <= j < n ==> #[trigger] node_values@[j] == m.nodes[j].value,
                mapped_nodes@.len() == v,
                forall|p: N| call_requires(map_node, (p,)),
                forall|j: int|
                    0 <= j < v ==> match m.nodes[j].value {
                        Some(p) => #[trigger] mapped_nodes@[j] matches Some(q) && call_ensures(map_node, (p,), q),
                        None => mapped_nodes@[j] is None,
                    },
            decreases n - v,
        {
            let mut cell: Option<N> = None;
            node_values.set_and_swap(v, &mut cell);
            match cell {
                Some(p) => {
                    let q = map_node(p);
                    mapped_nodes.push(Some(q));
                },
                None => {
                    mapped_nodes.push(None);
                },
            }
            v = v + 1;
        }
        let me = edge_values.len();
        let mut mapped_edges: Vec<Option<F>> = Vec::new();
        let mut x: usize = 0;
        while x < me
            invariant
                me == edge_values@.len() == m.edges.len(),
                x <= me,
                forall|j: int| x <= j < me ==> #[trigger] edge_values@[j] == m.edges[j].value,
                mapped_edges@.len() == x,
                forall|p: E| call_requires(map_edge, (p,)),
                forall|j: int|
                    0 <= j < x ==> match m.edges[j].value {
                        Some(p) => #[trigger] mapped_edges@[j] matches Some(q) && call_ensures(map_edge, (p,), q),
                        None => mapped_edges@[j] is None,
                    },
            decreases me - x,
        {
            let mut cell: Option<E> = None;
            edge_values.set_and_swap(x, &mut cell);
            match cell {
                Some(p) => {
                    let q = map_edge(p);
                    mapped_edges.push(Some(q));
                },
                None => {
                    mapped_edges.push(None);
                },
            }
            x = x + 1;
        }
        let r = StablePayloadGraph {
            node_generation,
            node_values: mapped_nodes,
            outgoing,
            incoming,
            edge_generation,
            edge_values: mapped_edges,
            edge_source,
            edge_target,
            free_nodes,
            free_edges,
            node_count,
            edge_count,
        };
        proof {
            let a = r@;
            assert forall|v: int| 0 <= v < a.nodes.len() implies (#[trigger] a.nodes[v].value is Some <==> m.nodes[v].value is Some) by {}
            assert forall|x: int| 0 <= x < a.edges.len() implies (#[trigger] a.edges[x].value is Some <==> m.edges[x].value is Some) by {}
            lemma_live_nodes_same_kinds(m.nodes, a.nodes);
            lemma_live_edges_same_kinds(m.edges, a.edges);
            assert forall|y: int| #[trigger] a.edge_live(y) implies a.node_live(a.edges[y].source as int) && a.node_live(
                a.edges[y].target as int) by {
                assert(m.edge_live(y));
            }
            assert forall|w: int, y: u32| 0 <= w < a.nodes.len() && #[trigger] a.nodes[w].outgoing.contains(y) implies a.edge_live(
                y as int) && a.edges[y as int].source == w by {
                assert(m.nodes[w].outgoing.contains(y));
            }
            assert forall|w: int, y: u32| 0 <= w < a.nodes.len() && #[trigger] a.nodes[w].incoming.contains(y) implies a.edge_live(
                y as int) && a.edges[y as int].target == w by {
                assert(m.nodes[w].incoming.contains(y));
            }
            assert forall|y: int| #[trigger] a.edge_live(y) implies a.nodes[a.edges[y].source as int].outgoing.contains(y as u32)
                && a.nodes[a.edges[y].target as int].incoming.contains(y as u32) by {
                assert(m.edge_live(y));
            }
            assert forall|w: int| 0 <= w < a.nodes.len() implies (#[trigger] a.nodes[w]).outgoing.no_duplicates() by {
                assert(m.nodes[w].outgoing.no_duplicates());
            }
            assert forall|w: int| 0 <= w < a.nodes.len() implies (#[trigger] a.nodes[w]).incoming.no_duplicates() by {
                assert(m.nodes[w].incoming.no_duplicates());
            }
            assert forall|i: int| 0 <= i < a.free_nodes.len() implies 0 <= #[trigger] a.free_nodes[i] < a.nodes.len()
                && !a.node_live(a.free_nodes[i] as int) by {
                assert(!m.node_live(m.free_nodes[i] as int));
            }
            assert forall|i: int| 0 <= i < a.free_edges.len() implies 0 <= #[trigger] a.free_edges[i] < a.edges.len()
                && !a.edge_live(a.free_edges[i] as int) by {
                assert(!m.edge_live(m.free_edges[i] as int));
            }
        }
        r
    }
}

impl<N, E> StablePayloadGraph<N, E> {
    /// A well-formed graph has a well-formed model.
    pub proof fn lemma_model_wf(&self)
        requires
            self.wf(),
        ensures
            self@.wf(),
    {
    }

    /// Whether node slot `to` can be reached from the live node slot `from`
    /// along live edges other than `skip`, by breadth-first search.
    pub(crate) fn reaches_slot(&self, from: u32, to: u32, skip: Option<u32>) -> (r: bool)
        requires
            self.wf(),
            self@.node_live(from as int),
        ensures
            r == reaches(self@.edges, slot_opt(skip), from as int, to as int),
    {
        let n = self.node_values.len();
        let ghost edges = self@.edges;
        let ghost sk = slot_opt(skip);
        let mut seen: Vec<bool> = Vec::new();
        let mut i: usize = 0;
        while i < n
            invariant
                i <= n,
                seen@.len() == i,
                forall|k: int| 0 <= k < i ==> !seen@[k],
            decreases n - i,
        {
            seen.push(false);
            i = i + 1;
        }
        seen.set(from as usize, true);
        let mut queue: Vec<u32> = Vec::new();
        queue.push(from);
        proof {
            lemma_reaches_self(edges, sk, from as int);
            assert(queue@[0] == from);
            assert forall|v: int| 0 <= v < n implies (seen@[v] <==> queue@.contains(v as u32)) by {
                if v == from {
                    assert(queue@[0] == v as u32);
                } else {
                    if queue@.contains(v as u32) {
                        let k = choose|k: int| 0 <= k < queue@.len() && queue@[k] == v as u32;
                        assert(k == 0);
                    }
                }
            }
        }
        let mut head: usize = 0;
        while head < queue.len()
            invariant
                self.wf(),
                n == self@.nodes.len(),
                edges == self@.edges,
                sk == slot_opt(skip),
                seen@.len() == n,
                head <= queue@.len(),
                queue@.no_duplicates(),
                (from as int) < n,
                seen@[from as int],
                forall|k: int| 0 <= k < queue@.len() ==> (#[trigger] queue@[k]) < n,
                forall|v: int| 0 <= v < n ==> (#[trigger] seen@[v] <==> queue@.contains(v as u32)),
                forall|v: int| 0 <= v < n && #[trigger] seen@[v] ==> reaches(edges, sk, from as int, v),
                forall|k: int, w: int|
                    0 <= k < head && #[trigger] arc(edges, sk, queue@[k] as int, w) ==> 0 <= w < n && seen@[w],
            decreases n - head,
        {
            proof {
                lemma_distinct_slots(queue@, n as int);
            }
            let u = queue[head];
            let ghost q0 = queue@;
            proof {
                assert(seen@[u as int]) by {
                    assert(queue@.contains(u));
                }
            }
            let row = &self.outgoing[u as usize];
            proof {
                assert(row@ == self@.nodes[u as int].outgoing);
            }
            let mut k: usize = 0;
            while k < row.len()
                invariant
                    self.wf(),
                    n == self@.nodes.len(),
                    edges == self@.edges,
                    sk == slot_opt(skip),
                    seen@.len() == n,
                    head < q0.len(),
                    q0[head as int] == u,
                    (u as int) < n,
                    row@ == self@.nodes[u as int].outgoing,
                    k <= row@.len(),
                    queue@.len() >= q0.len(),
                    forall|j: int| 0 <= j < q0.len() ==> queue@[j] == q0[j],
                    queue@.no_duplicates(),
                    (from as int) < n,
                    seen@[from as int],
                    seen@[u as int],
                    forall|j: int| 0 <= j < queue@.len() ==> (#[trigger] queue@[j]) < n,
                    forall|v: int| 0 <= v < n ==> (#[trigger] seen@[v] <==> queue@.contains(v as u32)),
                    forall|v: int| 0 <= v < n && #[trigger] seen@[v] ==> reaches(edges, sk, from as int, v),
                    forall|j: int, w: int|
                        0 <= j < head && #[trigger] arc(edges, sk, q0[j] as int, w) ==> 0 <= w < n && seen@[w],
                    forall|j: int|
                        0 <= j < k && sk != Some(#[trigger] row@[j] as int) ==> (edges[row@[j] as int].target as int) < n
                            && seen@[edges[row@[j] as int].target as int],
                decreases row@.len() - k,
            {
                let x = row[k];
                proof {
                    assert(self@.nodes[u as int].outgoing.contains(x));
                    assert(self@.edge_live(x as int));
                }
                let pass = match skip {
                    Some(y) => y != x,
                    None => true,
                };
                if pass {
                    let w = self.edge_target[x as usize];
                    proof {
                        assert(carries(edges, sk, x as int, u as int, w as int));
                        assert(self@.node_live(w as int));
                    }
                    if !seen[w as usize] {
                        proof {
                            lemma_reaches_step(edges, sk, from as int, u as int, w as int);
                            assert(!queue@.contains(w));
                        }
                        let ghost qb = queue@;
                        let ghost sb = seen@;
                        seen.set(w as usize, true);
                        queue.push(w);
                        proof {
                            assert(queue@ == qb.push(w));
                            assert forall|v: int| 0 <= v < n implies (#[trigger] seen@[v] <==> queue@.contains(
                                v as u32,
                            )) by {
                                if v == w as int {
                                    assert(queue@[queue@.len() - 1] == w);
                                } else {
                                    assert(seen@[v] == sb[v]);
                                    assert(sb[v] <==> qb.contains(v as u32));
                                    if queue@.contains(v as u32) {
                                        let j = choose|j: int| 0 <= j < queue@.len() && queue@[j] == v as u32;
                                        assert(j < qb.len());
                                        assert(qb[j] == v as u32);
                                    }
                                    if qb.contains(v as u32) {
                                        let j = choose|j: int| 0 <= j < qb.len() && qb[j] == v as u32;
                                        assert(queue@[j] == v as u32);
                                    }
                                }
                            }
                        }
                    }
                }
                k = k + 1;
            }
            proof {
                assert forall|j: int, w: int|
                    0 <= j < head + 1 && #[trigger] arc(edges, sk, q0[j] as int, w) implies 0 <= w < n && seen@[w] by {
                    if j == head {
                        let x = choose|x: int| #[trigger] carries(edges, sk, x, u as int, w);
                        assert(self@.edge_live(x));
                        assert(self@.nodes[u as int].outgoing.contains(x as u32));
                        let jj = choose|jj: int| 0 <= jj < row@.len() && row@[jj] == x as u32;
                        assert(sk != Some(row@[jj] as int));
                    }
                }
                assert forall|j: int, w: int|
                    0 <= j < head + 1 && #[trigger] arc(edges, sk, queue@[j] as int, w) implies 0 <= w < n && seen@[w] by {
                    assert(queue@[j] == q0[j]);
                    assert(arc(edges, sk, q0[j] as int, w));
                }
            }
            head = head + 1;
        }
        let found = if (to as usize) < n { seen[to as usize] } else { false };
        proof {
            let set = Set::new(|v: int| 0 <= v < n && seen@[v]);
            assert forall|a: int, b: int| set.contains(a) && #[trigger] arc(edges, sk, a, b) implies set.contains(b) by {
                assert(queue@.contains(a as u32));
                let j = choose|j: int| 0 <= j < queue@.len() && queue@[j] == a as u32;
                assert(arc(edges, sk, queue@[j] as int, b));
            }
            if reaches(edges, sk, from as int, to as int) {
                lemma_closed_set_holds(edges, sk, set, from as int, to as int);
            }
        }
        found
    }

    /// Whether some live edge closes a cycle: its target reaches its source.
    pub(crate) fn has_cycle(&self) -> (r: bool)
        requires
            self.wf(),
        ensures
            r == !acyclic(self@.edges),
    {
        let ghost edges = self@.edges;
        let mut x: usize = 0;
        while x < self.edge_values.len()
            invariant
                self.wf(),
                edges == self@.edges,
                x <= edges.len(),
                forall|y: int| 0 <= y < x && #[trigger] self@.edge_live(y) ==> !reaches(
                    edges,
                    None,
                    edges[y].target as int,
                    edges[y].source as int,
                ),
            decreases edges.len() - x,
        {
            if self.edge_values[x].is_some() {
                let s = self.edge_source[x];
                let t = self.edge_target[x];
                proof {
                    assert(self@.edge_live(x as int));
                }
                if self.reaches_slot(t, s, None) {
                    proof {
                        assert(carries(edges, None, x as int, s as int, t as int));
                        assert(arc(edges, None, s as int, t as int));
                    }
                    return true;
                }
            }
            x = x + 1;
        }
        proof {
            assert forall|u: int, w: int| #[trigger] arc(edges, None, u, w) implies !reaches(edges, None, w, u) by {
                let y = choose|y: int| #[trigger] carries(edges, None, y, u, w);
                assert(self@.edge_live(y));
            }
        }
        false
    }
}

} // verus!
