use super::keys::{StableEdgeKey, StableNodeKey};
use super::stable::{stale_node, EdgeCell, StableModel, StablePayloadGraph};
use crate::error::{GraphError, Result};
use vstd::prelude::*;

verus! {

/// Live edge slot `x`, unless it is `skip`, runs from node slot `u` to node
/// slot `w`.
pub open spec fn carries<E>(edges: Seq<EdgeCell<E>>, skip: Option<int>, x: int, u: int, w: int) -> bool {
    &&& 0 <= x < edges.len()
    &&& edges[x].value is Some
    &&& skip != Some(x)
    &&& edges[x].source == u
    &&& edges[x].target == w
}

/// Some live edge other than `skip` runs from `u` to `w`.
pub open spec fn arc<E>(edges: Seq<EdgeCell<E>>, skip: Option<int>, u: int, w: int) -> bool {
    exists|x: int| #[trigger] carries(edges, skip, x, u, w)
}

/// `p` is a nonempty walk whose consecutive nodes are joined by arcs.
pub open spec fn is_path<E>(edges: Seq<EdgeCell<E>>, skip: Option<int>, p: Seq<int>) -> bool {
    &&& p.len() >= 1
    &&& forall|i: int| 0 <= i < p.len() - 1 ==> #[trigger] arc(edges, skip, p[i], p[i + 1])
}

/// `p` is a walk from `u` to `w`.
pub open spec fn path_between<E>(edges: Seq<EdgeCell<E>>, skip: Option<int>, p: Seq<int>, u: int, w: int) -> bool {
    is_path(edges, skip, p) && p[0] == u && p.last() == w
}

/// Node slot `w` can be reached from node slot `u` along live edges other
/// than `skip`; every slot reaches itself.
pub open spec fn reaches<E>(edges: Seq<EdgeCell<E>>, skip: Option<int>, u: int, w: int) -> bool {
    exists|p: Seq<int>| #[trigger] path_between(edges, skip, p, u, w)
}

/// No live edge closes a cycle: the target of an edge never leads back to
/// its source.
pub open spec fn acyclic<E>(edges: Seq<EdgeCell<E>>) -> bool {
    forall|u: int, w: int| #[trigger] arc(edges, None, u, w) ==> !reaches(edges, None, w, u)
}

/// The model's edges form no cycle.
pub open spec fn dag<N, E>(m: StableModel<N, E>) -> bool {
    acyclic(m.edges)
}

/// Every slot reaches itself.
pub proof fn lemma_reaches_self<E>(edges: Seq<EdgeCell<E>>, skip: Option<int>, u: int)
    ensures
        reaches(edges, skip, u, u),
{
    assert(path_between(edges, skip, seq![u], u, u));
}

/// A walk along the arcs of `a` is a walk along the arcs of `b` when every
/// arc of `a` is one of `b`.
pub proof fn lemma_reaches_within<E, F>(
    a: Seq<EdgeCell<E>>,
    ska: Option<int>,
    b: Seq<EdgeCell<F>>,
    skb: Option<int>,
    u: int,
    w: int,
)
    requires
        forall|x: int, y: int| #[trigger] arc(a, ska, x, y) ==> arc(b, skb, x, y),
        reaches(a, ska, u, w),
    ensures
        reaches(b, skb, u, w),
{
    let p = choose|p: Seq<int>| #[trigger] path_between(a, ska, p, u, w);
    assert forall|i: int| 0 <= i < p.len() - 1 implies #[trigger] arc(b, skb, p[i], p[i + 1]) by {
        assert(arc(a, ska, p[i], p[i + 1]));
    }
    assert(path_between(b, skb, p, u, w));
}

/// Fewer arcs keep a graph acyclic.
pub proof fn lemma_acyclic_within<E, F>(a: Seq<EdgeCell<E>>, b: Seq<EdgeCell<F>>)
    requires
        forall|x: int, y: int| #[trigger] arc(a, None, x, y) ==> arc(b, None, x, y),
        acyclic(b),
    ensures
        acyclic(a),
{
    assert forall|u: int, w: int| #[trigger] arc(a, None, u, w) implies !reaches(a, None, w, u) by {
        assert(arc(b, None, u, w));
        if reaches(a, None, w, u) {
            lemma_reaches_within(a, None, b, None, w, u);
        }
    }
}

/// The tail of a walk from position `j` on is a walk.
proof fn lemma_suffix_path<E>(edges: Seq<EdgeCell<E>>, skip: Option<int>, p: Seq<int>, j: int)
    requires
        is_path(edges, skip, p),
        0 <= j < p.len(),
    ensures
        is_path(edges, skip, p.subrange(j, p.len() as int)),
{
    let q = p.subrange(j, p.len() as int);
    assert forall|i: int| 0 <= i < q.len() - 1 implies #[trigger] arc(edges, skip, q[i], q[i + 1]) by {
        assert(arc(edges, skip, p[j + i], p[j + i + 1]));
    }
}

/// A walk along arcs of `after`, which are those of `base` and one more
/// from `s` to `t`, can be cut down to a walk along arcs of `base` when it
/// runs from `t` to `s`.
proof fn lemma_strip_new_arc<E, F>(
    base: Seq<EdgeCell<E>>,
    skip: Option<int>,
    after: Seq<EdgeCell<F>>,
    s: int,
    t: int,
    p: Seq<int>,
)
    requires
        forall|u: int, w: int| #[trigger] arc(after, None, u, w) ==> arc(base, skip, u, w) || (u == s && w == t),
        path_between(after, None, p, t, s),
    ensures
        reaches(base, skip, t, s),
    decreases p.len(),
{
    if forall|i: int| 0 <= i < p.len() - 1 ==> #[trigger] arc(base, skip, p[i], p[i + 1]) {
        assert(path_between(base, skip, p, t, s));
    } else {
        let j = choose|j: int| 0 <= j < p.len() - 1 && !#[trigger] arc(base, skip, p[j], p[j + 1]);
        assert(arc(after, None, p[j], p[j + 1]));
        let q = p.subrange(j + 1, p.len() as int);
        lemma_suffix_path(after, None, p, j + 1);
        assert(path_between(after, None, q, t, s));
        lemma_strip_new_arc(base, skip, after, s, t, q);
    }
}

/// Adding one arc from `s` to `t` to an acyclic set of arcs keeps it
/// acyclic when `t` does not reach `s`.
pub proof fn lemma_extend_acyclic<E, F>(
    base: Seq<EdgeCell<E>>,
    skip: Option<int>,
    after: Seq<EdgeCell<F>>,
    s: int,
    t: int,
)
    requires
        forall|u: int, w: int| #[trigger] arc(base, skip, u, w) ==> !reaches(base, skip, w, u),
        forall|u: int, w: int| #[trigger] arc(after, None, u, w) <==> arc(base, skip, u, w) || (u == s && w == t),
        !reaches(base, skip, t, s),
    ensures
        acyclic(after),
{
    assert forall|u: int, w: int| #[trigger] arc(after, None, u, w) implies !reaches(after, None, w, u) by {
        if reaches(after, None, w, u) {
            let q = choose|q: Seq<int>| #[trigger] path_between(after, None, q, w, u);
            if u == s && w == t {
                lemma_strip_new_arc(base, skip, after, s, t, q);
            } else if forall|i: int| 0 <= i < q.len() - 1 ==> #[trigger] arc(base, skip, q[i], q[i + 1]) {
                assert(path_between(base, skip, q, w, u));
                assert(arc(base, skip, u, w));
            } else {
                let j = choose|j: int| 0 <= j < q.len() - 1 && !#[trigger] arc(base, skip, q[j], q[j + 1]);
                assert(arc(after, None, q[j], q[j + 1]));
                let head = q.subrange(0, j + 1);
                let tail = q.subrange(j + 1, q.len() as int);
                let r = tail + head;
                assert forall|i: int| 0 <= i < r.len() - 1 implies #[trigger] arc(after, None, r[i], r[i + 1]) by {
                    if i < tail.len() - 1 {
                        assert(arc(after, None, q[j + 1 + i], q[j + 1 + i + 1]));
                    } else if i == tail.len() - 1 {
                        assert(r[i] == u && r[i + 1] == w);
                    } else {
                        let k = i - tail.len();
                        assert(arc(after, None, q[k], q[k + 1]));
                    }
                }
                assert(path_between(after, None, r, t, s));
                lemma_strip_new_arc(base, skip, after, s, t, r);
            }
        }
    }
}

/// The slot an optional exec slot names.
pub open spec fn slot_opt(skip: Option<u32>) -> Option<int> {
    match skip {
        Some(x) => Some(x as int),
        None => None,
    }
}

/// A walk extended by one arc is a walk.
pub proof fn lemma_reaches_step<E>(edges: Seq<EdgeCell<E>>, skip: Option<int>, a: int, u: int, w: int)
    requires
        reaches(edges, skip, a, u),
        arc(edges, skip, u, w),
    ensures
        reaches(edges, skip, a, w),
{
    let p = choose|p: Seq<int>| #[trigger] path_between(edges, skip, p, a, u);
    let q = p.push(w);
    assert forall|i: int| 0 <= i < q.len() - 1 implies #[trigger] arc(edges, skip, q[i], q[i + 1]) by {
        if i < p.len() - 1 {
            assert(arc(edges, skip, p[i], p[i + 1]));
        }
    }
    assert(path_between(edges, skip, q, a, w));
}

/// A set that holds `u` and is closed under arcs holds everything `u`
/// reaches.
pub proof fn lemma_closed_set_holds<E>(edges: Seq<EdgeCell<E>>, skip: Option<int>, set: Set<int>, u: int, w: int)
    requires
        set.contains(u),
        forall|a: int, b: int| set.contains(a) && #[trigger] arc(edges, skip, a, b) ==> set.contains(b),
        reaches(edges, skip, u, w),
    ensures
        set.contains(w),
{
    let p = choose|p: Seq<int>| #[trigger] path_between(edges, skip, p, u, w);
    lemma_path_in_set(edges, skip, set, p, (p.len() - 1) as nat);
}

proof fn lemma_path_in_set<E>(edges: Seq<EdgeCell<E>>, skip: Option<int>, set: Set<int>, p: Seq<int>, k: nat)
    requires
        is_path(edges, skip, p),
        set.contains(p[0]),
        forall|a: int, b: int| set.contains(a) && #[trigger] arc(edges, skip, a, b) ==> set.contains(b),
        k < p.len(),
    ensures
        set.contains(p[k as int]),
    decreases k,
{
    if k > 0 {
        lemma_path_in_set(edges, skip, set, p, (k - 1) as nat);
        assert(arc(edges, skip, p[k - 1], p[(k - 1) + 1]));
    }
}

/// A repetition-free list of slots below `n` has at most `n` entries.
pub proof fn lemma_distinct_slots(s: Seq<u32>, n: int)
    requires
        s.no_duplicates(),
        n >= 0,
        forall|i: int| 0 <= i < s.len() ==> (#[trigger] s[i]) < n,
    ensures
        s.len() <= n,
{
    let t = s.map_values(|x: u32| x as int);
    assert forall|i: int, j: int| 0 <= i < t.len() && 0 <= j < t.len() && i != j implies t[i] != t[j] by {
        assert(s[i] != s[j]);
    }
    assert forall|i: int| 0 <= i < t.len() implies 0 <= #[trigger] t[i] < n by {
        assert(s[i] < n);
    }
    crate::algo::reach::lemma_distinct_bounded(t, n);
}

/// Edges whose live slots are among those of `b`, at the same ends, have
/// no arc that `b` lacks.
pub proof fn lemma_fewer_arcs<E, F>(a: Seq<EdgeCell<E>>, b: Seq<EdgeCell<F>>)
    requires
        a.len() == b.len(),
        forall|x: int|
            0 <= x < a.len() && (#[trigger] a[x]).value is Some ==> b[x].value is Some && b[x].source == a[x].source
                && b[x].target == a[x].target,
    ensures
        forall|u: int, w: int| #[trigger] arc(a, None, u, w) ==> arc(b, None, u, w),
{
    assert forall|u: int, w: int| #[trigger] arc(a, None, u, w) implies arc(b, None, u, w) by {
        let x = choose|x: int| #[trigger] carries(a, None, x, u, w);
        assert(carries(b, None, x, u, w));
    }
}

/// Removing edges one after another only drops arcs.
proof fn lemma_drop_edges_arcs<N, E>(m: StableModel<N, E>, xs: Seq<u32>)
    requires
        forall|i: int| 0 <= i < xs.len() ==> (#[trigger] xs[i]) < m.edges.len(),
    ensures
        m.drop_edges(xs).edges.len() == m.edges.len(),
        forall|x: int|
            0 <= x < m.edges.len() && (#[trigger] m.drop_edges(xs).edges[x]).value is Some ==> m.edges[x].value is Some
                && m.edges[x].source == m.drop_edges(xs).edges[x].source && m.edges[x].target == m.drop_edges(
                xs,
            ).edges[x].target,
    decreases xs.len(),
{
    if xs.len() > 0 {
        assert forall|i: int| 0 <= i < xs.drop_last().len() implies (#[trigger] xs.drop_last()[i]) < m.edges.len() by {
            assert(xs.drop_last()[i] == xs[i]);
        }
        assert(xs[xs.len() - 1] < m.edges.len());
        lemma_drop_edges_arcs(m, xs.drop_last());
        let before = m.drop_edges(xs.drop_last());
        let x = xs.last() as int;
        if 0 <= x < before.edges.len() {
            assert forall|y: int|
                0 <= y < m.edges.len() && (#[trigger] m.drop_edges(xs).edges[y]).value is Some implies m.edges[y].value
                is Some && m.edges[y].source == m.drop_edges(xs).edges[y].source && m.edges[y].target == m.drop_edges(
                xs,
            ).edges[y].target by {
                assert(y != x);
                assert(m.drop_edges(xs).edges[y] == before.edges[y]);
            }
        }
    }
}

/// A stable payload graph that refuses every change that would close a
/// directed cycle.
pub struct AcyclicPayloadGraph<N, E> {
    graph: StablePayloadGraph<N, E>,
}

impl<N, E> View for AcyclicPayloadGraph<N, E> {
    type V = StableModel<N, E>;

    closed spec fn view(&self) -> StableModel<N, E> {
        self.graph@
    }
}

impl<N, E> AcyclicPayloadGraph<N, E> {
    /// The graph is well formed and its edges form no cycle.
    pub closed spec fn wf(&self) -> bool {
        self.graph.wf() && acyclic(self.graph@.edges)
    }

    /// The wrapped graph.
    pub closed spec fn inner(&self) -> StablePayloadGraph<N, E> {
        self.graph
    }

    /// A well-formed acyclic graph wraps a well-formed graph whose edges
    /// close no cycle; every change below keeps it so.
    pub proof fn lemma_acyclic(&self)
        requires
            self.wf(),
        ensures
            self.inner().wf(),
            self@ == self.inner()@,
            acyclic(self@.edges),
    {
    }

    /// An empty graph.
    pub fn new() -> (r: Self)
        ensures
            r.wf(),
            r@.nodes.len() == 0,
            r@.edges.len() == 0,
            r@.free_nodes.len() == 0,
            r@.free_edges.len() == 0,
    {
        let graph = StablePayloadGraph::new();
        proof {
            assert forall|u: int, w: int| #[trigger] arc(graph@.edges, None, u, w) implies !reaches(
                graph@.edges,
                None,
                w,
                u,
            ) by {
                let x = choose|x: int| #[trigger] carries(graph@.edges, None, x, u, w);
            }
        }
        AcyclicPayloadGraph { graph }
    }

    /// Wraps `graph` when its edges form no cycle.
    pub fn try_from_graph(graph: StablePayloadGraph<N, E>) -> (r: Result<Self>)
        requires
            graph.wf(),
        ensures
            r is Ok <==> acyclic(graph@.edges),
            match r {
                Ok(a) => a.wf() && a@ == graph@,
                Err(e) => e == GraphError::CycleWouldBeCreated,
            },
    {
        if graph.has_cycle() {
            Err(GraphError::CycleWouldBeCreated)
        } else {
            Ok(AcyclicPayloadGraph { graph })
        }
    }

    /// Adds a node with `payload`; see `StableModel::add_node_result`.
    pub fn add_node(&mut self, payload: N) -> (r: Result<StableNodeKey>)
        requires
            old(self).wf(),
        ensures
            final(self).wf(),
            old(self)@.add_node_result(payload, final(self)@, r),
    {
        let r = self.graph.add_node(payload);
        proof {
            assert(self.graph@.edges == old(self).graph@.edges);
        }
        r
    }

    /// Adds an edge from `source` to `target` unless either is stale or the
    /// edge would close a cycle: when the nodes coincide or `target`
    /// already reaches `source`.
    pub fn add_edge(&mut self, source: StableNodeKey, target: StableNodeKey, payload: E) -> (r: Result<StableEdgeKey>)
        requires
            old(self).wf(),
        ensures
            final(self).wf(),
            if !old(self)@.has_node(source) {
                r == Err::<StableEdgeKey, GraphError>(stale_node(source)) && final(self)@ == old(self)@
            } else if !old(self)@.has_node(target) {
                r == Err::<StableEdgeKey, GraphError>(stale_node(target)) && final(self)@ == old(self)@
            } else if source.slot == target.slot || reaches(
                old(self)@.edges,
                None,
                target.slot as int,
                source.slot as int,
            ) {
                r == Err::<StableEdgeKey, GraphError>(GraphError::CycleWouldBeCreated) && final(self)@ == old(self)@
            } else {
                old(self)@.add_edge_result(source, target, payload, final(self)@, r)
            },
    {
        if let Err(e) = self.graph.require_node(source) {
            return Err(e);
        }
        if let Err(e) = self.graph.require_node(target) {
            return Err(e);
        }
        if source.slot == target.slot || self.graph.reaches_slot(target.slot, source.slot, None) {
            proof {
                if source.slot == target.slot {
                    lemma_reaches_self(old(self)@.edges, None, target.slot as int);
                }
            }
            return Err(GraphError::CycleWouldBeCreated);
        }
        let ghost before = self.graph@;
        proof {
            self.graph.lemma_model_wf();
        }
        let r = self.graph.add_edge(source, target, payload);
        proof {
            let after = self.graph@;
            if r is Ok {
                let x: u32 = if before.free_edges.len() > 0 { before.free_edges.last() } else { before.edges.len() as u32 };
                let s = source.slot as int;
                let t = target.slot as int;
                if before.free_edges.len() > 0 {
                    assert(before.free_edges[before.free_edges.len() - 1] == x);
                    assert(!before.edge_live(x as int));
                }
                assert(after.edges.len() >= before.edges.len());
                assert(x as int <= before.edges.len() && x < after.edges.len());
                assert forall|y: int| 0 <= y < before.edges.len() && y != x as int implies after.edges[y] == before.edges[y] by {
                }
                assert forall|u: int, w: int| #[trigger] arc(after.edges, None, u, w) <==> arc(before.edges, None, u, w)
                    || (u == s && w == t) by {
                    if arc(after.edges, None, u, w) {
                        let y = choose|y: int| #[trigger] carries(after.edges, None, y, u, w);
                        if y != x as int {
                            assert(carries(before.edges, None, y, u, w));
                        }
                    }
                    if arc(before.edges, None, u, w) {
                        let y = choose|y: int| #[trigger] carries(before.edges, None, y, u, w);
                        assert(y != x as int);
                        assert(carries(after.edges, None, y, u, w));
                    }
                    if u == s && w == t {
                        assert(carries(after.edges, None, x as int, u, w));
                    }
                }
                lemma_extend_acyclic(before.edges, None, after.edges, s, t);
            }
        }
        r
    }

    /// Moves edge `edge` to run from `source` to `target` unless either node
    /// is stale or the move would close a cycle: when the nodes coincide or
    /// `target` reaches `source` without the edge itself.
    pub fn set_edge_endpoints(&mut self, edge: StableEdgeKey, source: StableNodeKey, target: StableNodeKey) -> (r:
        Result<bool>)
        requires
            old(self).wf(),
        ensures
            final(self).wf(),
            if !old(self)@.has_node(source) {
                r == Err::<bool, GraphError>(stale_node(source)) && final(self)@ == old(self)@
            } else if !old(self)@.has_node(target) {
                r == Err::<bool, GraphError>(stale_node(target)) && final(self)@ == old(self)@
            } else if source.slot == target.slot || reaches(
                old(self)@.edges,
                if old(self)@.has_edge(edge) {
                    Some(edge.slot as int)
                } else {
                    None
                },
                target.slot as int,
                source.slot as int,
            ) {
                r == Err::<bool, GraphError>(GraphError::CycleWouldBeCreated) && final(self)@ == old(self)@
            } else {
                old(self)@.set_endpoints_result(edge, source, target, final(self)@, r)
            },
    {
        if let Err(e) = self.graph.require_node(source) {
            return Err(e);
        }
        if let Err(e) = self.graph.require_node(target) {
            return Err(e);
        }
        let live = self.graph.edge_endpoints(edge).is_some();
        let skip = if live {
            Some(edge.slot)
        } else {
            None
        };
        let ghost sk = if old(self)@.has_edge(edge) {
            Some(edge.slot as int)
        } else {
            None
        };
        proof {
            assert(slot_opt(skip) == sk);
        }
        if source.slot == target.slot || self.graph.reaches_slot(target.slot, source.slot, skip) {
            proof {
                if source.slot == target.slot {
                    lemma_reaches_self(old(self)@.edges, sk, target.slot as int);
                }
            }
            return Err(GraphError::CycleWouldBeCreated);
        }
        let ghost before = self.graph@;
        let r = self.graph.set_edge_endpoints(edge, source, target);
        proof {
            let after = self.graph@;
            if after != before {
                let x = edge.slot as int;
                let s = source.slot as int;
                let t = target.slot as int;
                assert(before.has_edge(edge));
                assert(after.edges == before.edges.update(x, EdgeCell { source: source.slot, target: target.slot, ..before.edges[x] }));
                assert forall|u: int, w: int| #[trigger] arc(after.edges, None, u, w) <==> arc(before.edges, sk, u, w)
                    || (u == s && w == t) by {
                    if arc(after.edges, None, u, w) {
                        let y = choose|y: int| #[trigger] carries(after.edges, None, y, u, w);
                        if y != x {
                            assert(carries(before.edges, sk, y, u, w));
                        }
                    }
                    if arc(before.edges, sk, u, w) {
                        let y = choose|y: int| #[trigger] carries(before.edges, sk, y, u, w);
                        assert(carries(after.edges, None, y, u, w));
                    }
                    if u == s && w == t {
                        assert(carries(after.edges, None, x, u, w));
                    }
                }
                assert forall|u: int, w: int| #[trigger] arc(before.edges, sk, u, w) implies !reaches(
                    before.edges,
                    sk,
                    w,
                    u,
                ) by {
                    let y = choose|y: int| #[trigger] carries(before.edges, sk, y, u, w);
                    assert(carries(before.edges, None, y, u, w));
                    if reaches(before.edges, sk, w, u) {
                        assert forall|a: int, b: int| #[trigger] arc(before.edges, sk, a, b) implies arc(
                            before.edges,
                            None,
                            a,
                            b,
                        ) by {
                            let z = choose|z: int| #[trigger] carries(before.edges, sk, z, a, b);
                            assert(carries(before.edges, None, z, a, b));
                        }
                        lemma_reaches_within(before.edges, sk, before.edges, None, w, u);
                    }
                }
                lemma_extend_acyclic(before.edges, sk, after.edges, s, t);
            }
        }
        r
    }

    /// Removes the live node `key` with every edge that touches it.
    pub fn remove_node(&mut self, key: StableNodeKey) -> (r: Option<N>)
        requires
            old(self).wf(),
        ensures
            final(self).wf(),
            !old(self)@.has_node(key) ==> r is None && final(self)@ == old(self)@,
            old(self)@.has_node(key) ==> r == old(self)@.nodes[key.slot as int].value && exists|xs: Seq<u32>|
                {
                    &&& forall|i: int, j: int| 0 <= i < j < xs.len() ==> xs[i] < xs[j]
                    &&& forall|y: u32| #[trigger] xs.contains(y) <==> (old(self)@.nodes[key.slot as int].outgoing.contains(y)
                        || old(self)@.nodes[key.slot as int].incoming.contains(y))
                    &&& final(self)@ == old(self)@.drop_edges(xs).drop_node(key.slot as int)
                },
    {
        let ghost before = self.graph@;
        proof {
            self.graph.lemma_model_wf();
        }
        let r = self.graph.remove_node(key);
        proof {
            if before.has_node(key) {
                let xs = choose|xs: Seq<u32>|
                    {
                        &&& forall|i: int, j: int| 0 <= i < j < xs.len() ==> xs[i] < xs[j]
                        &&& forall|y: u32| #[trigger] xs.contains(y) <==> (before.nodes[key.slot as int].outgoing.contains(y)
                            || before.nodes[key.slot as int].incoming.contains(y))
                        &&& self.graph@ == before.drop_edges(xs).drop_node(key.slot as int)
                    };
                assert forall|i: int| 0 <= i < xs.len() implies (#[trigger] xs[i]) < before.edges.len() by {
                    assert(xs.contains(xs[i]));
                    let v = key.slot as int;
                    if before.nodes[v].outgoing.contains(xs[i]) {
                        assert(before.edge_live(xs[i] as int));
                    } else {
                        assert(before.edge_live(xs[i] as int));
                    }
                }
                lemma_drop_edges_arcs(before, xs);
                lemma_fewer_arcs(self.graph@.edges, before.edges);
                lemma_acyclic_within(self.graph@.edges, before.edges);
            }
        }
        r
    }

    /// Removes the live edge `key` and returns its payload.
    pub fn remove_edge(&mut self, key: StableEdgeKey) -> (r: Option<E>)
        requires
            old(self).wf(),
        ensures
            final(self).wf(),
            old(self)@.has_edge(key) ==> r == old(self)@.edges[key.slot as int].value && final(self)@ == old(self)@.drop_edge(
                key.slot as int,
            ),
            !old(self)@.has_edge(key) ==> r is None && final(self)@ == old(self)@,
    {
        let ghost before = self.graph@;
        let r = self.graph.remove_edge(key);
        proof {
            lemma_fewer_arcs(self.graph@.edges, before.edges);
            lemma_acyclic_within(self.graph@.edges, before.edges);
        }
        r
    }

    /// The payload of the live node `key`.
    pub fn node(&self, key: StableNodeKey) -> (r: Option<&N>)
        requires
            self.wf(),
        ensures
            match r {
                Some(p) => self@.has_node(key) && self@.nodes[key.slot as int].value == Some(*p),
                None => !self@.has_node(key),
            },
    {
        self.graph.node(key)
    }

    /// The payload of the live edge `key`.
    pub fn edge(&self, key: StableEdgeKey) -> (r: Option<&E>)
        requires
            self.wf(),
        ensures
            match r {
                Some(p) => self@.has_edge(key) && self@.edges[key.slot as int].value == Some(*p),
                None => !self@.has_edge(key),
            },
    {
        self.graph.edge(key)
    }

    /// The payload of the live node `key`, to change in place.
    pub fn node_mut(&mut self, key: StableNodeKey) -> (r: Option<&mut N>)
        requires
            old(self).wf(),
        ensures
            r is Some <==> old(self)@.has_node(key),
            r is None ==> final(self)@ == old(self)@ && final(self).wf(),
            r is Some ==> Some(*r.unwrap()) == old(self)@.nodes[key.slot as int].value,
            r is Some ==> final(self)@ == old(self)@.with_node_value(key.slot as int, *final(r.unwrap())),
    {
        self.graph.node_mut(key)
    }

    /// The payload of the live edge `key`, to change in place.
    pub fn edge_mut(&mut self, key: StableEdgeKey) -> (r: Option<&mut E>)
        requires
            old(self).wf(),
        ensures
            r is Some <==> old(self)@.has_edge(key),
            r is None ==> final(self)@ == old(self)@ && final(self).wf(),
            r is Some ==> Some(*r.unwrap()) == old(self)@.edges[key.slot as int].value,
            r is Some ==> final(self)@ == old(self)@.with_edge_value(key.slot as int, *final(r.unwrap())),
    {
        self.graph.edge_mut(key)
    }

    /// The wrapped graph.
    pub fn graph(&self) -> (r: &StablePayloadGraph<N, E>)
        requires
            self.wf(),
        ensures
            r.wf(),
            r@ == self@,
            acyclic(r@.edges),
    {
        &self.graph
    }

    /// The wrapped graph, given up.
    pub fn into_inner(self) -> (r: StablePayloadGraph<N, E>)
        requires
            self.wf(),
        ensures
            r.wf(),
            r@ == self@,
            acyclic(r@.edges),
    {
        self.graph
    }
}

/// A change of the payload of an edge keeps the graph acyclic.
pub proof fn law_edge_payload_keeps_acyclic<N, E>(m: StableModel<N, E>, x: int, payload: E)
    requires
        acyclic(m.edges),
        0 <= x < m.edges.len(),
        m.edges[x].value is Some,
    ensures
        acyclic(m.with_edge_value(x, payload).edges),
{
    lemma_fewer_arcs(m.with_edge_value(x, payload).edges, m.edges);
    lemma_acyclic_within(m.with_edge_value(x, payload).edges, m.edges);
}

} // verus!
