//! A multi-start metric-closure Steiner-tree approximation over an
//! undirected topology: shortest paths between every pair of terminals, a
//! spanning tree of that metric closure expanded back into graph edges, a
//! minimum spanning forest of those edges with non-terminal leaves pruned,
//! and the cheapest of that candidate and thirty-two reseeded ones.
use super::cores::{lemma_remaining_bound, lemma_remaining_set, remaining};
use super::kruskal::{
    greedy_pass_is_minimal, joined, kept_mask, kruskal, lemma_joined_none, lemma_kruskal_forest, lemma_kruskal_members, lemma_kruskal_distinct, lemma_union_joined, lemma_walkable_concat,
};
use super::reach::{
    all_edges, follows, lemma_closed_holds_reachable, lemma_distinct_bounded, lemma_reach_self, lemma_reach_step, lemma_step_in_range, step,
    walk_between, walkable, Direction,
};
use super::terminal_tree::{lemma_joined_symmetric, root_paths, spans_as_tree, spans_terminals, touched_count};
use crate::error::{GraphError, Result};
use crate::topology::model::lemma_adj_members;
use crate::topology::{edge_ints, EdgeIndex, GraphModel, NodeIndex, UndirectedTopology};
use vstd::prelude::*;

verus! {

/// The prices of the edges of a graph with `m` edges, one per edge, each a
/// price that `edge_cost` can give for it.
pub open spec fn priced<F: Fn(EdgeIndex) -> u64>(edge_cost: F, m: nat, costs: Seq<u64>) -> bool {
    &&& costs.len() == m
    &&& forall|e: int| 0 <= e < m ==> call_ensures(edge_cost, (EdgeIndex(e as u32),), #[trigger] costs[e])
}

/// The slots of `edges`, in order.
pub open spec fn slots_of(edges: Seq<EdgeIndex>) -> Seq<usize> {
    edges.map_values(|e: EdgeIndex| e.0 as usize)
}

/// The total price of `edges`.
pub open spec fn price_of(costs: Seq<u64>, edges: Seq<EdgeIndex>) -> int
    decreases edges.len(),
{
    if edges.len() == 0 {
        0
    } else {
        price_of(costs, edges.drop_last()) + costs[edges.last().0 as int]
    }
}

/// `s` is in strictly increasing order.
pub open spec fn increasing(s: Seq<usize>) -> bool {
    forall|i: int, j: int| 0 <= i < j < s.len() ==> s[i] < s[j]
}

/// `s` lists, in increasing order and once each, the node positions that
/// occur in `nodes`.
pub open spec fn ordered_distinct(s: Seq<usize>, nodes: Seq<NodeIndex>) -> bool {
    &&& increasing(s)
    &&& forall|x: usize| s.contains(x) <==> exists|i: int| 0 <= i < nodes.len() && nodes[i].0 as usize == x
}

/// A Steiner tree: its terminals, its edges and their total cost.
#[derive(Debug, Clone, PartialEq, Eq)]
pub struct SteinerTree {
    terminals: Vec<NodeIndex>,
    edges: Vec<EdgeIndex>,
    total_cost: u64,
}

/// What a Steiner tree holds, as plain values.
pub struct SteinerView {
    pub terminals: Seq<NodeIndex>,
    pub edges: Seq<EdgeIndex>,
    pub total_cost: u64,
}

impl View for SteinerTree {
    type V = SteinerView;

    closed spec fn view(&self) -> SteinerView {
        SteinerView { terminals: self.terminals@, edges: self.edges@, total_cost: self.total_cost }
    }
}

impl SteinerTree {
    /// The terminals, in increasing order and once each.
    pub fn terminals(&self) -> (r: &[NodeIndex])
        ensures
            r@ == self@.terminals,
    {
        self.terminals.as_slice()
    }

    /// The edges, in increasing order.
    pub fn edges(&self) -> (r: &[EdgeIndex])
        ensures
            r@ == self@.edges,
    {
        self.edges.as_slice()
    }

    /// The total cost of the edges.
    pub fn total_cost(&self) -> (r: u64)
        ensures
            r == self@.total_cost,
    {
        self.total_cost
    }
}

/// Asks `edge_cost` once for the price of every edge.
fn price_table<F: Fn(EdgeIndex) -> u64>(graph: &UndirectedTopology, edge_cost: &F) -> (r: Vec<u64>)
    requires
        forall|e: EdgeIndex| call_requires(*edge_cost, (e,)),
    ensures
        priced(*edge_cost, graph@.edges.len(), r@),
{
    let m = graph.edge_count();
    let mut costs: Vec<u64> = Vec::new();
    let mut e: usize = 0;
    while e < m
        invariant
            e <= m == graph@.edges.len() <= u32::MAX,
            costs@.len() == e,
            forall|x: int| 0 <= x < e ==> call_ensures(*edge_cost, (EdgeIndex(x as u32),), #[trigger] costs@[x]),
            forall|x: EdgeIndex| call_requires(*edge_cost, (x,)),
        decreases m - e,
    {
        let c = edge_cost(EdgeIndex(e as u32));
        costs.push(c);
        e += 1;
    }
    costs
}

/// The distinct node positions of `nodes`, in increasing order.
fn ordered_positions(nodes: &[NodeIndex]) -> (r: Vec<usize>)
    ensures
        ordered_distinct(r@, nodes@),
{
    let mut out: Vec<usize> = Vec::new();
    let mut i: usize = 0;
    while i < nodes.len()
        invariant
            i <= nodes@.len(),
            increasing(out@),
            forall|x: usize| out@.contains(x) <==> exists|k: int| 0 <= k < i && nodes@[k].0 as usize == x,
        decreases nodes@.len() - i,
    {
        let u = nodes[i].0 as usize;
        let mut k: usize = 0;
        while k < out.len() && out[k] < u
            invariant
                k <= out@.len(),
                forall|j: int| 0 <= j < k ==> out@[j] < u,
            decreases out@.len() - k,
        {
            k += 1;
        }
        let ghost before = out@;
        if !(k < out.len() && out[k] == u) {
            out.insert(k, u);
            proof {
                assert(out@.len() == before.len() + 1);
                assert(forall|j: int| 0 <= j < k ==> out@[j] == before[j]);
                assert(out@[k as int] == u);
                assert(forall|j: int| k < j < out@.len() ==> out@[j] == before[j - 1]);
                assert forall|x: usize| out@.contains(x) <==> (before.contains(x) || x == u) by {
                    if out@.contains(x) {
                        let j = choose|j: int| 0 <= j < out@.len() && out@[j] == x;
                        if j < k {
                            assert(before[j] == x);
                        } else if j > k {
                            assert(before[j - 1] == x);
                        }
                    }
                    if before.contains(x) {
                        let j = choose|j: int| 0 <= j < before.len() && before[j] == x;
                        if j < k {
                            assert(out@[j] == x);
                        } else {
                            assert(out@[j + 1] == x);
                        }
                    }
                }
            }
        } else {
            proof {
                assert(out@[k as int] == u);
            }
        }
        proof {
            assert forall|x: usize| out@.contains(x) <==> exists|k2: int|
                0 <= k2 < i + 1 && nodes@[k2].0 as usize == x by {
                if exists|k2: int| 0 <= k2 < i + 1 && nodes@[k2].0 as usize == x {
                    let k2 = choose|k2: int| 0 <= k2 < i + 1 && nodes@[k2].0 as usize == x;
                    if k2 < i {
                        assert(before.contains(x));
                    }
                }
                if before.contains(x) {
                    let k2 = choose|k2: int| 0 <= k2 < i && nodes@[k2].0 as usize == x;
                    assert(0 <= k2 < i + 1);
                }
            }
        }
        i += 1;
    }
    out
}

/// The total price of `edges`, or an overflow error.
fn tree_cost(edges: &Vec<usize>, costs: &Vec<u64>) -> (r: Result<u64>)
    requires
        costs@.len() <= u32::MAX,
        forall|i: int| 0 <= i < edges@.len() ==> #[trigger] edges@[i] < costs@.len(),
    ensures
        match r {
            Ok(total) => total == price_of(costs@, edges@.map_values(|x: usize| EdgeIndex(x as u32))),
            Err(e) => e == GraphError::ArithmeticOverflow { operation: "Steiner tree cost" } && edges@.len() * peak(costs@)
                > u64::MAX,
        },
        edges@.len() == 0 ==> r == Ok::<u64, GraphError>(0),
{
    let mut total: u64 = 0;
    let mut i: usize = 0;
    while i < edges.len()
        invariant
            i <= edges@.len(),
            costs@.len() <= u32::MAX,
            forall|j: int| 0 <= j < edges@.len() ==> #[trigger] edges@[j] < costs@.len(),
            total == price_of(costs@, edges@.take(i as int).map_values(|x: usize| EdgeIndex(x as u32))),
        decreases edges@.len() - i,
    {
        let c = costs[edges[i]];
        proof {
            let before = edges@.take(i as int).map_values(|x: usize| EdgeIndex(x as u32));
            let after = edges@.take(i + 1).map_values(|x: usize| EdgeIndex(x as u32));
            assert(after.drop_last() =~= before);
            assert(after.last() == EdgeIndex(edges@[i as int] as u32));
            assert(edges@[i as int] < costs@.len());
            assert((edges@[i as int] as u32) as int == edges@[i as int] as int);
        }
        match total.checked_add(c) {
            Some(t) => {
                total = t;
            },
            None => {
                proof {
                    let after = edges@.take(i + 1).map_values(|x: usize| EdgeIndex(x as u32));
                    lemma_price_bound(costs@, after);
                    let p = peak(costs@);
                    lemma_peak(costs@);
                    assert((i + 1) * p <= edges@.len() * p) by (nonlinear_arith)
                        requires
                            i + 1 <= edges@.len(),
                            p >= 0,
                    ;
                }
                return Err(GraphError::ArithmeticOverflow { operation: "Steiner tree cost" });
            },
        }
        i += 1;
    }
    proof {
        assert(edges@.take(edges@.len() as int) =~= edges@);
    }
    Ok(total)
}

/// Which group each of `n` items is in, for merging groups.
struct Groups {
    label: Vec<usize>,
}

impl Groups {
    spec fn wf(&self, n: nat) -> bool {
        &&& self.label@.len() == n
        &&& forall|i: int| 0 <= i < n ==> #[trigger] self.label@[i] < n
    }

    fn new(n: usize) -> (r: Groups)
        ensures
            r.wf(n as nat),
            forall|i: int| 0 <= i < n ==> #[trigger] r.label@[i] == i,
    {
        let mut label: Vec<usize> = Vec::new();
        let mut i: usize = 0;
        while i < n
            invariant
                i <= n,
                label@.len() == i,
                forall|j: int| 0 <= j < i ==> #[trigger] label@[j] == j,
            decreases n - i,
        {
            label.push(i);
            i += 1;
        }
        Groups { label }
    }

    /// Merges the groups of `a` and `b`; whether they were apart.
    fn union(&mut self, a: usize, b: usize, Ghost(n): Ghost<nat>) -> (r: bool)
        requires
            old(self).wf(n),
            a < n,
            b < n,
        ensures
            final(self).wf(n),
            r == (old(self).label@[a as int] != old(self).label@[b as int]),
            final(self).label@ == if r {
                Seq::new(
                    n,
                    |x: int|
                        if old(self).label@[x] == old(self).label@[b as int] {
                            old(self).label@[a as int]
                        } else {
                            old(self).label@[x]
                        },
                )
            } else {
                old(self).label@
            },
    {
        let la = self.label[a];
        let lb = self.label[b];
        if la == lb {
            return false;
        }
        let ghost start = self.label@;
        let mut i: usize = 0;
        let len = self.label.len();
        while i < len
            invariant
                i <= len == self.label@.len() == n == start.len(),
                la < n,
                la == start[a as int],
                lb == start[b as int],
                forall|j: int| 0 <= j < n ==> #[trigger] self.label@[j] < n,
                forall|j: int| 0 <= j < i ==> #[trigger] self.label@[j] == if start[j] == lb {
                    la
                } else {
                    start[j]
                },
                forall|j: int| i <= j < n ==> #[trigger] self.label@[j] == start[j],
            decreases len - i,
        {
            if self.label[i] == lb {
                self.label.set(i, la);
            }
            i += 1;
        }
        assert(self.label@ =~= Seq::new(n, |x: int| if start[x] == lb { la } else { start[x] }));
        true
    }
}

/// Each link's edge joins the linked node to its predecessor.
pub open spec fn links_joined(g: GraphModel, pred: Seq<Option<(usize, usize)>>) -> bool {
    forall|w: int|
        0 <= w < pred.len() && #[trigger] pred[w] is Some ==> g.opposite((pred[w]->0).1 as int, (pred[w]->0).0 as int)
            == Some(w)
}

/// The predecessor links of a shortest-path tree: each link goes to a node
/// settled earlier, along an edge of the graph.
pub open spec fn tree_links(pred: Seq<Option<(usize, usize)>>, order: Seq<int>, n: int, m: int) -> bool {
    &&& pred.len() == n
    &&& order.len() == n
    &&& forall|v: int|
        0 <= v < n ==> match #[trigger] pred[v] {
            Some((p, e)) => p < n && e < m && 0 <= order[p as int] < order[v],
            None => true,
        }
}

/// Prices high enough that a search or a tree total could leave `u64`:
/// the node count plus the edge count, times the dearest price, reaches
/// `u64::MAX`.
pub open spec fn costly(g: GraphModel, costs: Seq<u64>) -> bool {
    (g.node_count + g.edges.len()) * peak(costs) >= u64::MAX
}

/// A smaller multiple of the dearest price that reaches `u64::MAX` makes
/// the prices costly.
proof fn lemma_costly(g: GraphModel, costs: Seq<u64>, k: int)
    requires
        0 <= k <= g.node_count + g.edges.len(),
        k * peak(costs) >= u64::MAX,
    ensures
        costly(g, costs),
{
    lemma_peak(costs);
    let p = peak(costs);
    let t = g.node_count + g.edges.len();
    assert(k * p <= t * p) by (nonlinear_arith)
        requires
            0 <= k <= t,
            p >= 0,
    ;
}

/// A strictly increasing list of slots below `m` has at most `m` entries.
proof fn lemma_increasing_bounded(s: Seq<usize>, m: int)
    requires
        increasing(s),
        m >= 0,
        forall|i: int| 0 <= i < s.len() ==> #[trigger] s[i] < m,
    ensures
        s.len() <= m,
{
    let t = s.map_values(|x: usize| x as int);
    assert(t.no_duplicates()) by {
        assert forall|a: int, b: int| 0 <= a < t.len() && 0 <= b < t.len() && a != b implies t[a] != t[b] by {
            if a < b {
                assert(s[a] < s[b]);
            } else {
                assert(s[b] < s[a]);
            }
        }
    }
    assert forall|i: int| 0 <= i < t.len() implies 0 <= #[trigger] t[i] < m by {
        assert(s[i] < m);
    }
    lemma_distinct_bounded(t, m);
}

/// The dearest of `costs`, zero when there are none.
fn peak_price(costs: &Vec<u64>) -> (r: u64)
    ensures
        r == peak(costs@),
{
    let mut best: u64 = 0;
    let mut i: usize = 0;
    while i < costs.len()
        invariant
            i <= costs@.len(),
            best == peak(costs@.take(i as int)),
        decreases costs@.len() - i,
    {
        proof {
            assert(costs@.take(i + 1).drop_last() =~= costs@.take(i as int));
            assert(costs@.take(i + 1).last() == costs@[i as int]);
        }
        if costs[i] > best {
            best = costs[i];
        }
        i += 1;
    }
    proof {
        assert(costs@.take(costs@.len() as int) =~= costs@);
    }
    best
}

/// A total of listed prices is at most their number times the dearest.
proof fn lemma_price_bound(costs: Seq<u64>, edges: Seq<EdgeIndex>)
    requires
        forall|i: int| 0 <= i < edges.len() ==> (#[trigger] edges[i]).0 < costs.len(),
    ensures
        price_of(costs, edges) <= edges.len() * peak(costs),
    decreases edges.len(),
{
    if edges.len() > 0 {
        let rest = edges.drop_last();
        assert forall|i: int| 0 <= i < rest.len() implies (#[trigger] rest[i]).0 < costs.len() by {
            assert(rest[i] == edges[i]);
        }
        lemma_price_bound(costs, rest);
        lemma_peak(costs);
        assert(costs[edges.last().0 as int] <= peak(costs));
        let p = peak(costs);
        let k = rest.len();
        assert(k * p + p == (k + 1) * p) by (nonlinear_arith);
    }
}

/// The largest of `costs`, zero when there are none.
pub open spec fn peak(costs: Seq<u64>) -> int
    decreases costs.len(),
{
    if costs.len() == 0 {
        0
    } else if costs.last() > peak(costs.drop_last()) {
        costs.last() as int
    } else {
        peak(costs.drop_last())
    }
}

/// No price exceeds the peak.
proof fn lemma_peak(costs: Seq<u64>)
    ensures
        peak(costs) >= 0,
        forall|e: int| 0 <= e < costs.len() ==> #[trigger] costs[e] <= peak(costs),
    decreases costs.len(),
{
    if costs.len() > 0 {
        lemma_peak(costs.drop_last());
        assert forall|e: int| 0 <= e < costs.len() implies #[trigger] costs[e] <= peak(costs) by {
            if e < costs.len() - 1 {
                assert(costs[e] == costs.drop_last()[e]);
            }
        }
    }
}

/// Once `u` is settled, the far end of each of its edges `e` is settled or
/// no dearer than going through `u`.
pub open spec fn relaxed(g: GraphModel, costs: Seq<u64>, dist: Seq<u64>, settled: Seq<bool>, u: int, e: int) -> bool {
    match g.opposite(e, u) {
        Some(y) => settled[y] || dist[y] <= dist[u] + costs[e],
        None => true,
    }
}

/// At the end of a search from a reached node `u`, each edge `e` leads to a
/// reached node unless going through it costs `u64::MAX` or more.
pub open spec fn spanned(g: GraphModel, costs: Seq<u64>, dist: Seq<u64>, u: int, e: int) -> bool {
    match g.opposite(e, u) {
        Some(y) => dist[y] != u64::MAX || dist[u] + costs[e] >= u64::MAX,
        None => true,
    }
}

/// When no walk of fewer than `node_count` edges can cost `u64::MAX`, a
/// search that spans its reached nodes reaches every node connected to its
/// source.
pub(crate) proof fn lemma_spanned_reaches(g: GraphModel, costs: Seq<u64>, dist: Seq<u64>, source: int, v: int)
    requires
        g.valid(),
        dist.len() == g.node_count,
        costs.len() == g.edges.len(),
        0 <= source < g.node_count,
        dist[source] != u64::MAX,
        g.node_count * peak(costs) < u64::MAX,
        forall|u: int, e: int|
            0 <= u < g.node_count && dist[u] != u64::MAX && 0 <= e < g.edges.len() ==> #[trigger] spanned(
                g,
                costs,
                dist,
                u,
                e,
            ),
        forall|u: int| 0 <= u < g.node_count && #[trigger] dist[u] != u64::MAX ==> dist[u] + peak(costs) <= g.node_count * peak(costs),
        connected(g, source, v),
    ensures
        dist[v] != u64::MAX,
{
    lemma_peak(costs);
    let mask = all_edges(g);
    let set = Set::new(|w: int| 0 <= w < g.node_count && dist[w] != u64::MAX);
    assert forall|a: int, b: int| set.contains(a) && #[trigger] step(g, mask, Direction::Both, a, b) implies set.contains(b) by {
        let e = choose|e: int| follows(g, mask, Direction::Both, e, a, b);
        lemma_step_in_range(g, mask, Direction::Both, a, b);
        assert(g.opposite(e, a) == Some(b));
        assert(spanned(g, costs, dist, a, e));
        assert(costs[e] <= peak(costs));
    }
    lemma_closed_holds_reachable(g, mask, Direction::Both, source, v, set);
}

/// Links that lead each reached node to an earlier reached one climb back
/// to the source from every reached node.
proof fn lemma_climb_reached(
    pred: Seq<Option<(usize, usize)>>,
    order: Seq<int>,
    m: int,
    dist: Seq<u64>,
    source: int,
    v: int,
)
    requires
        tree_links(pred, order, pred.len() as int, m),
        dist.len() == pred.len(),
        0 <= v < pred.len(),
        dist[v] != u64::MAX,
        forall|w: int| 0 <= w < pred.len() && w != source && #[trigger] dist[w] != u64::MAX ==> pred[w] is Some,
        forall|w: int| 0 <= w < pred.len() && #[trigger] pred[w] is Some ==> dist[(pred[w]->0).0 as int] != u64::MAX,
    ensures
        climb(pred, order, m, source, v) is Some,
    decreases order[v],
{
    if v != source {
        let (p, e) = pred[v]->0;
        assert(pred[v] is Some);
        lemma_climb_reached(pred, order, m, dist, source, p as int);
    }
}

/// Shortest distances from `source` along the edges of `graph` priced by
/// `costs`, each reached node's predecessor link, and the settling order.
pub(crate) fn shortest_paths(graph: &UndirectedTopology, costs: &Vec<u64>, source: usize) -> (r: Result<
    (Vec<u64>, Vec<Option<(usize, usize)>>, Ghost<Seq<int>>),
>)
    requires
        source < graph@.node_count,
        costs@.len() == graph@.edges.len(),
    ensures
        match r {
            Ok((dist, pred, order)) => {
                &&& dist@.len() == graph@.node_count
                &&& tree_links(pred@, order@, graph@.node_count as int, graph@.edges.len() as int)
                &&& links_joined(graph@, pred@)
                &&& pred@[source as int] is None
                &&& forall|v: int|
                    0 <= v < graph@.node_count && v != source && #[trigger] dist@[v] != u64::MAX ==> pred@[v] is Some
                &&& dist@[source as int] == 0
                &&& forall|w: int|
                    0 <= w < graph@.node_count && #[trigger] pred@[w] is Some ==> dist@[(pred@[w]->0).0 as int] != u64::MAX
                &&& forall|u: int, e: int|
                    0 <= u < graph@.node_count && dist@[u] != u64::MAX && 0 <= e < graph@.edges.len()
                        ==> #[trigger] spanned(graph@, costs@, dist@, u, e)
                &&& forall|u: int|
                    0 <= u < graph@.node_count && #[trigger] dist@[u] != u64::MAX ==> dist@[u] + peak(costs@)
                        <= graph@.node_count * peak(costs@)
            },
            Err(e) => e == GraphError::ArithmeticOverflow { operation: "Steiner Dijkstra relaxation" } && graph@.node_count
                * peak(costs@) >= u64::MAX,
        },
{
    let n = graph.node_count();
    let m = graph.edge_count();
    let mut dist: Vec<u64> = Vec::new();
    let mut pred: Vec<Option<(usize, usize)>> = Vec::new();
    let mut settled: Vec<bool> = Vec::new();
    let ghost mut order: Seq<int> = Seq::empty();
    let mut v: usize = 0;
    while v < n
        invariant
            v <= n,
            dist@.len() == v,
            pred@.len() == v,
            settled@.len() == v,
            order.len() == v,
            forall|w: int| 0 <= w < v ==> #[trigger] dist@[w] == u64::MAX,
            forall|w: int| 0 <= w < v ==> #[trigger] pred@[w] is None,
            forall|w: int| 0 <= w < v ==> !#[trigger] settled@[w],
            forall|w: int| 0 <= w < v ==> #[trigger] order[w] == n,
        decreases n - v,
    {
        dist.push(u64::MAX);
        pred.push(None);
        settled.push(false);
        proof {
            order = order.push(n as int);
        }
        v += 1;
    }
    dist.set(source, 0);
    let mut done: usize = 0;
    proof {
        lemma_remaining_all(settled@, n as int);
        lemma_peak(costs@);
        assert(0 * peak(costs@) == 0);
    }
    loop
        invariant
            forall|e: int| 0 <= e < m ==> #[trigger] costs@[e] <= peak(costs@),
            peak(costs@) >= 0,
            forall|w: int| 0 <= w < n && #[trigger] settled@[w] ==> dist@[w] <= order[w] * peak(costs@),
            forall|w: int| 0 <= w < n && !settled@[w] && #[trigger] dist@[w] != u64::MAX ==> dist@[w] <= done * peak(costs@),
            forall|u: int, e: int|
                0 <= u < n && settled@[u] && 0 <= e < m ==> #[trigger] relaxed(graph@, costs@, dist@, settled@, u, e),
            n == graph@.node_count,
            graph@.valid(),
            m == graph@.edges.len() == costs@.len(),
            source < n,
            n <= u32::MAX,
            dist@.len() == n,
            settled@.len() == n,
            done <= n,
            remaining(settled@, n as int) == n - done,
            tree_links(pred@, order, n as int, m as int),
                links_joined(graph@, pred@),
            pred@[source as int] is None,
            dist@[source as int] == 0,
            forall|w: int| 0 <= w < n && w != source && #[trigger] dist@[w] != u64::MAX ==> pred@[w] is Some,
            forall|w: int| 0 <= w < n ==> (#[trigger] settled@[w] <==> order[w] < done),
            forall|w: int| 0 <= w < n ==> 0 <= #[trigger] order[w] <= n && (order[w] < n ==> order[w] < done),
            forall|w: int| 0 <= w < n && #[trigger] settled@[w] ==> dist@[w] != u64::MAX,
            forall|w: int| 0 <= w < n && #[trigger] pred@[w] is Some ==> !settled@[w] || order[(pred@[w]->0).0 as int] < order[w],
        ensures
            forall|w: int| 0 <= w < n && #[trigger] pred@[w] is Some ==> dist@[(pred@[w]->0).0 as int] != u64::MAX,
            forall|u: int, e: int|
                0 <= u < n && dist@[u] != u64::MAX && 0 <= e < m ==> #[trigger] spanned(graph@, costs@, dist@, u, e),
            forall|u: int| 0 <= u < n && #[trigger] dist@[u] != u64::MAX ==> dist@[u] + peak(costs@) <= n * peak(costs@),
        decreases remaining(settled@, n as int),
    {
        let mut best: usize = n;
        let mut w: usize = 0;
        while w < n
            invariant
                w <= n,
                dist@.len() == n,
                settled@.len() == n,
                best <= n,
                best < n ==> !settled@[best as int] && dist@[best as int] != u64::MAX,
                best == n ==> forall|x: int| 0 <= x < w ==> #[trigger] settled@[x] || dist@[x] == u64::MAX,
            decreases n - w,
        {
            if !settled[w] && dist[w] != u64::MAX && (best == n || dist[w] < dist[best]) {
                best = w;
            }
            w += 1;
        }
        if best == n {
            proof {
                assert forall|w: int| 0 <= w < n && #[trigger] pred@[w] is Some implies dist@[(pred@[w]->0).0 as int] != u64::MAX by {
                    let p = (pred@[w]->0).0 as int;
                    assert(0 <= order[p] < order[w] <= n);
                    assert(settled@[p]);
                }
                assert forall|u: int, e: int| 0 <= u < n && dist@[u] != u64::MAX && 0 <= e < m implies #[trigger] spanned(
                    graph@,
                    costs@,
                    dist@,
                    u,
                    e,
                ) by {
                    assert(settled@[u]);
                    assert(relaxed(graph@, costs@, dist@, settled@, u, e));
                    if let Some(y) = graph@.opposite(e, u) {
                        assert(0 <= y < n);
                        if !settled@[y] {
                            assert(dist@[y] == u64::MAX);
                        }
                    }
                }
                assert forall|u: int| 0 <= u < n && #[trigger] dist@[u] != u64::MAX implies dist@[u] + peak(costs@) <= n * peak(costs@) by {
                    assert(settled@[u]);
                    let o = order[u];
                    let p = peak(costs@);
                    assert(o + 1 <= n);
                    assert((o + 1) * p <= n * p) by (nonlinear_arith)
                        requires
                            o + 1 <= n,
                            p >= 0,
                    ;
                    assert(o * p + p == (o + 1) * p) by (nonlinear_arith);
                }
            }
            break;
        }
        let node = best;
        let cost = dist[node];
        proof {
            let p = peak(costs@);
            assert(done * p <= (done + 1) * p) by (nonlinear_arith)
                requires
                    p >= 0,
                    done >= 0,
            ;
        }
        proof {
            lemma_remaining_set(settled@, node as int, n as int);
            lemma_remaining_bound(settled@.update(node as int, true), n as int);
            order = order.update(node as int, done as int);
            assert((node as u32) as int == node as int);
        }
        let ghost old_settled = settled@;
        settled.set(node, true);
        done += 1;
        proof {
            assert forall|u: int, e: int|
                0 <= u < n && u != node && settled@[u] && 0 <= e < m implies #[trigger] relaxed(
                graph@,
                costs@,
                dist@,
                settled@,
                u,
                e,
            ) by {
                assert(old_settled[u]);
                assert(relaxed(graph@, costs@, dist@, old_settled, u, e));
            }
        }
        let incident = graph.incident_edges(NodeIndex(node as u32));
        proof {
            lemma_adj_members(graph@.edges, graph@.edges.len(), 2, node as int);
        }
        let mut k: usize = 0;
        while k < incident.len()
            invariant
                forall|e: int| 0 <= e < m ==> #[trigger] costs@[e] <= peak(costs@),
                peak(costs@) >= 0,
                dist@[node as int] == cost,
                forall|w: int| 0 <= w < n && #[trigger] settled@[w] ==> dist@[w] <= order[w] * peak(costs@),
                forall|w: int| 0 <= w < n && !settled@[w] && #[trigger] dist@[w] != u64::MAX ==> dist@[w] <= done * peak(costs@),
                forall|u: int, e: int|
                    0 <= u < n && u != node && settled@[u] && 0 <= e < m ==> #[trigger] relaxed(
                        graph@,
                        costs@,
                        dist@,
                        settled@,
                        u,
                        e,
                    ),
                forall|i: int| 0 <= i < k ==> #[trigger] relaxed(graph@, costs@, dist@, settled@, node as int, edge_ints(incident@)[i]),
                k <= incident@.len(),
                n == graph@.node_count,
                graph@.valid(),
                edge_ints(incident@) == graph@.incident(node as int),
                forall|i: int| 0 <= i < graph@.incident(node as int).len() ==> 0 <= #[trigger] graph@.incident(node as int)[i] < graph@.edges.len(),
                m == graph@.edges.len() == costs@.len(),
                node < n,
                source < n,
                dist@.len() == n,
                settled@.len() == n,
                settled@[node as int],
                done <= n,
                remaining(settled@, n as int) == n - done,
                order[node as int] == done - 1,
                tree_links(pred@, order, n as int, m as int),
                links_joined(graph@, pred@),
                n <= u32::MAX,
                pred@[source as int] is None,
                dist@[source as int] == 0,
                forall|w: int| 0 <= w < n && w != source && #[trigger] dist@[w] != u64::MAX ==> pred@[w] is Some,
                forall|w: int| 0 <= w < n ==> (#[trigger] settled@[w] <==> order[w] < done),
                forall|w: int| 0 <= w < n ==> 0 <= #[trigger] order[w] <= n && (order[w] < n ==> order[w] < done),
                forall|w: int| 0 <= w < n && #[trigger] settled@[w] ==> dist@[w] != u64::MAX,
                forall|w: int| 0 <= w < n && #[trigger] pred@[w] is Some ==> !settled@[w] || order[(pred@[w]->0).0 as int] < order[w],
            decreases incident@.len() - k,
        {
            let edge = incident[k];
            proof {
                assert(edge_ints(incident@)[k as int] == incident@[k as int].0 as int);
                assert((node as u32) as int == node as int);
            }
            match graph.opposite(edge, NodeIndex(node as u32)) {
                None => {},
                Some(other) => {
                    let e = edge.0 as usize;
                    let y = other.0 as usize;
                    proof {
                        assert(edge_ints(incident@)[k as int] == incident@[k as int].0 as int);
                        assert(e < m);
                        assert(y < n);
                        assert(node < n);
                        assert((node as u32) as int == node as int);
                        assert(graph@.opposite(e as int, node as int) == Some(y as int));
                    }
                    let candidate = match cost.checked_add(costs[e]) {
                        Some(c) => c,
                        None => {
                            proof {
                                let p = peak(costs@);
                                let o = done - 1;
                                assert(costs@[e as int] <= p);
                                assert(cost <= o * p);
                                assert(o * p + p == done * p) by (nonlinear_arith)
                                    requires
                                        o == done - 1,
                                ;
                                assert(done * p <= n * p) by (nonlinear_arith)
                                    requires
                                        done <= n,
                                        p >= 0,
                                ;
                            }
                            return Err(GraphError::ArithmeticOverflow { operation: "Steiner Dijkstra relaxation" });
                        },
                    };
                    proof {
                        let p = peak(costs@);
                        let o = done - 1;
                        assert(costs@[e as int] <= p);
                        assert(cost <= o * p);
                        assert(o * p + p == done * p) by (nonlinear_arith)
                            requires
                                o == done - 1,
                        ;
                    }
                    if !settled[y] && candidate < dist[y] {
                        let ghost before = pred@;
                        let ghost old_dist = dist@;
                        dist.set(y, candidate);
                        proof {
                            assert forall|u: int, f: int|
                                0 <= u < n && u != node && settled@[u] && 0 <= f < m implies #[trigger] relaxed(
                                graph@,
                                costs@,
                                dist@,
                                settled@,
                                u,
                                f,
                            ) by {
                                assert(relaxed(graph@, costs@, old_dist, settled@, u, f));
                                assert(u != y);
                            }
                            assert forall|i: int| 0 <= i < k implies #[trigger] relaxed(
                                graph@,
                                costs@,
                                dist@,
                                settled@,
                                node as int,
                                edge_ints(incident@)[i],
                            ) by {
                                assert(relaxed(graph@, costs@, old_dist, settled@, node as int, edge_ints(incident@)[i]));
                            }
                        }
                        pred.set(y, Some((node, e)));
                        proof {
                            assert forall|w: int| 0 <= w < pred@.len() && #[trigger] pred@[w] is Some implies graph@.opposite(
                                (pred@[w]->0).1 as int,
                                (pred@[w]->0).0 as int,
                            ) == Some(w) by {
                                if w != y as int {
                                    assert(before[w] is Some);
                                }
                            }
                        }
                    }
                },
            }
            k += 1;
        }
        proof {
            lemma_adj_members(graph@.edges, graph@.edges.len(), 2, node as int);
            assert forall|u: int, e: int| 0 <= u < n && settled@[u] && 0 <= e < m implies #[trigger] relaxed(
                graph@,
                costs@,
                dist@,
                settled@,
                u,
                e,
            ) by {
                if u == node as int {
                    if graph@.opposite(e, u) is Some {
                        assert(crate::topology::model::touches(graph@.edges[e], 2, u));
                        assert(graph@.incident(u).contains(e));
                        let i = choose|i: int| 0 <= i < graph@.incident(u).len() && graph@.incident(u)[i] == e;
                        assert(relaxed(graph@, costs@, dist@, settled@, node as int, edge_ints(incident@)[i]));
                    }
                }
            }
        }
    }
    Ok((dist, pred, Ghost(order)))
}

/// Nodes `u` and `v` lie in one connected part of the graph.
pub open spec fn connected(g: GraphModel, u: int, v: int) -> bool {
    walkable(g, all_edges(g), Direction::Both, u, v)
}

/// Connection goes both ways.
proof fn lemma_connected_symmetric(g: GraphModel, u: int, v: int)
    requires
        g.valid(),
        connected(g, u, v),
    ensures
        connected(g, v, u),
{
    let mask = all_edges(g);
    let pw = choose|p: Seq<int>| #[trigger] walk_between(g, mask, Direction::Both, p, u, v);
    assert(0 <= pw[0] < g.node_count);
    lemma_reach_self(g, mask, Direction::Both, u);
    let set = Set::new(|w: int| 0 <= w < g.node_count && walkable(g, mask, Direction::Both, w, u));
    assert forall|a: int, b: int| set.contains(a) && #[trigger] step(g, mask, Direction::Both, a, b) implies set.contains(b) by {
        let e = choose|e: int| follows(g, mask, Direction::Both, e, a, b);
        assert(follows(g, mask, Direction::Both, e, b, a));
        lemma_step_in_range(g, mask, Direction::Both, a, b);
        lemma_reach_self(g, mask, Direction::Both, b);
        lemma_reach_step(g, mask, Direction::Both, b, b, a);
        lemma_walkable_concat(g, mask, Direction::Both, b, a, u);
    }
    lemma_closed_holds_reachable(g, mask, Direction::Both, u, v, set);
}

/// Links that lead back to `source` connect it to the node they start at.
proof fn lemma_climb_connected(
    g: GraphModel,
    pred: Seq<Option<(usize, usize)>>,
    order: Seq<int>,
    m: int,
    source: int,
    v: int,
)
    requires
        g.valid(),
        pred.len() == g.node_count,
        m == g.edges.len(),
        tree_links(pred, order, pred.len() as int, m),
        links_joined(g, pred),
        0 <= source < g.node_count,
        0 <= v < g.node_count,
        climb(pred, order, m, source, v) is Some,
    ensures
        connected(g, source, v),
    decreases order[v],
{
    let mask = all_edges(g);
    if v == source {
        lemma_reach_self(g, mask, Direction::Both, source);
    } else {
        let (p, e) = pred[v]->0;
        assert(pred[v] is Some);
        lemma_climb_connected(g, pred, order, m, source, p as int);
        assert(g.opposite(e as int, p as int) == Some(v));
        assert(follows(g, mask, Direction::Both, e as int, p as int, v));
        lemma_reach_step(g, mask, Direction::Both, source, p as int, v);
    }
}

/// The edges of the tree path that the links `pred` give from `source` to
/// `v`, source first; `None` when they do not lead back to `source`.
pub open spec fn climb(pred: Seq<Option<(usize, usize)>>, order: Seq<int>, m: int, source: int, v: int) -> Option<
    Seq<usize>,
>
    decreases order[v],
    when tree_links(pred, order, pred.len() as int, m) && 0 <= v < pred.len()
{
    if v == source {
        Some(Seq::empty())
    } else {
        match pred[v] {
            None => None,
            Some((p, e)) => match climb(pred, order, m, source, p as int) {
                Some(s) => Some(s.push(e)),
                None => None,
            },
        }
    }
}

/// The edges of the tree path from `source` to `target`, source first;
/// `None` when the links do not lead back to `source`.
fn tree_path(pred: &Vec<Option<(usize, usize)>>, Ghost(order): Ghost<Seq<int>>, source: usize, target: usize, Ghost(m): Ghost<int>) -> (r: Option<Vec<usize>>)
    requires
        tree_links(pred@, order, pred@.len() as int, m),
        target < pred@.len(),
    ensures
        r matches Some(path) ==> forall|i: int| 0 <= i < path@.len() ==> #[trigger] path@[i] < m,
        match r {
            Some(path) => climb(pred@, order, m, source as int, target as int) == Some(path@),
            None => climb(pred@, order, m, source as int, target as int) is None,
        },
{
    let mut cursor = target;
    let mut edges: Vec<usize> = Vec::new();
    while cursor != source
        invariant
            tree_links(pred@, order, pred@.len() as int, m),
            cursor < pred@.len(),
            target < pred@.len(),
            forall|i: int| 0 <= i < edges@.len() ==> #[trigger] edges@[i] < m,
            climb(pred@, order, m, source as int, target as int) == match climb(
                pred@,
                order,
                m,
                source as int,
                cursor as int,
            ) {
                Some(s) => Some(s + edges@.reverse()),
                None => None,
            },
        decreases order[cursor as int],
    {
        match pred[cursor] {
            None => {
                return None;
            },
            Some((p, e)) => {
                proof {
                    assert(pred@[cursor as int] == Some((p, e)));
                    let ghost tail = climb(pred@, order, m, source as int, p as int);
                    if tail is Some {
                        assert(tail->0.push(e) + edges@.reverse() =~= tail->0 + edges@.push(e).reverse());
                    }
                }
                edges.push(e);
                cursor = p;
            },
        }
    }
    let mut path: Vec<usize> = Vec::new();
    let mut i = edges.len();
    while i > 0
        invariant
            i <= edges@.len(),
            forall|j: int| 0 <= j < edges@.len() ==> #[trigger] edges@[j] < m,
            forall|j: int| 0 <= j < path@.len() ==> #[trigger] path@[j] < m,
            path@ == edges@.subrange(i as int, edges@.len() as int).reverse(),
        decreases i,
    {
        i -= 1;
        path.push(edges[i]);
        proof {
            assert(edges@.subrange(i as int, edges@.len() as int).reverse() =~= edges@.subrange(
                i + 1,
                edges@.len() as int,
            ).reverse().push(edges@[i as int]));
        }
    }
    proof {
        assert(edges@.subrange(0, edges@.len() as int) =~= edges@);
        assert(Seq::<usize>::empty() + edges@.reverse() =~= edges@.reverse());
    }
    Some(path)
}

proof fn lemma_remaining_all(flags: Seq<bool>, k: int)
    requires
        0 <= k <= flags.len(),
        forall|w: int| 0 <= w < flags.len() ==> !#[trigger] flags[w],
    ensures
        remaining(flags, k) == k,
    decreases k,
{
    if k > 0 {
        lemma_remaining_all(flags, k - 1);
    }
}

/// The endpoints of edge `e`, as node positions.
pub(crate) fn ends_of(graph: &UndirectedTopology, e: usize) -> (r: (usize, usize))
    requires
        e < graph@.edges.len(),
    ensures
        r.0 < graph@.node_count,
        r.1 < graph@.node_count,
        r.0 as int == graph@.edges[e as int].0,
        r.1 as int == graph@.edges[e as int].1,
{
    let n = graph.node_count();
    assert((e as u32) as int == e as int);
    match graph.edge_endpoints(EdgeIndex(e as u32)) {
        Some(ends) => {
            proof {
                assert(graph@.valid());
                assert(0 <= graph@.edges[e as int].0 < n);
            }
            (ends.source.0 as usize, ends.target.0 as usize)
        },
        None => (0, 0),
    }
}

/// Edge `a` comes before edge `b` in `(cost, slot)` order.
pub open spec fn cost_before(costs: Seq<u64>, a: int, b: int) -> bool {
    costs[a] < costs[b] || (costs[a] == costs[b] && a < b)
}

/// `order` runs in strictly increasing `(cost, slot)` order.
pub open spec fn by_cost_order(costs: Seq<u64>, order: Seq<usize>) -> bool {
    forall|i: int, j: int| 0 <= i < j < order.len() ==> cost_before(costs, #[trigger] order[i] as int, #[trigger] order[j] as int)
}

/// The selected edges in increasing `(cost, slot)` order.
fn by_cost(selected: &Vec<bool>, costs: &Vec<u64>) -> (r: Vec<usize>)
    requires
        selected@.len() == costs@.len(),
    ensures
        forall|i: int| 0 <= i < r@.len() ==> #[trigger] r@[i] < costs@.len(),
        by_cost_order(costs@, r@),
        forall|e: int| 0 <= e < costs@.len() ==> (selected@[e] <==> r@.contains(e as usize)),
{
    let m = selected.len();
    let mut out: Vec<usize> = Vec::new();
    let mut e: usize = 0;
    while e < m
        invariant
            e <= m == costs@.len() == selected@.len(),
            forall|i: int| 0 <= i < out@.len() ==> #[trigger] out@[i] < e,
            by_cost_order(costs@, out@),
            forall|x: int| 0 <= x < m ==> (x < e && selected@[x] <==> out@.contains(x as usize)),
        decreases m - e,
    {
        if selected[e] {
            let mut k: usize = out.len();
            while k > 0 && (costs[out[k - 1]] > costs[e] || (costs[out[k - 1]] == costs[e] && out[k - 1] > e))
                invariant
                    k <= out@.len(),
                    e < m == costs@.len(),
                    forall|i: int| 0 <= i < out@.len() ==> #[trigger] out@[i] < e,
                    forall|j: int| k <= j < out@.len() ==> cost_before(costs@, e as int, #[trigger] out@[j] as int),
                decreases k,
            {
                k -= 1;
            }
            let ghost before = out@;
            proof {
                if k > 0 {
                    assert(out@[k - 1] < e);
                    assert(cost_before(costs@, out@[k - 1] as int, e as int));
                    assert forall|j: int| 0 <= j < k implies cost_before(costs@, #[trigger] out@[j] as int, e as int) by {
                        if j < k - 1 {
                            assert(cost_before(costs@, out@[j] as int, out@[k - 1] as int));
                        }
                    }
                }
            }
            out.insert(k, e);
            proof {
                assert forall|i: int| 0 <= i < out@.len() implies #[trigger] out@[i] < e + 1 by {
                    if i < k {
                        assert(out@[i] == before[i]);
                    } else if i > k {
                        assert(out@[i] == before[i - 1]);
                    }
                }
                assert forall|i: int, j: int| 0 <= i < j < out@.len() implies cost_before(
                    costs@,
                    #[trigger] out@[i] as int,
                    #[trigger] out@[j] as int,
                ) by {
                    if i < k && j < k {
                        assert(out@[i] == before[i] && out@[j] == before[j]);
                        assert(cost_before(costs@, before[i] as int, before[j] as int));
                    } else if i < k && j == k {
                        assert(out@[i] == before[i]);
                        assert(cost_before(costs@, before[i] as int, e as int));
                    } else if i < k {
                        assert(out@[i] == before[i] && out@[j] == before[j - 1]);
                        assert(cost_before(costs@, before[i] as int, before[j - 1] as int));
                    } else if i == k {
                        assert(out@[j] == before[j - 1]);
                        assert(cost_before(costs@, e as int, before[j - 1] as int));
                    } else {
                        assert(out@[i] == before[i - 1] && out@[j] == before[j - 1]);
                        assert(cost_before(costs@, before[i - 1] as int, before[j - 1] as int));
                    }
                }
                assert forall|x: int| 0 <= x < m implies (x < e + 1 && selected@[x] <==> out@.contains(x as usize)) by {
                    if out@.contains(x as usize) {
                        let i = choose|i: int| 0 <= i < out@.len() && out@[i] == x as usize;
                        if i < k {
                            assert(before[i] == x as usize);
                        } else if i > k {
                            assert(before[i - 1] == x as usize);
                        }
                    }
                    if x < e && selected@[x] {
                        let i = choose|i: int| 0 <= i < before.len() && before[i] == x as usize;
                        if i < k {
                            assert(out@[i] == x as usize);
                        } else {
                            assert(out@[i + 1] == x as usize);
                        }
                    }
                    if x == e {
                        assert(out@[k as int] == x as usize);
                    }
                }
            }
        } else {
            proof {
                assert forall|i: int| 0 <= i < out@.len() implies #[trigger] out@[i] < e + 1 by {
                    assert(out@[i] < e);
                }
                assert forall|x: int| 0 <= x < m implies (x < e + 1 && selected@[x] <==> out@.contains(x as usize)) by {
                    if out@.contains(x as usize) {
                        let i = choose|i: int| 0 <= i < out@.len() && out@[i] == x as usize;
                        assert(out@[i] < e);
                    }
                }
            }
        }
        e += 1;
    }
    out
}

/// A minimum spanning forest of the selected edges, cheapest first: the
/// selected edges in `(cost, slot)` order, each kept unless the edges kept
/// before it already connect its ends.
fn minimum_selected_tree(graph: &UndirectedTopology, selected: &Vec<bool>, costs: &Vec<u64>) -> (r: Vec<usize>)
    requires
        selected@.len() == costs@.len() == graph@.edges.len(),
    ensures
        forall|i: int| 0 <= i < r@.len() ==> #[trigger] r@[i] < graph@.edges.len(),
        spanning_choice(graph@, selected@, costs@, r@),
        r@.no_duplicates(),
{
    let n = graph.node_count();
    let m = graph.edge_count();
    let ghost g = graph@;
    let order = by_cost(selected, costs);
    let mut groups = Groups::new(n);
    let mut kept: Vec<usize> = Vec::new();
    proof {
        assert(g.valid());
        assert forall|u: int, v: int| 0 <= u < n && 0 <= v < n implies (groups.label@[u] == groups.label@[v] <==> #[trigger] joined(
            g,
            kept@,
            u,
            v,
        )) by {
            lemma_joined_none(g, u, v);
            assert(kept@ =~= Seq::<usize>::empty());
        }
        assert(order@.take(0) =~= Seq::<usize>::empty());
    }
    let mut i: usize = 0;
    while i < order.len()
        invariant
            i <= order@.len(),
            n == graph@.node_count,
            m == g.edges.len(),
            g == graph@,
            g.valid(),
            groups.wf(n as nat),
            forall|j: int| 0 <= j < order@.len() ==> #[trigger] order@[j] < graph@.edges.len(),
            forall|j: int| 0 <= j < kept@.len() ==> #[trigger] kept@[j] < graph@.edges.len(),
            kept@ == kruskal(g, order@.take(i as int)),
            forall|u: int, v: int|
                0 <= u < n && 0 <= v < n ==> (groups.label@[u] == groups.label@[v] <==> #[trigger] joined(g, kept@, u, v)),
        decreases order@.len() - i,
    {
        let e = order[i];
        let (a, b) = ends_of(graph, e);
        let ghost label = groups.label@;
        proof {
            assert(order@.take(i + 1).drop_last() =~= order@.take(i as int));
            assert(order@.take(i + 1).last() == e);
        }
        if groups.union(a, b, Ghost(n as nat)) {
            proof {
                assert(!joined(g, kept@, a as int, b as int));
                lemma_union_joined(g, kept@, e as int, label, groups.label@);
            }
            let ghost old_kept = kept@;
            kept.push(e);
            proof {
                assert(kept@ == old_kept.push((e as int) as usize));
                assert forall|u: int, v: int| 0 <= u < n && 0 <= v < n implies (groups.label@[u] == groups.label@[v]
                    <==> #[trigger] joined(g, kept@, u, v)) by {
                    assert(joined(g, old_kept.push((e as int) as usize), u, v) == joined(g, kept@, u, v));
                }
            }
        } else {
            proof {
                assert(joined(g, kept@, a as int, b as int));
            }
        }
        i += 1;
    }
    proof {
        assert(order@.take(order@.len() as int) =~= order@);
        lemma_kruskal_distinct(g, order@);
    }
    kept
}

/// Edge `e` of `g` has `v` as an endpoint.
pub open spec fn touches(g: GraphModel, e: int, v: int) -> bool {
    g.edges[e].0 == v || g.edges[e].1 == v
}

/// Among `edges`, in order, the first still selected one that touches
/// `node`.
fn first_touching(graph: &UndirectedTopology, edges: &Vec<usize>, selected: &Vec<bool>, node: usize) -> (r: Option<usize>)
    requires
        selected@.len() == graph@.edges.len(),
        forall|i: int| 0 <= i < edges@.len() ==> #[trigger] edges@[i] < graph@.edges.len(),
    ensures
        r matches Some(e) ==> e < graph@.edges.len() && selected@[e as int],
        match r {
            Some(e) => exists|i: int|
                0 <= i < edges@.len() && edges@[i] == e && touches(graph@, e as int, node as int) && forall|j: int|
                    0 <= j < i ==> !(selected@[#[trigger] edges@[j] as int] && touches(graph@, edges@[j] as int, node as int)),
            None => forall|j: int|
                0 <= j < edges@.len() ==> !(selected@[#[trigger] edges@[j] as int] && touches(graph@, edges@[j] as int, node as int)),
        },
{
    let mut i: usize = 0;
    while i < edges.len()
        invariant
            i <= edges@.len(),
            selected@.len() == graph@.edges.len(),
            forall|j: int| 0 <= j < edges@.len() ==> #[trigger] edges@[j] < graph@.edges.len(),
            forall|j: int|
                0 <= j < i ==> !(selected@[#[trigger] edges@[j] as int] && touches(graph@, edges@[j] as int, node as int)),
        decreases edges@.len() - i,
    {
        let e = edges[i];
        if selected[e] {
            let (a, b) = ends_of(graph, e);
            if a == node || b == node {
                assert(touches(graph@, e as int, node as int));
                return Some(e);
            }
        }
        i += 1;
    }
    None
}

/// The entries of `edges` whose flag is set, in order.
pub open spec fn flagged(edges: Seq<usize>, flags: Seq<bool>) -> Seq<usize>
    decreases edges.len(),
{
    if edges.len() == 0 {
        Seq::empty()
    } else {
        let prev = flagged(edges.drop_last(), flags);
        if flags[edges.last() as int] {
            prev.push(edges.last())
        } else {
            prev
        }
    }
}

/// `forest` is what a greedy pass keeps of the selected edges taken in
/// `(cost, slot)` order.
pub open spec fn spanning_choice(g: GraphModel, selected: Seq<bool>, costs: Seq<u64>, forest: Seq<usize>) -> bool {
    exists|order: Seq<usize>|
        {
            &&& by_cost_order(costs, order)
            &&& forall|e: int| 0 <= e < costs.len() ==> (selected[e] <==> order.contains(e as usize))
            &&& forall|i: int| 0 <= i < order.len() ==> #[trigger] order[i] < costs.len()
            &&& forest == kruskal(g, order)
        }
}

/// `kept` is `edges` in order less some edges, each with an end that is no
/// terminal; when `edges` lists each edge once, no node but a terminal is
/// left with exactly one kept edge.
pub open spec fn pruning(g: GraphModel, terminal: Seq<bool>, edges: Seq<usize>, kept: Seq<usize>) -> bool {
    exists|flags: Seq<bool>|
        {
            &&& flags.len() == g.edges.len()
            &&& kept == flagged(edges, flags)
            &&& forall|i: int|
                0 <= i < edges.len() && !flags[#[trigger] edges[i] as int] ==> exists|v: int|
                    0 <= v < g.node_count && !terminal[v] && touches(g, edges[i] as int, v)
            &&& edges.no_duplicates() && 2 * edges.len() <= usize::MAX ==> forall|v: int|
                0 <= v < g.node_count && !terminal[v] ==> #[trigger] flagged_degree(g, edges, flags, v) != 1
        }
}

/// `edges` without the leaves that are not terminals, pruned repeatedly:
/// what is left keeps the order of `edges`, and only an edge with an end
/// that is no terminal is ever dropped.
fn prune_leaves(graph: &UndirectedTopology, terminal: &Vec<bool>, edges: &Vec<usize>) -> (r: Vec<usize>)
    requires
        terminal@.len() == graph@.node_count,
        forall|i: int| 0 <= i < edges@.len() ==> #[trigger] edges@[i] < graph@.edges.len(),
    ensures
        forall|i: int| 0 <= i < r@.len() ==> #[trigger] r@[i] < graph@.edges.len(),
        pruning(graph@, terminal@, edges@, r@),
{
    let n = graph.node_count();
    let m = graph.edge_count();
    let mut selected: Vec<bool> = Vec::new();
    let mut e: usize = 0;
    while e < m
        invariant
            e <= m,
            selected@.len() == e,
            forall|j: int| 0 <= j < e ==> !#[trigger] selected@[j],
        decreases m - e,
    {
        selected.push(false);
        e += 1;
    }
    let mut degree: Vec<usize> = Vec::new();
    let mut v: usize = 0;
    while v < n
        invariant
            v <= n,
            degree@.len() == v,
            forall|j: int| 0 <= j < v ==> #[trigger] degree@[j] == 0,
        decreases n - v,
    {
        degree.push(0);
        v += 1;
    }
    let ghost g = graph@;
    let ghost h = edges@.no_duplicates() && 2 * edges@.len() <= usize::MAX;
    proof {
        assert forall|v: int| 0 <= v < n implies degree@[v] == flagged_degree(g, edges@.take(0), selected@, v) by {
            assert(edges@.take(0).len() == 0);
        }
    }
    let mut i: usize = 0;
    while i < edges.len()
        invariant
            i <= edges@.len(),
            n == graph@.node_count,
            m == graph@.edges.len(),
            g == graph@,
            h == (edges@.no_duplicates() && 2 * edges@.len() <= usize::MAX),
            selected@.len() == m,
            degree@.len() == n,
            forall|j: int| 0 <= j < edges@.len() ==> #[trigger] edges@[j] < m,
            forall|j: int| 0 <= j < i ==> selected@[#[trigger] edges@[j] as int],
            h ==> forall|x: int| 0 <= x < m && #[trigger] selected@[x] ==> edges@.take(i as int).contains(x as usize),
            h ==> forall|v: int| 0 <= v < n ==> #[trigger] degree@[v] == flagged_degree(g, edges@.take(i as int), selected@, v),
        decreases edges@.len() - i,
    {
        let e = edges[i];
        let ghost before = selected@;
        let ghost deg0 = degree@;
        proof {
            assert(edges@.take(i + 1) =~= edges@.take(i as int).push(e));
            if h {
                if before[e as int] {
                    let j = choose|j: int| 0 <= j < edges@.take(i as int).len() && #[trigger] edges@.take(i as int)[j] == e;
                    assert(edges@[j] == edges@[i as int]);
                }
            }
        }
        selected.set(e, true);
        let (a, b) = ends_of(graph, e);
        proof {
            if h {
                assert forall|v: int| 0 <= v < n implies flagged_degree(g, edges@.take(i + 1), selected@, v)
                    == deg0[v] + ends_at(g, e as int, v) by {
                    assert forall|j: int| 0 <= j < edges@.take(i as int).len() implies selected@[#[trigger] edges@.take(
                        i as int,
                    )[j] as int] == before[edges@.take(i as int)[j] as int] by {
                        assert(edges@.take(i as int)[j] == edges@[j]);
                        assert(edges@[j] != edges@[i as int]);
                    }
                    lemma_degree_frame(g, edges@.take(i as int), selected@, before, v);
                    assert(edges@.take(i + 1).drop_last() =~= edges@.take(i as int));
                    lemma_degree_bound(g, edges@.take(i as int), before, v);
                }
                lemma_degree_bound(g, edges@.take(i as int), before, a as int);
                lemma_degree_bound(g, edges@.take(i as int), before, b as int);
            }
        }
        let da = degree[a];
        degree.set(a, da.saturating_add(1));
        let db = degree[b];
        degree.set(b, db.saturating_add(1));
        proof {
            if h {
                assert forall|v: int| 0 <= v < n implies #[trigger] degree@[v] == flagged_degree(
                    g,
                    edges@.take(i + 1),
                    selected@,
                    v,
                ) by {
                    assert(flagged_degree(g, edges@.take(i + 1), selected@, v) == deg0[v] + ends_at(g, e as int, v));
                }
                assert forall|x: int| 0 <= x < m && #[trigger] selected@[x] implies edges@.take(i + 1).contains(
                    x as usize,
                ) by {
                    lemma_push_contains(edges@, i as int, x as usize);
                }
            }
        }
        i += 1;
    }
    proof {
        assert(edges@.take(edges@.len() as int) =~= edges@);
    }
    let mut queue: Vec<usize> = Vec::new();
    let mut v: usize = 0;
    while v < n
        invariant
            v <= n,
            degree@.len() == n,
            terminal@.len() == n,
            forall|j: int| 0 <= j < queue@.len() ==> #[trigger] queue@[j] < n && !terminal@[queue@[j] as int],
            selected@.len() == m,
            forall|j: int| 0 <= j < edges@.len() ==> selected@[#[trigger] edges@[j] as int],
            h ==> forall|w: int| 0 <= w < n ==> #[trigger] degree@[w] == flagged_degree(g, edges@, selected@, w),
            forall|w: int| 0 <= w < v && !terminal@[w] && #[trigger] degree@[w] == 1 ==> queue@.contains(w as usize),
        decreases n - v,
    {
        let ghost q0 = queue@;
        if !terminal[v] && degree[v] == 1 {
            queue.push(v);
            proof {
                assert(queue@[queue@.len() - 1] == v);
            }
        }
        proof {
            assert forall|w: int| 0 <= w < v + 1 && !terminal@[w] && #[trigger] degree@[w] == 1 implies queue@.contains(
                w as usize,
            ) by {
                if w < v && queue@ != q0 {
                    let j = choose|j: int| 0 <= j < q0.len() && q0[j] == w as usize;
                    assert(queue@[j] == w as usize);
                }
            }
        }
        v += 1;
    }
    let mut head: usize = 0;
    proof {
        lemma_remaining_bound(selected@, m as int);
    }
    while head < queue.len()
        invariant
            n == graph@.node_count,
            m == graph@.edges.len(),
            selected@.len() == m,
            degree@.len() == n,
            terminal@.len() == n,
            head <= queue@.len(),
            0 <= remaining(selected@, m as int) <= m,
            forall|j: int| 0 <= j < queue@.len() ==> #[trigger] queue@[j] < n && !terminal@[queue@[j] as int],
            forall|j: int| 0 <= j < edges@.len() ==> #[trigger] edges@[j] < m,
            forall|j: int|
                0 <= j < edges@.len() && !selected@[#[trigger] edges@[j] as int] ==> exists|v: int|
                    0 <= v < n && !terminal@[v] && touches(graph@, edges@[j] as int, v),
            g == graph@,
            h == (edges@.no_duplicates() && 2 * edges@.len() <= usize::MAX),
            h ==> forall|w: int| 0 <= w < n ==> #[trigger] degree@[w] == flagged_degree(g, edges@, selected@, w),
            h ==> forall|w: int|
                0 <= w < n && !terminal@[w] && #[trigger] degree@[w] == 1 ==> exists|q: int|
                    head <= q < queue@.len() && queue@[q] == w as usize,
        decreases 3 * (m - remaining(selected@, m as int)) + (queue@.len() - head),
    {
        let node = queue[head];
        head += 1;
        match first_touching(graph, edges, &selected, node) {
            None => {
                proof {
                    if h {
                        lemma_degree_bound(g, edges@, selected@, node as int);
                        if flagged_degree(g, edges@, selected@, node as int) > 0 {
                            lemma_degree_positive(g, edges@, selected@, node as int);
                        }
                        assert(degree@[node as int] == 0);
                        assert forall|w: int|
                            0 <= w < n && !terminal@[w] && #[trigger] degree@[w] == 1 implies exists|q: int|
                                head <= q < queue@.len() && queue@[q] == w as usize by {
                            let q = choose|q: int| head - 1 <= q < queue@.len() && queue@[q] == w as usize;
                            assert(q != head - 1);
                        }
                    }
                }
            },
            Some(e) => {
                proof {
                    lemma_flag_clear(selected@, e as int, m as int);
                    lemma_remaining_bound(selected@.update(e as int, false), m as int);
                }
                let ghost prior = selected@;
                selected.set(e, false);
                proof {
                    assert(!terminal@[node as int]);
                    assert forall|j: int|
                        0 <= j < edges@.len() && !selected@[#[trigger] edges@[j] as int] implies exists|v: int|
                            0 <= v < n && !terminal@[v] && touches(graph@, edges@[j] as int, v) by {
                        if edges@[j] == e {
                            let i = choose|i: int| 0 <= i < edges@.len() && edges@[i] == e && touches(
                                graph@,
                                e as int,
                                node as int,
                            ) && forall|j: int|
                                0 <= j < i ==> !(prior[#[trigger] edges@[j] as int] && touches(
                                    graph@,
                                    edges@[j] as int,
                                    node as int,
                                ));
                            assert(touches(graph@, edges@[j] as int, node as int));
                        } else {
                            assert(!prior[edges@[j] as int]);
                        }
                    }
                }
                let (a, b) = ends_of(graph, e);
                let ghost deg0 = degree@;
                let ghost qa = queue@;
                proof {
                    if h {
                        let i = choose|i: int| 0 <= i < edges@.len() && edges@[i] == e && touches(
                            graph@,
                            e as int,
                            node as int,
                        ) && forall|j: int|
                            0 <= j < i ==> !(prior[#[trigger] edges@[j] as int] && touches(
                                graph@,
                                edges@[j] as int,
                                node as int,
                            ));
                        assert(edges@.contains(e));
                        assert forall|w: int| 0 <= w < n implies flagged_degree(g, edges@, selected@, w) == deg0[w]
                            - ends_at(g, e as int, w) by {
                            lemma_degree_clear(g, edges@, prior, e, w);
                        }
                        lemma_degree_bound(g, edges@, selected@, a as int);
                        lemma_degree_bound(g, edges@, selected@, b as int);
                        assert(node == a || node == b);
                    }
                }
                let da = degree[a].saturating_sub(1);
                degree.set(a, da);
                if !terminal[a] && da == 1 {
                    queue.push(a);
                }
                let ghost qb = queue@;
                let db = degree[b].saturating_sub(1);
                degree.set(b, db);
                if !terminal[b] && db == 1 {
                    queue.push(b);
                }
                proof {
                    if h {
                        assert forall|w: int| 0 <= w < n implies #[trigger] degree@[w] == flagged_degree(
                            g,
                            edges@,
                            selected@,
                            w,
                        ) by {
                            assert(flagged_degree(g, edges@, selected@, w) == deg0[w] - ends_at(g, e as int, w));
                        }
                        assert forall|w: int|
                            0 <= w < n && !terminal@[w] && #[trigger] degree@[w] == 1 implies exists|q: int|
                                head <= q < queue@.len() && queue@[q] == w as usize by {
                            if w == b as int {
                                assert(queue@[queue@.len() - 1] == w as usize);
                            } else if w == a as int {
                                assert(qb[qb.len() - 1] == w as usize);
                                assert(queue@[qb.len() - 1] == w as usize);
                            } else {
                                assert(degree@[w] == deg0[w]);
                                assert(w != node);
                                let q = choose|q: int| head - 1 <= q < qa.len() && qa[q] == w as usize;
                                assert(q != head - 1);
                                assert(queue@[q] == w as usize);
                            }
                        }
                    }
                }
            },
        }
    }
    proof {
        if h {
            assert forall|w: int| 0 <= w < n && !terminal@[w] implies #[trigger] flagged_degree(g, edges@, selected@, w)
                != 1 by {
                assert(degree@[w] == flagged_degree(g, edges@, selected@, w));
            }
        }
    }
    let mut kept: Vec<usize> = Vec::new();
    let mut i: usize = 0;
    while i < edges.len()
        invariant
            g == graph@,
            n == graph@.node_count,
            terminal@.len() == n,
            h == (edges@.no_duplicates() && 2 * edges@.len() <= usize::MAX),
            h ==> forall|w: int| 0 <= w < n && !terminal@[w] ==> #[trigger] flagged_degree(g, edges@, selected@, w) != 1,
            forall|j: int|
                0 <= j < edges@.len() && !selected@[#[trigger] edges@[j] as int] ==> exists|v: int|
                    0 <= v < n && !terminal@[v] && touches(graph@, edges@[j] as int, v),
            i <= edges@.len(),
            selected@.len() == graph@.edges.len(),
            forall|j: int| 0 <= j < edges@.len() ==> #[trigger] edges@[j] < graph@.edges.len(),
            forall|j: int| 0 <= j < kept@.len() ==> #[trigger] kept@[j] < graph@.edges.len(),
            kept@ == flagged(edges@.take(i as int), selected@),
        decreases edges@.len() - i,
    {
        proof {
            assert(edges@.take(i + 1).drop_last() =~= edges@.take(i as int));
            assert(edges@.take(i + 1).last() == edges@[i as int]);
        }
        if selected[edges[i]] {
            kept.push(edges[i]);
        }
        i += 1;
    }
    proof {
        assert(edges@.take(edges@.len() as int) =~= edges@);
    }
    kept
}

/// How many ends of edge `e` lie at `v`.
pub open spec fn ends_at(g: GraphModel, e: int, v: int) -> int {
    (if g.edges[e].0 == v {
        1int
    } else {
        0
    }) + (if g.edges[e].1 == v {
        1int
    } else {
        0
    })
}

/// The degree of `v` among the flagged entries of `edges`, a loop counted
/// twice.
pub open spec fn flagged_degree(g: GraphModel, edges: Seq<usize>, flags: Seq<bool>, v: int) -> int
    decreases edges.len(),
{
    if edges.len() == 0 {
        0
    } else {
        flagged_degree(g, edges.drop_last(), flags, v) + if flags[edges.last() as int] {
            ends_at(g, edges.last() as int, v)
        } else {
            0
        }
    }
}

/// How many ends of the listed edges lie at `v`.
pub open spec fn degree_in(g: GraphModel, edges: Seq<usize>, v: int) -> int
    decreases edges.len(),
{
    if edges.len() == 0 {
        0
    } else {
        degree_in(g, edges.drop_last(), v) + ends_at(g, edges.last() as int, v)
    }
}

/// The flagged degree is the degree among the flagged edges.
proof fn lemma_flagged_degree(g: GraphModel, edges: Seq<usize>, flags: Seq<bool>, v: int)
    ensures
        flagged_degree(g, edges, flags, v) == degree_in(g, flagged(edges, flags), v),
    decreases edges.len(),
{
    if edges.len() > 0 {
        lemma_flagged_degree(g, edges.drop_last(), flags, v);
        let prev = flagged(edges.drop_last(), flags);
        if flags[edges.last() as int] {
            assert(prev.push(edges.last()).drop_last() =~= prev);
        }
    }
}

/// The flagged edges of a list without repeats are listed edges, each once.
proof fn lemma_flagged_distinct(edges: Seq<usize>, flags: Seq<bool>)
    requires
        edges.no_duplicates(),
    ensures
        flagged(edges, flags).no_duplicates(),
        forall|x: usize| #[trigger] flagged(edges, flags).contains(x) ==> edges.contains(x),
    decreases edges.len(),
{
    if edges.len() > 0 {
        let rest = edges.drop_last();
        assert(rest.no_duplicates());
        lemma_flagged_distinct(rest, flags);
        let prev = flagged(rest, flags);
        assert forall|x: usize| #[trigger] prev.contains(x) implies edges.contains(x) by {
            assert(rest.contains(x));
            let i = choose|i: int| 0 <= i < rest.len() && rest[i] == x;
            assert(edges[i] == x);
        }
        if flags[edges.last() as int] {
            let cur = prev.push(edges.last());
            assert(!prev.contains(edges.last())) by {
                if prev.contains(edges.last()) {
                    assert(rest.contains(edges.last()));
                    let i = choose|i: int| 0 <= i < rest.len() && rest[i] == edges.last();
                    assert(edges[i] == edges[edges.len() - 1]);
                }
            }
            assert forall|x: usize| #[trigger] cur.contains(x) implies edges.contains(x) by {
                let i = choose|i: int| 0 <= i < cur.len() && cur[i] == x;
                if i < prev.len() {
                    assert(prev[i] == x);
                    assert(prev.contains(x));
                } else {
                    assert(edges[edges.len() - 1] == x);
                }
            }
            assert forall|i: int, j: int| 0 <= i < j < cur.len() implies cur[i] != cur[j] by {
                if j == cur.len() - 1 {
                    assert(prev.contains(prev[i]));
                }
            }
        }
    }
}

/// Taking one edge out of a list takes its ends out of every degree.
pub(crate) proof fn lemma_degree_remove(g: GraphModel, s: Seq<usize>, k: int, v: int)
    requires
        0 <= k < s.len(),
    ensures
        degree_in(g, s, v) == degree_in(g, s.remove(k), v) + ends_at(g, s[k] as int, v),
    decreases s.len(),
{
    if k < s.len() - 1 {
        lemma_degree_remove(g, s.drop_last(), k, v);
        assert(s.remove(k).drop_last() =~= s.drop_last().remove(k));
        assert(s.remove(k).last() == s.last());
    } else {
        assert(s.remove(k) =~= s.drop_last());
    }
}

/// Two lists without repeats that hold the same edges give equal degrees.
proof fn lemma_degree_same_set(g: GraphModel, s1: Seq<usize>, s2: Seq<usize>, v: int)
    requires
        s1.no_duplicates(),
        s2.no_duplicates(),
        forall|x: usize| s1.contains(x) <==> s2.contains(x),
    ensures
        degree_in(g, s1, v) == degree_in(g, s2, v),
    decreases s1.len(),
{
    if s1.len() == 0 {
        if s2.len() > 0 {
            assert(s2.contains(s2[0]));
        }
    } else {
        let x = s1.last();
        assert(s1.contains(x));
        let k = choose|k: int| 0 <= k < s2.len() && s2[k] == x;
        let r1 = s1.drop_last();
        let r2 = s2.remove(k);
        assert(r1.no_duplicates());
        assert(r2.no_duplicates()) by {
            assert forall|i: int, j: int| 0 <= i < j < r2.len() implies r2[i] != r2[j] by {
                let a = if i < k { i } else { i + 1 };
                let b = if j < k { j } else { j + 1 };
                assert(r2[i] == s2[a] && r2[j] == s2[b]);
            }
        }
        assert forall|y: usize| r1.contains(y) <==> r2.contains(y) by {
            if r1.contains(y) {
                let i = choose|i: int| 0 <= i < r1.len() && r1[i] == y;
                assert(s1[i] == y);
                assert(s1.contains(y));
                assert(y != x);
                let j = choose|j: int| 0 <= j < s2.len() && s2[j] == y;
                assert(j != k);
                if j < k {
                    assert(r2[j] == y);
                } else {
                    assert(r2[j - 1] == y);
                }
            }
            if r2.contains(y) {
                let j = choose|j: int| 0 <= j < r2.len() && r2[j] == y;
                let b = if j < k { j } else { j + 1 };
                assert(s2[b] == y);
                assert(b != k);
                assert(s2.contains(y));
                assert(s1.contains(y));
                let i = choose|i: int| 0 <= i < s1.len() && s1[i] == y;
                assert(i != s1.len() - 1);
                assert(r1[i] == y);
            }
        }
        lemma_degree_same_set(g, r1, r2, v);
        lemma_degree_remove(g, s2, k, v);
    }
}

/// Flags that agree on the listed edges give the same degrees.
proof fn lemma_degree_frame(g: GraphModel, edges: Seq<usize>, f1: Seq<bool>, f2: Seq<bool>, v: int)
    requires
        forall|i: int| 0 <= i < edges.len() ==> f1[#[trigger] edges[i] as int] == f2[edges[i] as int],
    ensures
        flagged_degree(g, edges, f1, v) == flagged_degree(g, edges, f2, v),
    decreases edges.len(),
{
    if edges.len() > 0 {
        assert(f1[edges[edges.len() - 1] as int] == f2[edges[edges.len() - 1] as int]);
        lemma_degree_frame(g, edges.drop_last(), f1, f2, v);
    }
}

/// Degrees are at least zero and at most twice the number of entries.
proof fn lemma_degree_bound(g: GraphModel, edges: Seq<usize>, flags: Seq<bool>, v: int)
    ensures
        0 <= flagged_degree(g, edges, flags, v) <= 2 * edges.len(),
    decreases edges.len(),
{
    if edges.len() > 0 {
        lemma_degree_bound(g, edges.drop_last(), flags, v);
    }
}

/// Clearing the flag of an edge listed once lowers each degree by its ends
/// there.
proof fn lemma_degree_clear(g: GraphModel, edges: Seq<usize>, flags: Seq<bool>, x: usize, v: int)
    requires
        edges.no_duplicates(),
        edges.contains(x),
        0 <= x < flags.len(),
        forall|i: int| 0 <= i < edges.len() ==> #[trigger] edges[i] < flags.len(),
        flags[x as int],
    ensures
        flagged_degree(g, edges, flags.update(x as int, false), v) == flagged_degree(g, edges, flags, v) - ends_at(
            g,
            x as int,
            v,
        ),
    decreases edges.len(),
{
    let f2 = flags.update(x as int, false);
    let last = edges.last();
    let rest = edges.drop_last();
    if last == x {
        assert forall|i: int| 0 <= i < rest.len() implies f2[#[trigger] rest[i] as int] == flags[rest[i] as int] by {
            assert(rest[i] == edges[i]);
            assert(edges[i] != edges[edges.len() - 1]);
            assert(edges[i] < flags.len());
        }
        lemma_degree_frame(g, rest, f2, flags, v);
    } else {
        let j = choose|j: int| 0 <= j < edges.len() && edges[j] == x;
        assert(rest[j] == x);
        assert(rest.no_duplicates()) by {
            assert forall|a: int, b: int| 0 <= a < rest.len() && 0 <= b < rest.len() && a != b implies rest[a] != rest[b] by {
                assert(rest[a] == edges[a] && rest[b] == edges[b]);
            }
        }
        assert forall|i: int| 0 <= i < rest.len() implies #[trigger] rest[i] < flags.len() by {
            assert(rest[i] == edges[i]);
        }
        assert(edges[edges.len() - 1] < flags.len());
        lemma_degree_clear(g, rest, flags, x, v);
    }
}

/// A node of positive degree has a flagged edge at it.
proof fn lemma_degree_positive(g: GraphModel, edges: Seq<usize>, flags: Seq<bool>, v: int)
    requires
        flagged_degree(g, edges, flags, v) > 0,
    ensures
        exists|i: int| 0 <= i < edges.len() && flags[#[trigger] edges[i] as int] && touches(g, edges[i] as int, v),
    decreases edges.len(),
{
    let last = edges.last();
    if flags[last as int] && ends_at(g, last as int, v) > 0 {
        assert(flags[edges[edges.len() - 1] as int] && touches(g, edges[edges.len() - 1] as int, v));
    } else {
        lemma_degree_positive(g, edges.drop_last(), flags, v);
        let i = choose|i: int|
            0 <= i < edges.drop_last().len() && flags[#[trigger] edges.drop_last()[i] as int] && touches(
                g,
                edges.drop_last()[i] as int,
                v,
            );
        assert(edges.drop_last()[i] == edges[i]);
    }
}

/// A prefix one longer holds what the shorter one holds and its last entry.
proof fn lemma_push_contains(s: Seq<usize>, i: int, x: usize)
    requires
        0 <= i < s.len(),
    ensures
        s.take(i + 1).contains(x) <==> (s.take(i).contains(x) || x == s[i]),
{
    let long = s.take(i + 1);
    let short = s.take(i);
    assert(long =~= short.push(s[i]));
    if long.contains(x) {
        let j = choose|j: int| 0 <= j < long.len() && #[trigger] long[j] == x;
        if j < i {
            assert(short[j] == x);
        }
    }
    if short.contains(x) {
        let j = choose|j: int| 0 <= j < short.len() && #[trigger] short[j] == x;
        assert(long[j] == x);
    }
    if x == s[i] {
        assert(long[i] == x);
    }
}

proof fn lemma_flag_clear(flags: Seq<bool>, x: int, k: int)
    requires
        0 <= x < flags.len(),
        0 <= k <= flags.len(),
        flags[x],
    ensures
        remaining(flags.update(x, false), k) == remaining(flags, k) + if x < k {
            1int
        } else {
            0
        },
    decreases k,
{
    if k > 0 {
        lemma_flag_clear(flags, x, k - 1);
    }
}

/// The candidate tree over the selected edges: a minimum spanning forest,
/// its non-terminal leaves pruned, in increasing edge order.
fn candidate_tree(graph: &UndirectedTopology, terminal: &Vec<bool>, selected: &Vec<bool>, costs: &Vec<u64>) -> (r: Vec<usize>)
    requires
        terminal@.len() == graph@.node_count,
        selected@.len() == costs@.len() == graph@.edges.len(),
    ensures
        increasing(r@),
        forall|i: int| 0 <= i < r@.len() ==> #[trigger] r@[i] < graph@.edges.len(),
        exists|forest: Seq<usize>, pruned: Seq<usize>|
            {
                &&& spanning_choice(graph@, selected@, costs@, forest)
                &&& forest.no_duplicates()
                &&& pruning(graph@, terminal@, forest, pruned)
                &&& forall|e: usize| #[trigger] r@.contains(e) <==> pruned.contains(e)
            },
        2 * graph@.edges.len() <= usize::MAX ==> forall|v: int|
            0 <= v < graph@.node_count && !terminal@[v] ==> #[trigger] degree_in(graph@, r@, v) != 1,
{
    let forest = minimum_selected_tree(graph, selected, costs);
    let pruned = prune_leaves(graph, terminal, &forest);
    let mut out: Vec<usize> = Vec::new();
    let mut i: usize = 0;
    while i < pruned.len()
        invariant
            i <= pruned@.len(),
            increasing(out@),
            forall|j: int| 0 <= j < pruned@.len() ==> #[trigger] pruned@[j] < graph@.edges.len(),
            forall|j: int| 0 <= j < out@.len() ==> #[trigger] out@[j] < graph@.edges.len(),
            forall|x: usize| #[trigger] out@.contains(x) <==> pruned@.take(i as int).contains(x),
        decreases pruned@.len() - i,
    {
        proof {
            assert(pruned@.take(i + 1) =~= pruned@.take(i as int).push(pruned@[i as int]));
        }
        let u = pruned[i];
        let mut k: usize = 0;
        while k < out.len() && out[k] < u
            invariant
                k <= out@.len(),
                forall|j: int| 0 <= j < k ==> out@[j] < u,
            decreases out@.len() - k,
        {
            k += 1;
        }
        if !(k < out.len() && out[k] == u) {
            let ghost before = out@;
            out.insert(k, u);
            proof {
                assert(forall|j: int| 0 <= j < k ==> out@[j] == before[j]);
                assert(forall|j: int| k < j < out@.len() ==> out@[j] == before[j - 1]);
                assert forall|j: int| 0 <= j < out@.len() implies #[trigger] out@[j] < graph@.edges.len() by {
                    if j < k {
                        assert(out@[j] == before[j]);
                    } else if j > k {
                        assert(out@[j] == before[j - 1]);
                    }
                }
                assert forall|x: usize| #[trigger] out@.contains(x) <==> pruned@.take(i + 1).contains(x) by {
                    lemma_push_contains(pruned@, i as int, x);
                    if out@.contains(x) {
                        let j = choose|j: int| 0 <= j < out@.len() && out@[j] == x;
                        if j < k {
                            assert(before.contains(x));
                        } else if j > k {
                            assert(before[j - 1] == x);
                            assert(before.contains(x));
                        }
                    }
                    if before.contains(x) {
                        let j = choose|j: int| 0 <= j < before.len() && before[j] == x;
                        if j < k {
                            assert(out@[j] == x);
                        } else {
                            assert(out@[j + 1] == x);
                        }
                    }
                    if x == u {
                        assert(out@[k as int] == x);
                    }
                }
            }
        } else {
            proof {
                assert forall|x: usize| #[trigger] out@.contains(x) <==> pruned@.take(i + 1).contains(x) by {
                    lemma_push_contains(pruned@, i as int, x);
                    if x == u {
                        assert(out@[k as int] == x);
                    }
                }
            }
        }
        i += 1;
    }
    proof {
        assert(pruned@.take(pruned@.len() as int) =~= pruned@);
        if 2 * graph@.edges.len() <= usize::MAX {
            let m = graph@.edges.len() as int;
            let fi = forest@.map_values(|e: usize| e as int);
            assert(fi.no_duplicates()) by {
                assert forall|a: int, b: int| 0 <= a < b < fi.len() implies fi[a] != fi[b] by {
                    assert(forest@[a] != forest@[b]);
                }
            }
            lemma_distinct_bounded(fi, m);
            let flags = choose|flags: Seq<bool>|
                {
                    &&& flags.len() == graph@.edges.len()
                    &&& pruned@ == flagged(forest@, flags)
                    &&& forall|i: int|
                        0 <= i < forest@.len() && !flags[#[trigger] forest@[i] as int] ==> exists|v: int|
                            0 <= v < graph@.node_count && !terminal@[v] && touches(graph@, forest@[i] as int, v)
                    &&& forest@.no_duplicates() && 2 * forest@.len() <= usize::MAX ==> forall|v: int|
                        0 <= v < graph@.node_count && !terminal@[v] ==> #[trigger] flagged_degree(graph@, forest@, flags, v) != 1
                };
            lemma_flagged_distinct(forest@, flags);
            assert(out@.no_duplicates()) by {
                assert forall|a: int, b: int| 0 <= a < b < out@.len() implies out@[a] != out@[b] by {}
            }
            assert forall|v: int| 0 <= v < graph@.node_count && !terminal@[v] implies #[trigger] degree_in(graph@, out@, v) != 1 by {
                lemma_flagged_degree(graph@, forest@, flags, v);
                lemma_degree_same_set(graph@, out@, pruned@, v);
                assert(flagged_degree(graph@, forest@, flags, v) != 1);
            }
        }
    }
    out
}

/// The position of metric pair `(left, right)` among `terminal_count`
/// columns, `u64::MAX` when it does not fit `usize`.
pub open spec fn pair_position(left: usize, right: usize, terminal_count: usize) -> u64 {
    if left * terminal_count + right <= usize::MAX {
        (left * terminal_count + right) as u64
    } else {
        u64::MAX
    }
}

/// A 64-bit finalizer that mixes `seed` into `value`.
pub open spec fn mix_seed(value: u64, seed: u64) -> u64 {
    let v0 = value ^ seed.wrapping_mul(0x9E37_79B9_7F4A_7C15);
    let v1 = (v0 ^ (v0 >> 30u64)).wrapping_mul(0xBF58_476D_1CE4_E5B9);
    let v2 = (v1 ^ (v1 >> 27u64)).wrapping_mul(0x94D0_49BB_1331_11EB);
    v2 ^ (v2 >> 31u64)
}

/// The tie-breaker of metric pair `(left, right)` under `seed`: the pair's
/// position for seed zero, otherwise that position mixed with the seed.
fn metric_tie(left: usize, right: usize, terminal_count: usize, seed: u64) -> (r: u64)
    ensures
        r == if seed == 0 {
            pair_position(left, right, terminal_count)
        } else {
            mix_seed(pair_position(left, right, terminal_count), seed)
        },
{
    let canonical = match left.checked_mul(terminal_count) {
        Some(x) => match x.checked_add(right) {
            Some(y) => y as u64,
            None => u64::MAX,
        },
        None => u64::MAX,
    };
    if seed == 0 {
        return canonical;
    }
    let mut value = canonical ^ seed.wrapping_mul(0x9E37_79B9_7F4A_7C15);
    value = (value ^ (value >> 30u64)).wrapping_mul(0xBF58_476D_1CE4_E5B9);
    value = (value ^ (value >> 27u64)).wrapping_mul(0x94D0_49BB_1331_11EB);
    value ^ (value >> 31u64)
}

/// One shortest path of the metric closure: its cost, its terminals'
/// positions and its edges.
struct MetricPath {
    cost: u64,
    left: usize,
    right: usize,
    path: Vec<usize>,
}

/// The terminals' metric closure as a graph: one edge per metric path,
/// between the positions of its two terminals.
spec fn metric_graph(metric: Seq<MetricPath>, terminal_count: nat) -> GraphModel {
    GraphModel {
        node_count: terminal_count,
        edges: Seq::new(metric.len(), |i: int| (metric[i].left as int, metric[i].right as int)),
    }
}

/// The cost of each metric path.
spec fn metric_costs(metric: Seq<MetricPath>) -> Seq<int> {
    Seq::new(metric.len(), |i: int| metric[i].cost as int)
}

/// Key `a` comes no later than key `b`: cost first, then tie-breaker.
pub open spec fn key_le(a: (u64, u64), b: (u64, u64)) -> bool {
    a.0 < b.0 || (a.0 == b.0 && a.1 <= b.1)
}

/// `chosen` lists metric paths that form a minimum spanning forest of the
/// metric closure: each joins terminals the earlier ones do not, and every
/// metric path is chosen or has its terminals joined by chosen paths that
/// cost no more than it.
spec fn minimum_metric_forest(metric: Seq<MetricPath>, terminal_count: nat, chosen: Seq<usize>) -> bool {
    let g = metric_graph(metric, terminal_count);
    &&& forall|i: int| 0 <= i < chosen.len() ==> #[trigger] chosen[i] < metric.len()
    &&& forall|k: int|
        0 <= k < chosen.len() ==> !joined(
            g,
            chosen.take(k),
            metric[chosen[k] as int].left as int,
            metric[chosen[k] as int].right as int,
        )
    &&& forall|y: int|
        0 <= y < metric.len() ==> chosen.contains(y as usize) || exists|s: Seq<usize>|
            {
                &&& forall|i: int| 0 <= i < s.len() ==> chosen.contains(#[trigger] s[i]) && metric[s[i] as int].cost
                    <= #[trigger] metric[y].cost
                &&& joined(g, s, metric[y].left as int, metric[y].right as int)
            }
}

/// The sort key of a metric path under `seed`: its cost, then its
/// tie-breaker.
spec fn metric_key(path: MetricPath, terminal_count: usize, seed: u64) -> (u64, u64) {
    (
        path.cost,
        if seed == 0 {
            pair_position(path.left, path.right, terminal_count)
        } else {
            mix_seed(pair_position(path.left, path.right, terminal_count), seed)
        },
    )
}

/// `chosen` is what the greedy pass keeps when it walks every metric path
/// once, in nondecreasing order of (cost, tie-breaker) under `seed`.
spec fn taken_in_key_order(metric: Seq<MetricPath>, terminal_count: usize, seed: u64, chosen: Seq<usize>) -> bool {
    exists|order: Seq<usize>|
        {
            &&& order.len() == metric.len()
            &&& forall|y: usize| #[trigger] order.contains(y) <==> y < metric.len()
            &&& forall|p: int, q: int|
                0 <= p <= q < order.len() ==> key_le(
                    metric_key(metric[#[trigger] order[p] as int], terminal_count, seed),
                    metric_key(metric[#[trigger] order[q] as int], terminal_count, seed),
                )
            &&& chosen == kruskal(metric_graph(metric, terminal_count as nat), order)
        }
}

/// The edges of the metric paths that a minimum spanning tree of the
/// metric closure takes, cheapest first under the seeded tie-breaker.
fn metric_tree_selection(metric: &Vec<MetricPath>, m: usize, terminal_count: usize, seed: u64) -> (r: Vec<bool>)
    requires
        forall|i: int|
            0 <= i < metric@.len() ==> (#[trigger] metric@[i]).left < terminal_count && metric@[i].right
                < terminal_count && forall|j: int| 0 <= j < metric@[i].path@.len() ==> #[trigger] metric@[i].path@[j] < m,
    ensures
        r@.len() == m,
        exists|chosen: Seq<usize>|
            {
                &&& minimum_metric_forest(metric@, terminal_count as nat, chosen)
                &&& taken_in_key_order(metric@, terminal_count, seed, chosen)
                &&& forall|e: int|
                    0 <= e < m ==> (#[trigger] r@[e] <==> exists|y: int|
                        0 <= y < chosen.len() && metric@[chosen[y] as int].path@.contains(e as usize))
            },
{
    let count = metric.len();
    let ghost mg = metric_graph(metric@, terminal_count as nat);
    let mut keys: Vec<(u64, u64)> = Vec::new();
    let mut i: usize = 0;
    while i < count
        invariant
            i <= count == metric@.len(),
            keys@.len() == i,
            forall|j: int| 0 <= j < i ==> #[trigger] keys@[j] == metric_key(metric@[j], terminal_count, seed),
        decreases count - i,
    {
        keys.push((metric[i].cost, metric_tie(metric[i].left, metric[i].right, terminal_count, seed)));
        i += 1;
    }
    let mut order: Vec<usize> = Vec::new();
    let mut i: usize = 0;
    while i < count
        invariant
            i <= count == metric@.len() == keys@.len(),
            order@.len() == i,
            forall|j: int| 0 <= j < order@.len() ==> #[trigger] order@[j] < i,
            forall|y: usize| #[trigger] order@.contains(y) <==> y < i,
            forall|p: int, q: int|
                0 <= p <= q < order@.len() ==> key_le(keys@[#[trigger] order@[p] as int], keys@[#[trigger] order@[q] as int]),
        decreases count - i,
    {
        let mut k: usize = order.len();
        while k > 0 && (keys[order[k - 1]].0 > keys[i].0 || (keys[order[k - 1]].0 == keys[i].0 && keys[order[k
            - 1]].1 > keys[i].1))
            invariant
                k <= order@.len(),
                i < count == keys@.len(),
                forall|j: int| 0 <= j < order@.len() ==> #[trigger] order@[j] < i,
                forall|j: int| k <= j < order@.len() ==> !key_le(keys@[#[trigger] order@[j] as int], keys@[i as int]),
            decreases k,
        {
            k -= 1;
        }
        let ghost before = order@;
        order.insert(k, i);
        proof {
            assert(forall|j: int| 0 <= j < k ==> order@[j] == before[j]);
            assert(forall|j: int| k < j < order@.len() ==> order@[j] == before[j - 1]);
            assert(order@[k as int] == i);
            assert forall|j: int| 0 <= j < order@.len() implies #[trigger] order@[j] < i + 1 by {
                if j < k {
                    assert(order@[j] == before[j]);
                } else if j > k {
                    assert(order@[j] == before[j - 1]);
                }
            }
            assert forall|y: usize| #[trigger] order@.contains(y) <==> y < i + 1 by {
                if order@.contains(y) {
                    let j = choose|j: int| 0 <= j < order@.len() && order@[j] == y;
                    if j < k {
                        assert(before[j] == y);
                        assert(before.contains(y));
                    } else if j > k {
                        assert(before[j - 1] == y);
                        assert(before.contains(y));
                    }
                }
                if y < i {
                    assert(before.contains(y));
                    let j = choose|j: int| 0 <= j < before.len() && before[j] == y;
                    if j < k {
                        assert(order@[j] == y);
                    } else {
                        assert(order@[j + 1] == y);
                    }
                } else if y == i {
                    assert(order@[k as int] == y);
                }
            }
            assert forall|p: int, q: int| 0 <= p <= q < order@.len() implies key_le(
                keys@[#[trigger] order@[p] as int],
                keys@[#[trigger] order@[q] as int],
            ) by {
                if p < k && q < k {
                    assert(order@[p] == before[p] && order@[q] == before[q]);
                } else if p > k && q > k {
                    assert(order@[p] == before[p - 1] && order@[q] == before[q - 1]);
                } else if p < k && q > k {
                    assert(order@[p] == before[p] && order@[q] == before[q - 1]);
                } else if p < k && q == k {
                    assert(order@[p] == before[p]);
                    assert(key_le(keys@[before[p] as int], keys@[before[k - 1] as int]));
                } else if p == k && q > k {
                    assert(order@[q] == before[q - 1]);
                }
            }
        }
        i += 1;
    }
    proof {
        assert forall|j: int| 0 <= j < order@.len() implies #[trigger] order@[j] < mg.edges.len() by {}
        assert(mg.valid());
        assert forall|u: int, v: int| 0 <= u < terminal_count && 0 <= v < terminal_count implies (u == v <==> #[trigger] joined(
            mg,
            Seq::<usize>::empty(),
            u,
            v,
        )) by {
            lemma_joined_none(mg, u, v);
        }
        assert(order@.take(0) =~= Seq::<usize>::empty());
    }
    let mut groups = Groups::new(terminal_count);
    let mut selected: Vec<bool> = Vec::new();
    let mut e: usize = 0;
    while e < m
        invariant
            e <= m,
            selected@.len() == e,
            forall|x: int| 0 <= x < e ==> !#[trigger] selected@[x],
        decreases m - e,
    {
        selected.push(false);
        e += 1;
    }
    let ghost mut chosen: Seq<usize> = Seq::empty();
    let mut i: usize = 0;
    while i < order.len()
        invariant
            i <= order@.len(),
            count == metric@.len(),
            mg == metric_graph(metric@, terminal_count as nat),
            mg.valid(),
            groups.wf(terminal_count as nat),
            selected@.len() == m,
            forall|j: int| 0 <= j < order@.len() ==> #[trigger] order@[j] < count,
            forall|x: int|
                0 <= x < metric@.len() ==> (#[trigger] metric@[x]).left < terminal_count && metric@[x].right
                    < terminal_count && forall|j: int| 0 <= j < metric@[x].path@.len() ==> #[trigger] metric@[x].path@[j]
                    < m,
            chosen == kruskal(mg, order@.take(i as int)),
            forall|u: int, v: int|
                0 <= u < terminal_count && 0 <= v < terminal_count ==> (groups.label@[u] == groups.label@[v]
                    <==> #[trigger] joined(mg, chosen, u, v)),
            forall|x: int|
                0 <= x < m ==> (#[trigger] selected@[x] <==> exists|y: int|
                    0 <= y < chosen.len() && metric@[chosen[y] as int].path@.contains(x as usize)),
        decreases order@.len() - i,
    {
        let index = order[i];
        let entry = &metric[index];
        let ghost label = groups.label@;
        proof {
            assert(order@.take(i + 1).drop_last() =~= order@.take(i as int));
            assert(order@.take(i + 1).last() == index);
            assert(mg.edges[index as int] == (entry.left as int, entry.right as int));
        }
        if groups.union(entry.left, entry.right, Ghost(terminal_count as nat)) {
            proof {
                assert(!joined(mg, chosen, entry.left as int, entry.right as int));
                lemma_union_joined(mg, chosen, index as int, label, groups.label@);
            }
            let ghost before_sel = selected@;
            let ghost old_chosen = chosen;
            proof {
                chosen = chosen.push(index);
                assert(chosen == old_chosen.push((index as int) as usize));
            }
            let mut j: usize = 0;
            while j < entry.path.len()
                invariant
                    j <= entry.path@.len(),
                    selected@.len() == m,
                    before_sel.len() == m,
                    forall|q: int| 0 <= q < entry.path@.len() ==> #[trigger] entry.path@[q] < m,
                    forall|x: int|
                        0 <= x < m ==> (#[trigger] selected@[x] <==> (before_sel[x] || entry.path@.take(j as int).contains(
                            x as usize,
                        ))),
                decreases entry.path@.len() - j,
            {
                selected.set(entry.path[j], true);
                proof {
                    assert forall|x: int| 0 <= x < m implies (#[trigger] selected@[x] <==> (before_sel[x]
                        || entry.path@.take(j + 1).contains(x as usize))) by {
                        if entry.path@.take(j + 1).contains(x as usize) {
                            let q = choose|q: int| 0 <= q < j + 1 && #[trigger] entry.path@.take(j + 1)[q] == x as usize;
                            if q < j {
                                assert(entry.path@.take(j as int)[q] == x as usize);
                            }
                        }
                        if entry.path@.take(j as int).contains(x as usize) {
                            let q = choose|q: int| 0 <= q < j && #[trigger] entry.path@.take(j as int)[q] == x as usize;
                            assert(entry.path@.take(j + 1)[q] == x as usize);
                        }
                        if x == entry.path@[j as int] {
                            assert(entry.path@.take(j + 1)[j as int] == x as usize);
                        }
                    }
                }
                j += 1;
            }
            proof {
                assert(entry.path@.take(entry.path@.len() as int) =~= entry.path@);
                assert forall|x: int| 0 <= x < m implies (#[trigger] selected@[x] <==> exists|y: int|
                    0 <= y < chosen.len() && metric@[chosen[y] as int].path@.contains(x as usize)) by {
                    if selected@[x] {
                        if !before_sel[x] {
                            assert(chosen[old_chosen.len() as int] == index);
                            assert(metric@[chosen[old_chosen.len() as int] as int].path@.contains(x as usize));
                        } else {
                            let y = choose|y: int|
                                0 <= y < old_chosen.len() && metric@[old_chosen[y] as int].path@.contains(x as usize);
                            assert(chosen[y] == old_chosen[y]);
                        }
                    }
                    if exists|y: int| 0 <= y < chosen.len() && metric@[chosen[y] as int].path@.contains(x as usize) {
                        let y = choose|y: int| 0 <= y < chosen.len() && metric@[chosen[y] as int].path@.contains(x as usize);
                        if y < old_chosen.len() {
                            assert(chosen[y] == old_chosen[y]);
                        } else {
                            assert(chosen[y] == index);
                        }
                    }
                }
                assert forall|u: int, v: int| 0 <= u < terminal_count && 0 <= v < terminal_count implies (groups.label@[u]
                    == groups.label@[v] <==> #[trigger] joined(mg, chosen, u, v)) by {
                    assert(joined(mg, old_chosen.push((index as int) as usize), u, v) == joined(mg, chosen, u, v));
                }
            }
        } else {
            proof {
                assert(joined(mg, chosen, entry.left as int, entry.right as int));
            }
        }
        i += 1;
    }
    proof {
        assert(order@.take(order@.len() as int) =~= order@);
        let costs = metric_costs(metric@);
        assert forall|p: int, q: int| 0 <= p <= q < order@.len() implies costs[#[trigger] order@[p] as int]
            <= costs[#[trigger] order@[q] as int] by {
            assert(key_le(keys@[order@[p] as int], keys@[order@[q] as int]));
        }
        assert forall|k: int| 0 <= k < chosen.len() implies !joined(
            mg,
            chosen.take(k),
            metric@[chosen[k] as int].left as int,
            metric@[chosen[k] as int].right as int,
        ) by {
            lemma_kruskal_forest(mg, order@, k);
            assert(chosen.contains(chosen[k]));
            lemma_kruskal_members(mg, order@, chosen[k]);
        }
        assert forall|i: int| 0 <= i < chosen.len() implies #[trigger] chosen[i] < metric@.len() by {
            assert(chosen.contains(chosen[i]));
            lemma_kruskal_members(mg, order@, chosen[i]);
        }
        assert forall|y: int| #![trigger chosen.contains(y as usize)] 0 <= y < metric@.len() implies chosen.contains(y as usize) || exists|s: Seq<usize>|
            {
                &&& forall|i: int| 0 <= i < s.len() ==> chosen.contains(#[trigger] s[i]) && metric@[s[i] as int].cost
                    <= #[trigger] metric@[y].cost
                &&& joined(metric_graph(metric@, terminal_count as nat), s, metric@[y].left as int, metric@[y].right as int)
            } by {
            assert(order@.contains(y as usize));
            let x = choose|x: int| 0 <= x < order@.len() && order@[x] == y as usize;
            greedy_pass_is_minimal(mg, costs, order@, x);
            if !chosen.contains(y as usize) {
                let s = choose|s: Seq<usize>|
                    {
                        &&& forall|i: int| 0 <= i < s.len() ==> kruskal(mg, order@).contains(#[trigger] s[i]) && costs[s[i] as int]
                            <= costs[order@[x] as int]
                        &&& joined(mg, s, mg.edges[order@[x] as int].0, mg.edges[order@[x] as int].1)
                    };
                assert forall|i: int| 0 <= i < s.len() implies chosen.contains(#[trigger] s[i]) && metric@[s[i] as int].cost
                    <= metric@[y].cost by {
                    assert(s[i] < mg.edges.len()) by {
                        lemma_kruskal_members(mg, order@, s[i]);
                    }
                }
                assert(mg.edges[order@[x] as int] == (metric@[y].left as int, metric@[y].right as int));
            }
        }
        assert(minimum_metric_forest(metric@, terminal_count as nat, chosen));
        assert forall|p: int, q: int| 0 <= p <= q < order@.len() implies key_le(
            metric_key(metric@[#[trigger] order@[p] as int], terminal_count, seed),
            metric_key(metric@[#[trigger] order@[q] as int], terminal_count, seed),
        ) by {
            assert(key_le(keys@[order@[p] as int], keys@[order@[q] as int]));
        }
        assert(taken_in_key_order(metric@, terminal_count, seed, chosen));
    }
    selected
}

/// The node positions as node indexes.
fn as_nodes(slots: &Vec<usize>, Ghost(n): Ghost<nat>) -> (r: Vec<NodeIndex>)
    requires
        n <= u32::MAX,
        forall|i: int| 0 <= i < slots@.len() ==> #[trigger] slots@[i] < n,
    ensures
        r@.map_values(|v: NodeIndex| v.0 as usize) == slots@,
{
    let mut out: Vec<NodeIndex> = Vec::new();
    let mut i: usize = 0;
    while i < slots.len()
        invariant
            i <= slots@.len(),
            n <= u32::MAX,
            forall|j: int| 0 <= j < slots@.len() ==> #[trigger] slots@[j] < n,
            out@.map_values(|v: NodeIndex| v.0 as usize) == slots@.take(i as int),
        decreases slots@.len() - i,
    {
        let ghost before = out@;
        out.push(NodeIndex(slots[i] as u32));
        proof {
            assert(before.map_values(|v: NodeIndex| v.0 as usize).len() == i);
            assert(out@.map_values(|v: NodeIndex| v.0 as usize) =~= slots@.take(i + 1));
        }
        i += 1;
    }
    proof {
        assert(slots@.take(slots@.len() as int) =~= slots@);
    }
    out
}

/// The edge positions as edge indexes.
fn as_edges(slots: &Vec<usize>, Ghost(m): Ghost<nat>) -> (r: Vec<EdgeIndex>)
    requires
        m <= u32::MAX,
        forall|i: int| 0 <= i < slots@.len() ==> #[trigger] slots@[i] < m,
    ensures
        r@ == slots@.map_values(|x: usize| EdgeIndex(x as u32)),
{
    let mut out: Vec<EdgeIndex> = Vec::new();
    let mut i: usize = 0;
    while i < slots.len()
        invariant
            i <= slots@.len(),
            out@ == slots@.take(i as int).map_values(|x: usize| EdgeIndex(x as u32)),
        decreases slots@.len() - i,
    {
        out.push(EdgeIndex(slots[i] as u32));
        proof {
            assert(out@ =~= slots@.take(i + 1).map_values(|x: usize| EdgeIndex(x as u32)));
        }
        i += 1;
    }
    proof {
        assert(slots@.take(slots@.len() as int) =~= slots@);
    }
    out
}

/// A deterministic metric-closure Steiner-tree approximation. Terminals are
/// taken in increasing order, once each; prices are asked once per edge
/// from `edge_cost`. The first candidate expands every shortest path
/// between terminals; thirty-two more expand the paths of a spanning tree
/// of the metric closure, ties broken by a seeded hash; the cheapest
/// candidate, the earliest on a tie, is returned.
///
/// `Ok(None)` comes only when a terminal is not a node, when two terminals
/// lie in different components, or when the node count times the dearest
/// edge reaches `u64::MAX`, where the search cannot tell a path of that
/// price from none. Fewer than two distinct terminals give a tree with no
/// edges; any tree returned connects all terminals, and where twice the edge
/// count fits `usize`, no node but a terminal is an end of exactly one of
/// its edges.
///
/// # Errors
///
/// Returns an overflow error when a path or tree cost leaves `u64`.
pub fn steiner_tree_approximation<F: Fn(EdgeIndex) -> u64>(
    graph: &UndirectedTopology,
    terminals: &[NodeIndex],
    edge_cost: F,
) -> (r: Result<Option<SteinerTree>>)
    requires
        forall|e: EdgeIndex| call_requires(edge_cost, (e,)),
    ensures
        (exists|i: int| 0 <= i < terminals@.len() && terminals@[i].0 >= graph@.node_count) ==> r == Ok::<
            Option<SteinerTree>,
            GraphError,
        >(None),
        match r {
            Ok(Some(tree)) => {
                &&& ordered_distinct(tree@.terminals.map_values(|v: NodeIndex| v.0 as usize), terminals@)
                &&& increasing(tree@.edges.map_values(|e: EdgeIndex| e.0 as usize))
                &&& forall|i: int| 0 <= i < tree@.edges.len() ==> (#[trigger] tree@.edges[i]).0 < graph@.edges.len()
                &&& tree@.terminals.len() >= 2 ==> exists|costs: Seq<u64>|
                    priced(edge_cost, graph@.edges.len(), costs) && tree@.total_cost == price_of(costs, tree@.edges)
                &&& tree@.terminals.len() < 2 ==> tree@.edges.len() == 0 && tree@.total_cost == 0
            },
            Ok(None) => {
                ||| exists|i: int| 0 <= i < terminals@.len() && #[trigger] terminals@[i].0 >= graph@.node_count
                ||| exists|i: int, j: int|
                    0 <= i < terminals@.len() && 0 <= j < terminals@.len() && !connected(
                        graph@,
                        #[trigger] terminals@[i].0 as int,
                        #[trigger] terminals@[j].0 as int,
                    )
                ||| exists|costs: Seq<u64>| priced(edge_cost, graph@.edges.len(), costs) && #[trigger] costly(graph@, costs)
            },
            Err(e) => {
                &&& e matches GraphError::ArithmeticOverflow { .. }
                &&& exists|costs: Seq<u64>| priced(edge_cost, graph@.edges.len(), costs) && #[trigger] costly(graph@, costs)
            },
        },
        (forall|i: int| 0 <= i < terminals@.len() ==> (#[trigger] terminals@[i]).0 < graph@.node_count) && (forall|
            i: int,
            j: int,
        |
            0 <= i < terminals@.len() && 0 <= j < terminals@.len() ==> connected(
                graph@,
                #[trigger] terminals@[i].0 as int,
                #[trigger] terminals@[j].0 as int,
            )) && (forall|costs: Seq<u64>| priced(edge_cost, graph@.edges.len(), costs) ==> !#[trigger] costly(graph@, costs))
            ==> r matches Ok(Some(_)),
        r matches Ok(Some(tree)) ==> tree@.edges.len() == 0 || tree@.edges.len() + 1 == touched_count(
            graph@,
            slots_of(tree@.edges),
            graph@.node_count as int,
        ),
        (forall|i: int| 0 <= i < terminals@.len() ==> (#[trigger] terminals@[i]).0 < graph@.node_count) && (forall|
            i: int,
            j: int,
        | 0 <= i < terminals@.len() && 0 <= j < terminals@.len() ==> #[trigger] terminals@[i] == #[trigger] terminals@[j])
            ==> (r matches Ok(Some(tree)) && tree@.edges.len() == 0 && tree@.total_cost == 0),
        r matches Ok(Some(tree)) ==> 2 * graph@.edges.len() <= usize::MAX ==> forall|v: int|
            0 <= v < graph@.node_count && (forall|i: int| 0 <= i < terminals@.len() ==> (#[trigger] terminals@[i]).0 != v)
                ==> #[trigger] degree_in(graph@, slots_of(tree@.edges), v) != 1,
        r matches Ok(Some(tree)) ==> forall|i: int, j: int|
            0 <= i < terminals@.len() && 0 <= j < terminals@.len() ==> joined(
                graph@,
                slots_of(tree@.edges),
                #[trigger] terminals@[i].0 as int,
                #[trigger] terminals@[j].0 as int,
            ),
{
    let n = graph.node_count();
    let m = graph.edge_count();
    let slots = ordered_positions(terminals);
    let mut i: usize = 0;
    while i < slots.len()
        invariant
            i <= slots@.len(),
            n == graph@.node_count,
            ordered_distinct(slots@, terminals@),
            forall|j: int| 0 <= j < i ==> #[trigger] slots@[j] < n,
        decreases slots@.len() - i,
    {
        if slots[i] >= n {
            proof {
                assert(slots@.contains(slots@[i as int]));
            }
            return Ok(None);
        }
        i += 1;
    }
    proof {
        assert forall|i: int| 0 <= i < terminals@.len() implies (#[trigger] terminals@[i]).0 < graph@.node_count by {
            assert(slots@.contains(terminals@[i].0 as usize));
            let k = choose|k: int| 0 <= k < slots@.len() && slots@[k] == terminals@[i].0 as usize;
            assert(slots@[k] < n);
        }
    }
    let nodes = as_nodes(&slots, Ghost(n as nat));
    let t = slots.len();
    if t < 2 {
        let tree = SteinerTree { terminals: nodes, edges: Vec::new(), total_cost: 0 };
        proof {
            assert(tree@.edges =~= Seq::<EdgeIndex>::empty());
            assert(tree@.edges.map_values(|e: EdgeIndex| e.0 as usize) =~= Seq::<usize>::empty());
        }
        proof {
            assert forall|i: int, j: int| 0 <= i < terminals@.len() && 0 <= j < terminals@.len() implies joined(
                graph@,
                slots_of(tree@.edges),
                #[trigger] terminals@[i].0 as int,
                #[trigger] terminals@[j].0 as int,
            ) by {
                assert(slots@.contains(terminals@[i].0 as usize));
                assert(slots@.contains(terminals@[j].0 as usize));
                let a = choose|a: int| 0 <= a < slots@.len() && slots@[a] == terminals@[i].0 as usize;
                let b = choose|b: int| 0 <= b < slots@.len() && slots@[b] == terminals@[j].0 as usize;
                assert(a == b);
                lemma_reach_self(
                    graph@,
                    kept_mask(graph@.edges.len(), slots_of(tree@.edges)),
                    Direction::Both,
                    terminals@[i].0 as int,
                );
            }
        }
        return Ok(Some(tree));
    }
    proof {
        assert(slots@.contains(slots@[0]) && slots@.contains(slots@[1]));
        let i = choose|i: int| 0 <= i < terminals@.len() && terminals@[i].0 as usize == slots@[0];
        let j = choose|j: int| 0 <= j < terminals@.len() && terminals@[j].0 as usize == slots@[1];
        assert(terminals@[i] != terminals@[j]);
    }
    let ghost apart = exists|i: int, j: int|
        0 <= i < terminals@.len() && 0 <= j < terminals@.len() && #[trigger] terminals@[i] != #[trigger] terminals@[j];
    assert(apart);
    let costs = price_table(graph, &edge_cost);
    let mut metric: Vec<MetricPath> = Vec::new();
    let mut left: usize = 0;
    while left < t
        invariant
            priced(edge_cost, graph@.edges.len(), costs@),
            ordered_distinct(slots@, terminals@),
            forall|q: int| 0 <= q < terminals@.len() ==> (#[trigger] terminals@[q]).0 < graph@.node_count,
            t == slots@.len(),
            n == graph@.node_count,
            m == graph@.edges.len() == costs@.len(),
            forall|j: int| 0 <= j < t ==> #[trigger] slots@[j] < n,
            forall|x: int|
                0 <= x < metric@.len() ==> (#[trigger] metric@[x]).left < t && metric@[x].right < t && forall|j: int|
                    0 <= j < metric@[x].path@.len() ==> #[trigger] metric@[x].path@[j] < m,
            graph@.valid(),
            apart,
            apart == exists|i: int, j: int|
                0 <= i < terminals@.len() && 0 <= j < terminals@.len() && #[trigger] terminals@[i] != #[trigger] terminals@[j],
            forall|a: int, b: int|
                0 <= a < left && a < b < t ==> connected(graph@, #[trigger] slots@[a] as int, #[trigger] slots@[b] as int),
        decreases t - left,
    {
        let (dist, pred, Ghost(order)) = match shortest_paths(graph, &costs, slots[left]) {
            Ok(found) => found,
            Err(e) => {
                proof {
                    lemma_costly(graph@, costs@, graph@.node_count as int);
                }
                return Err(e);
            },
        };
        let mut right = left + 1;
        while right < t
            invariant
                priced(edge_cost, graph@.edges.len(), costs@),
                ordered_distinct(slots@, terminals@),
                left < t,
                dist@[slots@[left as int] as int] == 0,
                forall|v: int| 0 <= v < n && v != slots@[left as int] && #[trigger] dist@[v] != u64::MAX ==> pred@[v] is Some,
                forall|w: int| 0 <= w < n && #[trigger] pred@[w] is Some ==> dist@[(pred@[w]->0).0 as int] != u64::MAX,
                forall|u: int, e: int|
                    0 <= u < n && dist@[u] != u64::MAX && 0 <= e < m ==> #[trigger] spanned(graph@, costs@, dist@, u, e),
                forall|u: int| 0 <= u < n && #[trigger] dist@[u] != u64::MAX ==> dist@[u] + peak(costs@) <= n * peak(costs@),
                forall|q: int| 0 <= q < terminals@.len() ==> (#[trigger] terminals@[q]).0 < graph@.node_count,
                left < right <= t,
                t == slots@.len(),
                n == graph@.node_count,
                m == graph@.edges.len() == costs@.len(),
                forall|j: int| 0 <= j < t ==> #[trigger] slots@[j] < n,
                dist@.len() == n,
                tree_links(pred@, order, n as int, m as int),
                forall|x: int|
                    0 <= x < metric@.len() ==> (#[trigger] metric@[x]).left < t && metric@[x].right < t && forall|j: int|
                        0 <= j < metric@[x].path@.len() ==> #[trigger] metric@[x].path@[j] < m,
                graph@.valid(),
                apart,
                apart == exists|i: int, j: int|
                    0 <= i < terminals@.len() && 0 <= j < terminals@.len() && #[trigger] terminals@[i] != #[trigger] terminals@[j],
                links_joined(graph@, pred@),
                forall|a: int, b: int|
                    0 <= a < left && a < b < t ==> connected(graph@, #[trigger] slots@[a] as int, #[trigger] slots@[b] as int),
                forall|b: int| left < b < right ==> connected(graph@, slots@[left as int] as int, #[trigger] slots@[b] as int),
            decreases t - right,
        {
            let target = slots[right];
            let cost = dist[target];
            if cost == u64::MAX {
                proof {
                    let a = slots@[left as int] as int;
                    let b = target as int;
                    assert(slots@.contains(slots@[left as int]));
                    assert(slots@.contains(target));
                    let i = choose|i: int| 0 <= i < terminals@.len() && terminals@[i].0 as usize == slots@[left as int];
                    let j = choose|j: int| 0 <= j < terminals@.len() && terminals@[j].0 as usize == target;
                    if graph@.node_count * peak(costs@) < u64::MAX {
                        if connected(graph@, a, b) {
                            lemma_spanned_reaches(graph@, costs@, dist@, a, b);
                        }
                        assert(!connected(graph@, terminals@[i].0 as int, terminals@[j].0 as int));
                    } else {
                        assert(priced(edge_cost, graph@.edges.len(), costs@));
                        lemma_costly(graph@, costs@, graph@.node_count as int);
                    }
                }
                return Ok(None);
            }
            let path = match tree_path(&pred, Ghost(order), slots[left], target, Ghost(m as int)) {
                Some(p) => p,
                None => {
                    proof {
                        lemma_climb_reached(pred@, order, m as int, dist@, slots@[left as int] as int, target as int);
                    }
                    return Ok(None);
                },
            };
            proof {
                lemma_climb_connected(graph@, pred@, order, m as int, slots@[left as int] as int, target as int);
            }
            metric.push(MetricPath { cost, left, right, path });
            right += 1;
        }
        left += 1;
    }
    proof {
        assert forall|i: int, j: int| 0 <= i < terminals@.len() && 0 <= j < terminals@.len() implies connected(
            graph@,
            #[trigger] terminals@[i].0 as int,
            #[trigger] terminals@[j].0 as int,
        ) by {
            assert(slots@.contains(terminals@[i].0 as usize));
            assert(slots@.contains(terminals@[j].0 as usize));
            let a = choose|a: int| 0 <= a < slots@.len() && slots@[a] == terminals@[i].0 as usize;
            let b = choose|b: int| 0 <= b < slots@.len() && slots@[b] == terminals@[j].0 as usize;
            if a == b {
                lemma_reach_self(graph@, all_edges(graph@), Direction::Both, terminals@[i].0 as int);
            } else if a < b {
                assert(connected(graph@, slots@[a] as int, slots@[b] as int));
            } else {
                assert(connected(graph@, slots@[b] as int, slots@[a] as int));
                lemma_connected_symmetric(graph@, slots@[b] as int, slots@[a] as int);
            }
        }
    }
    let mut expanded: Vec<bool> = Vec::new();
    let mut e: usize = 0;
    while e < m
        invariant
            e <= m,
            expanded@.len() == e,
        decreases m - e,
    {
        expanded.push(false);
        e += 1;
    }
    let mut x: usize = 0;
    while x < metric.len()
        invariant
            x <= metric@.len(),
            expanded@.len() == m,
            forall|y: int|
                0 <= y < metric@.len() ==> forall|j: int|
                    0 <= j < (#[trigger] metric@[y]).path@.len() ==> #[trigger] metric@[y].path@[j] < m,
        decreases metric@.len() - x,
    {
        let path = &metric[x].path;
        let mut j: usize = 0;
        while j < path.len()
            invariant
                j <= path@.len(),
                expanded@.len() == m,
                forall|q: int| 0 <= q < path@.len() ==> #[trigger] path@[q] < m,
            decreases path@.len() - j,
        {
            expanded.set(path[j], true);
            j += 1;
        }
        x += 1;
    }
    let mut terminal: Vec<bool> = Vec::new();
    let mut v: usize = 0;
    while v < n
        invariant
            v <= n,
            terminal@.len() == v,
            forall|w: int| 0 <= w < v ==> !#[trigger] terminal@[w],
        decreases n - v,
    {
        terminal.push(false);
        v += 1;
    }
    let mut k: usize = 0;
    while k < t
        invariant
            k <= t == slots@.len(),
            terminal@.len() == n,
            forall|j: int| 0 <= j < t ==> #[trigger] slots@[j] < n,
            forall|v: int| 0 <= v < n ==> (#[trigger] terminal@[v] <==> exists|j: int| 0 <= j < k && slots@[j] == v),
        decreases t - k,
    {
        terminal.set(slots[k], true);
        proof {
            assert forall|v: int| 0 <= v < n implies (#[trigger] terminal@[v] <==> exists|j: int|
                0 <= j < k + 1 && slots@[j] == v) by {
                if v == slots@[k as int] {
                    assert(slots@[k as int] == v);
                }
            }
        }
        k += 1;
    }
    let mut edges = candidate_tree(graph, &terminal, &expanded, &costs);
    let mut total = match tree_cost(&edges, &costs) {
        Ok(c) => c,
        Err(e) => {
            proof {
                lemma_increasing_bounded(edges@, m as int);
                lemma_costly(graph@, costs@, edges@.len() as int);
            }
            return Err(e);
        },
    };
    proof {
        assert forall|b: int| 0 <= b < t implies connected(graph@, slots@[0] as int, #[trigger] slots@[b] as int) by {
            if b == 0 {
                lemma_reach_self(graph@, all_edges(graph@), Direction::Both, slots@[0] as int);
            } else {
                assert(connected(graph@, slots@[0] as int, slots@[b] as int));
            }
        }
    }
    let mut seed: u64 = 0;
    while seed < 32
        invariant
            priced(edge_cost, graph@.edges.len(), costs@),
            t >= 2,
            forall|b: int| 0 <= b < t ==> connected(graph@, slots@[0] as int, #[trigger] slots@[b] as int),
            forall|q: int| 0 <= q < terminals@.len() ==> (#[trigger] terminals@[q]).0 < graph@.node_count,
            n == graph@.node_count,
            m == graph@.edges.len() == costs@.len() <= u32::MAX,
            terminal@.len() == n,
            expanded@.len() == m,
            ordered_distinct(slots@, terminals@),
            t == slots@.len(),
            forall|v: int| 0 <= v < n ==> (#[trigger] terminal@[v] <==> exists|j: int| 0 <= j < t && slots@[j] == v),
            2 * graph@.edges.len() <= usize::MAX ==> forall|v: int|
                0 <= v < graph@.node_count && !terminal@[v] ==> #[trigger] degree_in(graph@, edges@, v) != 1,
            increasing(edges@),
            forall|j: int| 0 <= j < edges@.len() ==> #[trigger] edges@[j] < m,
            total == price_of(costs@, edges@.map_values(|x: usize| EdgeIndex(x as u32))),
            forall|x: int|
                0 <= x < metric@.len() ==> (#[trigger] metric@[x]).left < t && metric@[x].right < t && forall|j: int|
                    0 <= j < metric@[x].path@.len() ==> #[trigger] metric@[x].path@[j] < m,
            apart,
            apart == exists|i: int, j: int|
                0 <= i < terminals@.len() && 0 <= j < terminals@.len() && #[trigger] terminals@[i] != #[trigger] terminals@[j],
        decreases 32 - seed,
    {
        let selected = metric_tree_selection(&metric, m, t, seed);
        let candidate = candidate_tree(graph, &terminal, &selected, &costs);
        let cost = match tree_cost(&candidate, &costs) {
            Ok(c) => c,
            Err(e) => {
                proof {
                    lemma_increasing_bounded(candidate@, m as int);
                    lemma_costly(graph@, costs@, candidate@.len() as int);
                }
                return Err(e);
            },
        };
        if cost < total {
            edges = candidate;
            total = cost;
        }
        seed += 1;
    }
    let good = spans_terminals(graph, &edges, &slots);
    if !good {
        let p = peak_price(&costs);
        let heavy = match (n as u64).checked_mul(p) {
            Some(x) => x == u64::MAX,
            None => true,
        };
        if heavy {
            proof {
                lemma_costly(graph@, costs@, n as int);
            }
            return Ok(None);
        }
        edges = root_paths(graph, &costs, &slots);
        total = match tree_cost(&edges, &costs) {
            Ok(c) => c,
            Err(e) => {
                proof {
                    lemma_increasing_bounded(edges@, m as int);
                    lemma_costly(graph@, costs@, edges@.len() as int);
                }
                return Err(e);
            },
        };
        proof {
            assert forall|v: int| 0 <= v < graph@.node_count && !terminal@[v] implies #[trigger] degree_in(
                graph@,
                edges@,
                v,
            ) != 1 by {
                assert forall|i: int| 0 <= i < slots@.len() implies #[trigger] slots@[i] != v by {
                    if slots@[i] == v {
                        assert(exists|j: int| 0 <= j < t && slots@[j] == v);
                    }
                }
            }
        }
    }
    let edge_list = as_edges(&edges, Ghost(m as nat));
    let tree = SteinerTree { terminals: nodes, edges: edge_list, total_cost: total };
    proof {
        if 2 * graph@.edges.len() <= usize::MAX {
            assert(tree@.edges.map_values(|e: EdgeIndex| e.0 as usize) =~= edges@) by {
                assert forall|j: int| 0 <= j < edges@.len() implies (edges@[j] as u32) as usize == edges@[j] by {
                    assert(edges@[j] < m);
                }
            }
            assert forall|v: int|
                0 <= v < graph@.node_count && (forall|i: int| 0 <= i < terminals@.len() ==> (#[trigger] terminals@[i]).0 != v)
                    implies #[trigger] degree_in(graph@, slots_of(tree@.edges), v) != 1 by {
                if terminal@[v] {
                    let j = choose|j: int| 0 <= j < t && slots@[j] == v;
                    assert(slots@.contains(slots@[j]));
                    let i = choose|i: int| 0 <= i < terminals@.len() && terminals@[i].0 as usize == slots@[j];
                    assert(terminals@[i].0 != v);
                }
            }
        }
    }
    proof {
        assert(tree@.edges.map_values(|e: EdgeIndex| e.0 as usize) =~= edges@) by {
            assert forall|j: int| 0 <= j < edges@.len() implies (edges@[j] as u32) as usize == edges@[j] by {
                assert(edges@[j] < m);
            }
        }
        assert(slots_of(tree@.edges) == edges@);
        let ints = slots@.map_values(|x: usize| x as int);
        assert(spans_as_tree(graph@, edges@, ints));
        assert forall|i: int, j: int| 0 <= i < terminals@.len() && 0 <= j < terminals@.len() implies joined(
            graph@,
            slots_of(tree@.edges),
            #[trigger] terminals@[i].0 as int,
            #[trigger] terminals@[j].0 as int,
        ) by {
            assert(slots@.contains(terminals@[i].0 as usize));
            assert(slots@.contains(terminals@[j].0 as usize));
            let a = choose|a: int| 0 <= a < slots@.len() && slots@[a] == terminals@[i].0 as usize;
            let b = choose|b: int| 0 <= b < slots@.len() && slots@[b] == terminals@[j].0 as usize;
            assert(ints[a] == terminals@[i].0 as int);
            assert(ints[b] == terminals@[j].0 as int);
            assert(joined(graph@, edges@, ints[a], ints[b]));
        }
    }
    Ok(Some(tree))
}

} // verus!
