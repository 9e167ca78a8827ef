//! Properties that relate several operations of the library.
use crate::graph::builder::node_addition;
use crate::graph::canonical::{canonical_of, ids_ascending, position};
use crate::graph::order::{
    ascending_edges, lemma_edge_order_sound, lemma_edge_order_trans, lemma_text_order_sound,
    lemma_text_order_trans,
};
use crate::graph::store::{assembles, Graph};
use crate::algo::reach::Direction;
use crate::algo::shortest::{shortest_route, WeightedPath};
use crate::matrix::bit::BitModel;
use crate::model::{EdgeView, NodeView};
use crate::payload::stable::StableModel;
use crate::payload::StableNodeKey;
use vstd::prelude::*;

verus! {

proof fn lemma_ascending_edges_unique(a: Seq<EdgeView>, b: Seq<EdgeView>)
    requires
        ascending_edges(a),
        ascending_edges(b),
        a.to_set() == b.to_set(),
    ensures
        a == b,
    decreases a.len(),
{
    if a.len() == 0 {
        if b.len() > 0 {
            assert(b.to_set().contains(b[0]));
        }
        assert(a =~= b);
    } else {
        assert(a.to_set().contains(a[0]));
        assert(b.contains(a[0]));
        let j = choose|j: int| 0 <= j < b.len() && #[trigger] b[j] == a[0];
        assert(b.to_set().contains(b[0]));
        assert(a.contains(b[0]));
        let i = choose|i: int| 0 <= i < a.len() && #[trigger] a[i] == b[0];
        lemma_edge_order_sound(a[0], a[0]);
        if i > 0 && j > 0 {
            assert(crate::graph::order::edge_order(a[0], a[i]) < 0);
            assert(crate::graph::order::edge_order(b[0], b[j]) < 0);
            lemma_edge_order_trans(a[0], a[i], b[j]);
        }
        assert(a[0] == b[0]);
        let a1 = a.drop_first();
        let b1 = b.drop_first();
        assert forall|x: EdgeView| a1.contains(x) <==> b1.contains(x) by {
            if a1.contains(x) {
                let k = choose|k: int| 0 <= k < a1.len() && #[trigger] a1[k] == x;
                assert(a[k + 1] == x);
                assert(a.to_set().contains(x));
                let m = choose|m: int| 0 <= m < b.len() && #[trigger] b[m] == x;
                lemma_edge_order_sound(a[0], a[k + 1]);
                if m == 0 {
                    assert(a[0] == x);
                } else {
                    assert(b1[m - 1] == x);
                }
            }
            if b1.contains(x) {
                let k = choose|k: int| 0 <= k < b1.len() && #[trigger] b1[k] == x;
                assert(b[k + 1] == x);
                assert(b.to_set().contains(x));
                let m = choose|m: int| 0 <= m < a.len() && #[trigger] a[m] == x;
                lemma_edge_order_sound(b[0], b[k + 1]);
                if m == 0 {
                    assert(b[0] == x);
                } else {
                    assert(a1[m - 1] == x);
                }
            }
        }
        assert(a1.to_set() =~= b1.to_set());
        lemma_ascending_edges_unique(a1, b1);
        assert(a =~= seq![a[0]] + a1);
        assert(b =~= seq![b[0]] + b1);
    }
}

proof fn lemma_ascending_ids_unique(a: Seq<NodeView>, b: Seq<NodeView>)
    requires
        ids_ascending(a),
        ids_ascending(b),
        a.to_set() == b.to_set(),
    ensures
        a == b,
    decreases a.len(),
{
    if a.len() == 0 {
        if b.len() > 0 {
            assert(b.to_set().contains(b[0]));
        }
        assert(a =~= b);
    } else {
        assert(a.to_set().contains(a[0]));
        assert(b.contains(a[0]));
        let j = choose|j: int| 0 <= j < b.len() && #[trigger] b[j] == a[0];
        assert(b.to_set().contains(b[0]));
        assert(a.contains(b[0]));
        let i = choose|i: int| 0 <= i < a.len() && #[trigger] a[i] == b[0];
        lemma_text_order_sound(a[0].id, a[0].id);
        if i > 0 && j > 0 {
            assert(crate::graph::order::text_order(a[0].id, a[i].id) < 0);
            assert(crate::graph::order::text_order(b[0].id, b[j].id) < 0);
            lemma_text_order_trans(a[0].id, a[i].id, b[j].id);
        }
        assert(a[0] == b[0]);
        let a1 = a.drop_first();
        let b1 = b.drop_first();
        assert forall|x: NodeView| a1.contains(x) <==> b1.contains(x) by {
            if a1.contains(x) {
                let k = choose|k: int| 0 <= k < a1.len() && #[trigger] a1[k] == x;
                assert(a[k + 1] == x);
                assert(a.to_set().contains(x));
                let m = choose|m: int| 0 <= m < b.len() && #[trigger] b[m] == x;
                lemma_text_order_sound(a[0].id, a[k + 1].id);
                if m == 0 {
                    assert(a[0] == x);
                } else {
                    assert(b1[m - 1] == x);
                }
            }
            if b1.contains(x) {
                let k = choose|k: int| 0 <= k < b1.len() && #[trigger] b1[k] == x;
                assert(b[k + 1] == x);
                assert(b.to_set().contains(x));
                let m = choose|m: int| 0 <= m < a.len() && #[trigger] a[m] == x;
                lemma_text_order_sound(b[0].id, b[k + 1].id);
                if m == 0 {
                    assert(b[0] == x);
                } else {
                    assert(a1[m - 1] == x);
                }
            }
        }
        assert(a1.to_set() =~= b1.to_set());
        lemma_ascending_ids_unique(a1, b1);
        assert(a =~= seq![a[0]] + a1);
        assert(b =~= seq![b[0]] + b1);
    }
}

/// Node and edge order do not depend on insertion order: graphs assembled
/// from the same nodes and the same edges, in any order and with any
/// repeats, are the same graph. This covers `Graph::try_from_parts`,
/// `Graph::try_from_sorted_parts` and `GraphBuilder::build`, whose results
/// `assembles` describes.
pub proof fn insertion_order_is_irrelevant(
    nodes1: Seq<NodeView>,
    edges1: Seq<EdgeView>,
    g1: Graph,
    nodes2: Seq<NodeView>,
    edges2: Seq<EdgeView>,
    g2: Graph,
)
    requires
        assembles(nodes1, edges1, Ok(g1)),
        assembles(nodes2, edges2, Ok(g2)),
        nodes1.to_set() == nodes2.to_set(),
        edges1.to_set() == edges2.to_set(),
    ensures
        g1@ == g2@,
{
    lemma_ascending_ids_unique(g1@.nodes, g2@.nodes);
    lemma_ascending_edges_unique(g1@.edges, g2@.edges);
}

/// The canonical order is unique: two edge lists in canonical order that
/// hold the same edges are equal.
pub proof fn canonical_order_is_unique(input: Seq<EdgeView>, first: Seq<EdgeView>, second: Seq<EdgeView>)
    requires
        canonical_of(input, first),
        canonical_of(input, second),
    ensures
        first == second,
{
    lemma_ascending_edges_unique(first, second);
}

/// Adding the same node twice changes nothing the second time and succeeds.
pub proof fn adding_a_node_again_is_idempotent(
    table: Seq<NodeView>,
    node: NodeView,
    once: Seq<NodeView>,
    twice: Seq<NodeView>,
    r: crate::error::Result<()>,
)
    requires
        ids_ascending(table),
        node_addition(table, node, once, Ok(())),
        node_addition(once, node, twice, r),
    ensures
        twice == once,
        r is Ok,
{
    if !crate::graph::canonical::has_id(table, node.id) {
        assert(once.to_set().contains(node));
        let k = choose|k: int| 0 <= k < once.len() && #[trigger] once[k] == node;
        assert(once[k].id == node.id);
        crate::graph::canonical::lemma_position(once, k);
    } else {
        let p = position(table, node.id);
        crate::graph::canonical::lemma_position(table, p);
    }
}

/// What a read of a bit matrix gives back after a write: a set cell reads
/// as present and no other cell changes.
pub proof fn bit_matrix_reads_back_an_insert(before: BitModel, after: BitModel, s: int, t: int, s2: int, t2: int)
    requires
        before.cells.len() == before.size * before.size,
        0 <= s < before.size,
        0 <= t < before.size,
        after.size == before.size,
        after.cells == before.cells.update(s * before.size + t, true),
    ensures
        after.has(s2, t2) == (before.has(s2, t2) || (s2 == s && t2 == t)),
{
    lemma_cell_distinct(before.size as int, s, t, s2, t2);
}

/// After a removal the cell reads as absent and no other cell changes.
pub proof fn bit_matrix_reads_back_a_removal(before: BitModel, after: BitModel, s: int, t: int, s2: int, t2: int)
    requires
        before.cells.len() == before.size * before.size,
        0 <= s < before.size,
        0 <= t < before.size,
        after.size == before.size,
        after.cells == before.cells.update(s * before.size + t, false),
    ensures
        after.has(s2, t2) == (before.has(s2, t2) && !(s2 == s && t2 == t)),
{
    lemma_cell_distinct(before.size as int, s, t, s2, t2);
}

proof fn lemma_cell_distinct(n: int, s: int, t: int, s2: int, t2: int)
    requires
        0 <= s < n,
        0 <= t < n,
    ensures
        0 <= s * n + t < n * n,
        0 <= s2 < n && 0 <= t2 < n ==> (0 <= s2 * n + t2 < n * n && (s2 * n + t2 == s * n + t <==> (s2 == s
            && t2 == t))),
{
    assert(0 <= s * n + t < n * n) by (nonlinear_arith)
        requires
            0 <= s < n,
            0 <= t < n,
    ;
    if 0 <= s2 < n && 0 <= t2 < n {
        assert(0 <= s2 * n + t2 < n * n) by (nonlinear_arith)
            requires
                0 <= s2 < n,
                0 <= t2 < n,
        ;
        assert(s2 * n + t2 == s * n + t ==> s2 == s && t2 == t) by (nonlinear_arith)
            requires
                0 <= s < n,
                0 <= t < n,
                0 <= s2 < n,
                0 <= t2 < n,
        ;
    }
}

proof fn lemma_drop_edges_keeps_nodes<N, E>(m: StableModel<N, E>, xs: Seq<u32>)
    requires
        m.wf(),
        xs.no_duplicates(),
        forall|i: int| 0 <= i < xs.len() ==> m.edge_live(#[trigger] xs[i] as int),
    ensures
        m.drop_edges(xs).wf(),
        m.drop_edges(xs).nodes.len() == m.nodes.len(),
        m.drop_edges(xs).edges.len() == m.edges.len(),
        forall|v: int| 0 <= v < m.nodes.len() ==> (#[trigger] m.drop_edges(xs).nodes[v]).value == m.nodes[v].value
            && m.drop_edges(xs).nodes[v].generation == m.nodes[v].generation,
        forall|y: int| 0 <= y < m.edges.len() && !xs.contains(y as u32) ==> #[trigger] m.drop_edges(xs).edges[y] == m.edges[y],
        m.drop_edges(xs).free_nodes == m.free_nodes,
    decreases xs.len(),
{
    if xs.len() > 0 {
        let rest = xs.drop_last();
        let x = xs.last();
        assert forall|i: int| 0 <= i < rest.len() implies m.edge_live(#[trigger] rest[i] as int) by {
            assert(rest[i] == xs[i]);
        }
        assert(rest.no_duplicates()) by {
            assert forall|i: int, j: int| 0 <= i < rest.len() && 0 <= j < rest.len() && i != j implies rest[i] != rest[j] by {
                assert(rest[i] == xs[i] && rest[j] == xs[j]);
            }
        }
        lemma_drop_edges_keeps_nodes(m, rest);
        let mid = m.drop_edges(rest);
        assert(m.edge_live(x as int));
        assert(!rest.contains(x)) by {
            if rest.contains(x) {
                let i = choose|i: int| 0 <= i < rest.len() && #[trigger] rest[i] == x;
                assert(xs[i] == xs[xs.len() - 1]);
            }
        }
        assert(mid.edges[x as int] == m.edges[x as int]);
        crate::payload::stable::lemma_drop_edge_wf(mid, x as int);
        assert forall|y: int| 0 <= y < m.edges.len() && !xs.contains(y as u32) implies #[trigger] m.drop_edges(
            xs,
        ).edges[y] == m.edges[y] by {
            if rest.contains(y as u32) {
                let i = choose|i: int| 0 <= i < rest.len() && #[trigger] rest[i] == y as u32;
                assert(xs[i] == y as u32);
            }
            assert(y != x as int);
        }
    }
}

/// A removed node's key never names a node again: not right after the
/// removal, and not after the next addition, which hands out a different
/// key.
pub proof fn removed_node_key_stays_stale<N, E>(
    m: StableModel<N, E>,
    key: StableNodeKey,
    xs: Seq<u32>,
    removed: StableModel<N, E>,
    payload: N,
    added: StableModel<N, E>,
    r: crate::error::Result<StableNodeKey>,
)
    requires
        m.wf(),
        m.has_node(key),
        forall|i: int, j: int| 0 <= i < j < xs.len() ==> xs[i] < xs[j],
        forall|y: u32|
            #[trigger] xs.contains(y) <==> (m.nodes[key.slot as int].outgoing.contains(y)
                || m.nodes[key.slot as int].incoming.contains(y)),
        removed == m.drop_edges(xs).drop_node(key.slot as int),
        removed.add_node_result(payload, added, r),
    ensures
        !removed.has_node(key),
        !added.has_node(key),
        r matches Ok(k) ==> k != key,
{
    let v = key.slot as int;
    assert forall|i: int| 0 <= i < xs.len() implies m.edge_live(#[trigger] xs[i] as int) by {
        assert(xs.contains(xs[i]));
    }
    assert(xs.no_duplicates()) by {
        assert forall|i: int, j: int| 0 <= i < xs.len() && 0 <= j < xs.len() && i != j implies xs[i] != xs[j] by {
            if i < j {
                assert(xs[i] < xs[j]);
            } else {
                assert(xs[j] < xs[i]);
            }
        }
    }
    lemma_drop_edges_keeps_nodes(m, xs);
    assert(m.drop_edges(xs).nodes[v].generation == m.nodes[v].generation);
    if m.free_nodes.contains(v as u32) {
        let i = choose|i: int| 0 <= i < m.free_nodes.len() && #[trigger] m.free_nodes[i] == v as u32;
        assert(!m.node_live(m.free_nodes[i] as int));
    }
    if removed.free_nodes.len() > 0 {
        let w = removed.free_nodes.last();
        if w == v as u32 && m.nodes[v].generation == u32::MAX {
            assert(removed.free_nodes == m.free_nodes);
            assert(m.free_nodes.contains(w));
        }
    }
}

/// Adding an edge to a builder a second time builds the same graph as
/// adding it once: `GraphBuilder::add_edge` appends, and `build` keeps
/// each distinct edge once.
pub proof fn adding_an_edge_again_builds_the_same_graph(
    nodes: Seq<NodeView>,
    edges: Seq<EdgeView>,
    edge: EdgeView,
    once: Graph,
    twice: Graph,
)
    requires
        assembles(nodes, edges.push(edge), Ok(once)),
        assembles(nodes, edges.push(edge).push(edge), Ok(twice)),
    ensures
        once@ == twice@,
{
    let a = edges.push(edge);
    let b = a.push(edge);
    assert forall|x: EdgeView| a.to_set().contains(x) <==> b.to_set().contains(x) by {
        if b.contains(x) {
            let i = choose|i: int| 0 <= i < b.len() && b[i] == x;
            if i < a.len() {
                assert(a[i] == x);
            } else {
                assert(a[a.len() - 1] == x);
            }
        }
        if a.contains(x) {
            let i = choose|i: int| 0 <= i < a.len() && a[i] == x;
            assert(b[i] == x);
        }
    }
    assert(a.to_set() =~= b.to_set());
    insertion_order_is_irrelevant(nodes, a, once, nodes, b, twice);
}

/// Setting a cell that was clear and clearing it again gives back the
/// matrix as it was.
pub proof fn bit_matrix_insert_then_remove_restores(before: BitModel, mid: BitModel, after: BitModel, s: int, t: int)
    requires
        before.cells.len() == before.size * before.size,
        0 <= s < before.size,
        0 <= t < before.size,
        !before.has(s, t),
        mid.size == before.size,
        mid.cells == before.cells.update(s * before.size + t, true),
        after.size == mid.size,
        after.cells == mid.cells.update(s * before.size + t, false),
    ensures
        after == before,
{
    lemma_cell_distinct(before.size as int, s, t, s, t);
    assert(after.cells =~= before.cells);
}

/// Two searches for a cheapest route over the same prices agree: both
/// find a route or neither does, and found routes cost the same. This
/// relates `bidirectional_dijkstra` and `dijkstra`, whose results
/// `shortest_route` describes, when `edge_cost` answers the same for each
/// edge both times.
pub proof fn cheapest_routes_agree(
    g: crate::topology::GraphModel,
    table: Seq<Option<u64>>,
    s: int,
    t: int,
    first: Option<WeightedPath>,
    second: Option<WeightedPath>,
)
    requires
        0 <= s < g.node_count,
        0 <= t < g.node_count,
        shortest_route(g, table, Direction::Outgoing, s, t, first),
        shortest_route(g, table, Direction::Outgoing, s, t, second),
    ensures
        first is Some <==> second is Some,
        first matches Some(a) ==> second matches Some(b) && a.cost() == b.cost(),
{
    match first {
        Some(a) => {
            let (p, es) = choose|p: Seq<int>, es: Seq<int>|
                #[trigger] crate::algo::routes::route_between(g, table, Direction::Outgoing, p, es, s, t)
                    && crate::algo::routes::route_cost(table, es) == a.cost();
            assert(crate::algo::routes::affordable(g, table, Direction::Outgoing, s, t));
        },
        None => {},
    }
    match second {
        Some(b) => {
            let (q, fs) = choose|q: Seq<int>, fs: Seq<int>|
                #[trigger] crate::algo::routes::route_between(g, table, Direction::Outgoing, q, fs, s, t)
                    && crate::algo::routes::route_cost(table, fs) == b.cost();
            assert(crate::algo::routes::affordable(g, table, Direction::Outgoing, s, t));
        },
        None => {},
    }
}

} // verus!
