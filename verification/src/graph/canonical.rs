//! Node lookup by identifier and the canonical edge order.
use crate::error::{GraphError, Result};
use crate::graph::order::{
    ascending_edges, compare_edges, compare_text, edge_order, lemma_edge_order_sound,
    lemma_edge_order_trans, lemma_text_order_sound, lemma_text_order_trans, text_order,
};
use crate::model::{Edge, EdgeView, Node, NodeId, NodeView};
use crate::topology::{capacity_error, GraphModel, Topology};
use vstd::prelude::*;

verus! {

/// The content of each node, in order.
pub open spec fn node_views(nodes: Seq<Node>) -> Seq<NodeView> {
    nodes.map_values(|n: Node| n@)
}

/// The content of each edge, in order.
pub open spec fn edge_views(edges: Seq<Edge>) -> Seq<EdgeView> {
    edges.map_values(|e: Edge| e@)
}

/// Nodes in strictly increasing identifier order: sorted, no identifier
/// twice.
pub open spec fn ids_ascending(nodes: Seq<NodeView>) -> bool {
    forall|i: int, j: int| 0 <= i < j < nodes.len() ==> text_order(#[trigger] nodes[i].id, #[trigger] nodes[j].id) < 0
}

/// Some node has identifier `id`.
pub open spec fn has_id(nodes: Seq<NodeView>, id: Seq<char>) -> bool {
    exists|i: int| 0 <= i < nodes.len() && (#[trigger] nodes[i]).id == id
}

/// The position of the node with identifier `id`.
pub open spec fn position(nodes: Seq<NodeView>, id: Seq<char>) -> int {
    choose|i: int| 0 <= i < nodes.len() && (#[trigger] nodes[i]).id == id
}

/// Both endpoints of `edge` name nodes.
pub open spec fn attached(nodes: Seq<NodeView>, edge: EdgeView) -> bool {
    has_id(nodes, edge.source) && has_id(nodes, edge.target)
}

/// The error for an edge whose source or target names no node: the
/// source is looked up first.
pub open spec fn dangling_error(nodes: Seq<NodeView>, edge: EdgeView, e: GraphError) -> bool {
    if !has_id(nodes, edge.source) {
        e matches GraphError::MissingEdgeSource { id } && id@ == edge.source
    } else {
        e matches GraphError::MissingEdgeTarget { id } && id@ == edge.target
    }
}

/// `e` reports the first edge of `edges` that is not attached.
pub open spec fn first_dangling(nodes: Seq<NodeView>, edges: Seq<EdgeView>, e: GraphError) -> bool {
    exists|j: int|
        0 <= j < edges.len() && !attached(nodes, #[trigger] edges[j]) && dangling_error(nodes, edges[j], e)
            && forall|k: int| 0 <= k < j ==> attached(nodes, #[trigger] edges[k])
}

/// The node positions of each edge's endpoints.
pub open spec fn endpoint_positions(nodes: Seq<NodeView>, edges: Seq<EdgeView>) -> Seq<(int, int)> {
    edges.map_values(|e: EdgeView| (position(nodes, e.source), position(nodes, e.target)))
}

/// The topology of `edges` over `nodes`.
pub open spec fn edge_model(nodes: Seq<NodeView>, edges: Seq<EdgeView>) -> GraphModel {
    GraphModel { node_count: nodes.len(), edges: endpoint_positions(nodes, edges) }
}

/// The canonical form of `input`: ascending, holding exactly its edges.
pub open spec fn canonical_of(input: Seq<EdgeView>, output: Seq<EdgeView>) -> bool {
    &&& ascending_edges(output)
    &&& output.to_set() == input.to_set()
}

/// A node found by identifier sits at its position.
pub proof fn lemma_position(nodes: Seq<NodeView>, i: int)
    requires
        ids_ascending(nodes),
        0 <= i < nodes.len(),
    ensures
        has_id(nodes, nodes[i].id),
        position(nodes, nodes[i].id) == i,
{
    let id = nodes[i].id;
    assert(nodes[i].id == id);
    let j = position(nodes, id);
    lemma_text_order_sound(id, id);
    if j < i {
        assert(text_order(nodes[j].id, nodes[i].id) < 0);
    } else if j > i {
        assert(text_order(nodes[i].id, nodes[j].id) < 0);
    }
}

/// Finds the position of the node with identifier `id` by binary search.
pub fn find_node(nodes: &[Node], id: &str) -> (r: Option<usize>)
    requires
        ids_ascending(node_views(nodes@)),
    ensures
        match r {
            Some(i) => i < nodes@.len() && nodes@[i as int].id@ == id@ && position(node_views(nodes@), id@) == i,
            None => !has_id(node_views(nodes@), id@),
        },
{
    let ghost v = node_views(nodes@);
    let mut lo: usize = 0;
    let mut hi: usize = nodes.len();
    while lo < hi
        invariant
            v == node_views(nodes@),
            ids_ascending(v),
            lo <= hi <= nodes@.len(),
            forall|k: int| 0 <= k < lo ==> text_order(#[trigger] v[k].id, id@) < 0,
            forall|k: int| hi <= k < nodes@.len() ==> text_order(id@, #[trigger] v[k].id) < 0,
        decreases hi - lo,
    {
        let mid = lo + (hi - lo) / 2;
        let c = compare_text(nodes[mid].id.as_str(), id);
        assert(v[mid as int] == nodes@[mid as int]@);
        if c == 0 {
            proof {
                lemma_text_order_sound(v[mid as int].id, id@);
                lemma_position(v, mid as int);
            }
            return Some(mid);
        } else if c < 0 {
            proof {
                assert forall|k: int| 0 <= k < mid + 1 implies text_order(#[trigger] v[k].id, id@) < 0 by {
                    if k < mid {
                        lemma_text_order_trans(v[k].id, v[mid as int].id, id@);
                    }
                }
            }
            lo = mid + 1;
        } else {
            proof {
                lemma_text_order_sound(v[mid as int].id, id@);
                assert forall|k: int| mid <= k < nodes@.len() implies text_order(id@, #[trigger] v[k].id) < 0 by {
                    if k > mid {
                        lemma_text_order_trans(id@, v[mid as int].id, v[k].id);
                    }
                }
            }
            hi = mid;
        }
    }
    proof {
        if has_id(v, id@) {
            let k = choose|k: int| 0 <= k < v.len() && (#[trigger] v[k]).id == id@;
            lemma_text_order_sound(id@, id@);
            if k < lo {
                assert(text_order(v[k].id, id@) < 0);
            } else {
                assert(text_order(id@, v[k].id) < 0);
            }
        }
    }
    None
}

/// The error for an edge that is not attached, checking its source first.
fn endpoint_check(nodes: &[Node], edge: &Edge) -> (r: Result<()>)
    requires
        ids_ascending(node_views(nodes@)),
    ensures
        match r {
            Ok(()) => attached(node_views(nodes@), edge@),
            Err(e) => !attached(node_views(nodes@), edge@) && dangling_error(node_views(nodes@), edge@, e),
        },
{
    let ghost v = node_views(nodes@);
    match find_node(nodes, edge.source.as_str()) {
        None => return Err(GraphError::MissingEdgeSource { id: edge.source.as_str().to_owned() }),
        Some(i) => {
            assert(v[i as int].id == edge@.source);
        },
    }
    match find_node(nodes, edge.target.as_str()) {
        None => return Err(GraphError::MissingEdgeTarget { id: edge.target.as_str().to_owned() }),
        Some(i) => {
            assert(v[i as int].id == edge@.target);
        },
    }
    Ok(())
}

/// Checks that every edge is attached, reporting the first that is not.
pub fn check_endpoints(nodes: &[Node], edges: &[Edge]) -> (r: Result<()>)
    requires
        ids_ascending(node_views(nodes@)),
    ensures
        match r {
            Ok(()) => forall|k: int| 0 <= k < edges@.len() ==> attached(node_views(nodes@), #[trigger] edges@[k]@),
            Err(e) => first_dangling(node_views(nodes@), edge_views(edges@), e),
        },
{
    let ghost ev = edge_views(edges@);
    let mut i: usize = 0;
    while i < edges.len()
        invariant
            ids_ascending(node_views(nodes@)),
            i <= edges@.len(),
            ev == edge_views(edges@),
            forall|k: int| 0 <= k < i ==> attached(node_views(nodes@), #[trigger] edges@[k]@),
        decreases edges@.len() - i,
    {
        match endpoint_check(nodes, &edges[i]) {
            Ok(()) => {},
            Err(e) => {
                proof {
                    assert(ev[i as int] == edges@[i as int]@);
                    assert forall|k: int| 0 <= k < i implies attached(node_views(nodes@), #[trigger] ev[k]) by {
                        assert(ev[k] == edges@[k]@);
                    }
                }
                return Err(e);
            },
        }
        i += 1;
    }
    Ok(())
}

/// The slot of `edge` in an ascending list: everything before it is
/// smaller, nothing after it is.
fn edge_slot(sorted: &Vec<Edge>, edge: &Edge) -> (p: usize)
    requires
        ascending_edges(edge_views(sorted@)),
    ensures
        p <= sorted@.len(),
        forall|k: int| 0 <= k < p ==> edge_order(#[trigger] sorted@[k]@, edge@) < 0,
        forall|k: int| p <= k < sorted@.len() ==> edge_order(edge@, #[trigger] sorted@[k]@) <= 0,
{
    let ghost v = edge_views(sorted@);
    let mut lo: usize = 0;
    let mut hi: usize = sorted.len();
    while lo < hi
        invariant
            v == edge_views(sorted@),
            ascending_edges(v),
            lo <= hi <= sorted@.len(),
            forall|k: int| 0 <= k < lo ==> edge_order(#[trigger] sorted@[k]@, edge@) < 0,
            forall|k: int| hi <= k < sorted@.len() ==> edge_order(edge@, #[trigger] sorted@[k]@) <= 0,
        decreases hi - lo,
    {
        let mid = lo + (hi - lo) / 2;
        let c = compare_edges(&sorted[mid], edge);
        assert(v[mid as int] == sorted@[mid as int]@);
        if c < 0 {
            proof {
                assert forall|k: int| 0 <= k < mid + 1 implies edge_order(#[trigger] sorted@[k]@, edge@) < 0 by {
                    if k < mid {
                        assert(v[k] == sorted@[k]@);
                        lemma_edge_order_trans(sorted@[k]@, sorted@[mid as int]@, edge@);
                    }
                }
            }
            lo = mid + 1;
        } else {
            proof {
                lemma_edge_order_sound(sorted@[mid as int]@, edge@);
                assert forall|k: int| mid <= k < sorted@.len() implies edge_order(edge@, #[trigger] sorted@[k]@)
                    <= 0 by {
                    if k > mid {
                        assert(v[k] == sorted@[k]@);
                        if edge_order(edge@, sorted@[mid as int]@) < 0 {
                            lemma_edge_order_trans(edge@, sorted@[mid as int]@, sorted@[k]@);
                        }
                    }
                }
            }
            hi = mid;
        }
    }
    lo
}

proof fn lemma_skip_contains(input: Seq<EdgeView>, n: int, x: EdgeView)
    requires
        1 <= n <= input.len(),
    ensures
        input.skip(n - 1).contains(x) <==> (input.skip(n).contains(x) || x == input[n - 1]),
{
    if input.skip(n - 1).contains(x) && x != input[n - 1] {
        let k = choose|k: int| 0 <= k < input.skip(n - 1).len() && #[trigger] input.skip(n - 1)[k] == x;
        assert(input.skip(n)[k - 1] == x);
    }
    if input.skip(n).contains(x) {
        let m = choose|m: int| 0 <= m < input.skip(n).len() && #[trigger] input.skip(n)[m] == x;
        assert(input.skip(n - 1)[m + 1] == x);
    }
    if x == input[n - 1] {
        assert(input.skip(n - 1)[0] == x);
    }
}

proof fn lemma_insert_contains(v: Seq<EdgeView>, p: int, e: EdgeView, x: EdgeView)
    requires
        0 <= p <= v.len(),
    ensures
        v.insert(p, e).contains(x) <==> (v.contains(x) || x == e),
{
    let w = v.insert(p, e);
    if v.contains(x) {
        let m = choose|m: int| 0 <= m < v.len() && #[trigger] v[m] == x;
        if m < p {
            assert(w[m] == x);
        } else {
            assert(w[m + 1] == x);
        }
    }
    if x == e {
        assert(w[p] == x);
    }
    if w.contains(x) && x != e {
        let k = choose|k: int| 0 <= k < w.len() && #[trigger] w[k] == x;
        if k < p {
            assert(v[k] == x);
        } else {
            assert(v[k - 1] == x);
        }
    }
}

proof fn lemma_insert_ascending(v: Seq<EdgeView>, p: int, e: EdgeView)
    requires
        ascending_edges(v),
        0 <= p <= v.len(),
        forall|k: int| 0 <= k < p ==> edge_order(#[trigger] v[k], e) < 0,
        forall|k: int| p <= k < v.len() ==> edge_order(e, #[trigger] v[k]) < 0,
    ensures
        ascending_edges(v.insert(p, e)),
{
    let w = v.insert(p, e);
    assert forall|i: int, j: int| 0 <= i < j < w.len() implies edge_order(#[trigger] w[i], #[trigger] w[j]) < 0 by {
        if i < p && j == p {
            assert(w[i] == v[i]);
        } else if i < p && j > p {
            assert(w[i] == v[i]);
            assert(w[j] == v[j - 1]);
        } else if i == p {
            assert(w[j] == v[j - 1]);
        } else if i > p {
            assert(w[i] == v[i - 1]);
            assert(w[j] == v[j - 1]);
        } else {
            assert(w[i] == v[i]);
            assert(w[j] == v[j]);
        }
    }
}

/// Sorts `edges` into canonical order and drops repeats.
pub fn canonical_edges(edges: Vec<Edge>) -> (r: Vec<Edge>)
    ensures
        canonical_of(edge_views(edges@), edge_views(r@)),
        r@.len() <= edges@.len(),
{
    let ghost input = edge_views(edges@);
    let mut rest = edges;
    let mut sorted: Vec<Edge> = Vec::new();
    while rest.len() > 0
        invariant
            rest@.len() <= input.len(),
            edge_views(rest@) == input.take(rest@.len() as int),
            ascending_edges(edge_views(sorted@)),
            sorted@.len() <= input.len() - rest@.len(),
            forall|x: EdgeView|
                edge_views(sorted@).contains(x) <==> input.skip(rest@.len() as int).contains(x),
        decreases rest@.len(),
    {
        let ghost before = edge_views(sorted@);
        let ghost raw = sorted@;
        let ghost n = rest@.len() as int;
        let edge = rest.pop().unwrap();
        proof {
            assert(edge_views(rest@) =~= input.take(n - 1)) by {
                assert(input.take(n) =~= input.take(n - 1).push(input[n - 1]));
            }
            assert(edge@ == input[n - 1]) by {
                assert(input.take(n)[n - 1] == input[n - 1]);
            }
        }
        let p = edge_slot(&sorted, &edge);
        let duplicate = p < sorted.len() && compare_edges(&sorted[p], &edge) == 0;
        if duplicate {
            proof {
                lemma_edge_order_sound(sorted@[p as int]@, edge@);
                assert(before[p as int] == edge@);
                assert forall|x: EdgeView| before.contains(x) <==> input.skip(n - 1).contains(x) by {
                    lemma_skip_contains(input, n, x);
                }
            }
        } else {
            sorted.insert(p, edge);
            proof {
                assert(edge_views(sorted@) =~= before.insert(p as int, edge@));
                assert forall|k: int| 0 <= k < p implies edge_order(#[trigger] before[k], edge@) < 0 by {
                    assert(before[k] == raw[k]@);
                }
                assert forall|k: int| p <= k < before.len() implies edge_order(edge@, #[trigger] before[k]) < 0 by {
                    assert(before[k] == raw[k]@);
                    assert(before[p as int] == raw[p as int]@);
                    lemma_edge_order_sound(edge@, before[p as int]);
                    if k > p {
                        assert(edge_order(before[p as int], before[k]) < 0);
                        lemma_edge_order_trans(edge@, before[p as int], before[k]);
                    }
                }
                lemma_insert_ascending(before, p as int, edge@);
                assert forall|x: EdgeView| edge_views(sorted@).contains(x) <==> input.skip(n - 1).contains(x) by {
                    lemma_skip_contains(input, n, x);
                    lemma_insert_contains(before, p as int, edge@, x);
                }
            }
        }
    }
    proof {
        assert(input.skip(0) =~= input);
        assert(edge_views(sorted@).to_set() =~= input.to_set());
    }
    sorted
}

/// Builds the topology of attached edges over their node positions.
pub fn index_edges(nodes: &[Node], edges: &[Edge]) -> (r: Result<Topology>)
    requires
        ids_ascending(node_views(nodes@)),
        forall|k: int| 0 <= k < edges@.len() ==> attached(node_views(nodes@), #[trigger] edges@[k]@),
    ensures
        match r {
            Ok(t) => t@ == edge_model(node_views(nodes@), edge_views(edges@)),
            Err(e) => capacity_error(nodes@.len() as usize, edges@.len() as usize) == Some(e),
        },
{
    let ghost nv = node_views(nodes@);
    let ghost ev = edge_views(edges@);
    let mut endpoints: Vec<(usize, usize)> = Vec::new();
    let mut i: usize = 0;
    while i < edges.len()
        invariant
            nv == node_views(nodes@),
            ev == edge_views(edges@),
            ids_ascending(nv),
            forall|k: int| 0 <= k < edges@.len() ==> attached(nv, #[trigger] edges@[k]@),
            i <= edges@.len(),
            endpoints@.len() == i,
            forall|k: int|
                0 <= k < i ==> (#[trigger] endpoints@[k]).0 < nodes@.len() && endpoints@[k].1 < nodes@.len()
                    && endpoints@[k].0 == position(nv, ev[k].source) && endpoints@[k].1 == position(
                    nv,
                    ev[k].target,
                ),
        decreases edges@.len() - i,
    {
        assert(attached(nv, edges@[i as int]@));
        assert(ev[i as int] == edges@[i as int]@);
        let source = match find_node(nodes, edges[i].source.as_str()) {
            Some(p) => p,
            None => {
                assert(false);
                0
            },
        };
        let target = match find_node(nodes, edges[i].target.as_str()) {
            Some(p) => p,
            None => {
                assert(false);
                0
            },
        };
        endpoints.push((source, target));
        i += 1;
    }
    let ghost pairs_seq = endpoints@;
    let r = Topology::try_from_usize_edges(nodes.len(), endpoints);
    proof {
        match &r {
            Ok(t) => {
                assert(t@.edges =~= endpoint_positions(nv, ev));
            },
            Err(e) => {
                let e = *e;
                if capacity_error(nodes@.len() as usize, edges@.len() as usize) != Some(e) {
                    let k = choose|k: int|
                        0 <= k < pairs_seq.len() && (pairs_seq[k].0 >= nodes@.len() || pairs_seq[k].1
                            >= nodes@.len()) && e == (GraphError::InvalidTopologyEndpoint {
                            edge: k as usize,
                            node: if pairs_seq[k].0 >= nodes@.len() {
                                pairs_seq[k].0
                            } else {
                                pairs_seq[k].1
                            },
                            node_count: nodes@.len() as usize,
                        }) && forall|j: int|
                            0 <= j < k ==> pairs_seq[j].0 < nodes@.len() && pairs_seq[j].1 < nodes@.len();
                    assert(pairs_seq[k].0 < nodes@.len());
                }
            },
        }
    }
    r
}

} // verus!
