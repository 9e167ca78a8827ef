//! Incremental construction: nodes are kept in identifier order as they
//! arrive, edges in arrival order until `build` canonicalizes them.
use crate::error::{GraphError, Result};
use crate::graph::canonical::{
    attached, canonical_edges, canonical_of, check_endpoints, edge_views, first_dangling, has_id,
    ids_ascending, index_edges, node_views, position,
};
use crate::graph::order::{compare_text, lemma_text_order_sound, lemma_text_order_trans, text_order};
use crate::graph::store::{Graph, GraphView};
use crate::model::{Edge, EdgeView, Node, NodeKind, NodeView};
use crate::topology::capacity_error;
use vstd::prelude::*;

verus! {

/// What adding `node` to a table of nodes in identifier order yields: an
/// empty identifier is refused, an identical node is already there, a
/// different node under the same identifier conflicts, and a new node
/// takes its place in identifier order.
pub open spec fn node_addition(table: Seq<NodeView>, node: NodeView, after: Seq<NodeView>, r: Result<()>) -> bool {
    if node.id.len() == 0 {
        r == Err::<(), GraphError>(GraphError::EmptyNodeId) && after == table
    } else if has_id(table, node.id) {
        &&& after == table
        &&& if table[position(table, node.id)] == node {
            r is Ok
        } else {
            r matches Err(GraphError::ConflictingNode { id }) && id@ == node.id
        }
    } else {
        &&& r is Ok
        &&& ids_ascending(after)
        &&& after.to_set() == table.to_set().insert(node)
        &&& after.len() == table.len() + 1
    }
}

/// What building from a node table and the edges added so far yields.
pub open spec fn builds_graph(table: Seq<NodeView>, edges: Seq<EdgeView>, r: Result<Graph>) -> bool {
    match r {
        Ok(g) => {
            &&& forall|k: int| 0 <= k < edges.len() ==> attached(table, #[trigger] edges[k])
            &&& g@.nodes == table
            &&& canonical_of(edges, g@.edges)
        },
        Err(e) => {
            ||| first_dangling(table, edges, e)
            ||| {
                &&& forall|k: int| 0 <= k < edges.len() ==> attached(table, #[trigger] edges[k])
                &&& capacity_error(table.len() as usize, edges.to_set().len() as usize) == Some(e)
            }
        },
    }
}

/// A builder of graphs: nodes may come in any order and more than once,
/// edges may come before their nodes.
#[derive(Debug)]
pub struct GraphBuilder {
    nodes: Vec<Node>,
    edges: Vec<Edge>,
}

fn node_kind_equal(a: &NodeKind, b: &NodeKind) -> (r: bool)
    ensures
        r == (a@ == b@),
{
    match (a, b) {
        (NodeKind::File, NodeKind::File) => true,
        (NodeKind::Repository, NodeKind::Repository) => true,
        (NodeKind::Custom(s), NodeKind::Custom(t)) => {
            let c = compare_text(s.as_str(), t.as_str());
            proof {
                lemma_text_order_sound(s@, t@);
            }
            c == 0
        },
        _ => false,
    }
}

/// Whether two nodes have the same content.
fn same_node(a: &Node, b: &Node) -> (r: bool)
    ensures
        r == (a@ == b@),
{
    let same_id = compare_text(a.id.as_str(), b.id.as_str()) == 0;
    let same_name = compare_text(a.name.as_str(), b.name.as_str()) == 0;
    proof {
        lemma_text_order_sound(a.id@, b.id@);
        lemma_text_order_sound(a.name@, b.name@);
    }
    same_id && same_name && node_kind_equal(&a.kind, &b.kind)
}

/// The slot of `id` in nodes in identifier order.
fn id_slot(nodes: &Vec<Node>, id: &str) -> (p: usize)
    requires
        ids_ascending(node_views(nodes@)),
    ensures
        p <= nodes@.len(),
        forall|k: int| 0 <= k < p ==> text_order(#[trigger] nodes@[k].id@, id@) < 0,
        forall|k: int| p <= k < nodes@.len() ==> text_order(id@, #[trigger] nodes@[k].id@) <= 0,
{
    let ghost v = node_views(nodes@);
    let mut lo: usize = 0;
    let mut hi: usize = nodes.len();
    while lo < hi
        invariant
            v == node_views(nodes@),
            ids_ascending(v),
            lo <= hi <= nodes@.len(),
            forall|k: int| 0 <= k < lo ==> text_order(#[trigger] nodes@[k].id@, id@) < 0,
            forall|k: int| hi <= k < nodes@.len() ==> text_order(id@, #[trigger] nodes@[k].id@) <= 0,
        decreases hi - lo,
    {
        let mid = lo + (hi - lo) / 2;
        let c = compare_text(nodes[mid].id.as_str(), id);
        assert(v[mid as int].id == nodes@[mid as int].id@);
        if c < 0 {
            proof {
                assert forall|k: int| 0 <= k < mid + 1 implies text_order(#[trigger] nodes@[k].id@, id@) < 0 by {
                    if k < mid {
                        assert(v[k].id == nodes@[k].id@);
                        lemma_text_order_trans(nodes@[k].id@, nodes@[mid as int].id@, id@);
                    }
                }
            }
            lo = mid + 1;
        } else {
            proof {
                lemma_text_order_sound(nodes@[mid as int].id@, id@);
                assert forall|k: int| mid <= k < nodes@.len() implies text_order(id@, #[trigger] nodes@[k].id@)
                    <= 0 by {
                    if k > mid {
                        assert(v[k].id == nodes@[k].id@);
                        lemma_text_order_sound(id@, nodes@[mid as int].id@);
                        if text_order(id@, nodes@[mid as int].id@) < 0 {
                            lemma_text_order_trans(id@, nodes@[mid as int].id@, nodes@[k].id@);
                        }
                    }
                }
            }
            hi = mid;
        }
    }
    lo
}

proof fn lemma_insert_node(v: Seq<NodeView>, p: int, node: NodeView)
    requires
        ids_ascending(v),
        0 <= p <= v.len(),
        forall|k: int| 0 <= k < p ==> text_order(#[trigger] v[k].id, node.id) < 0,
        forall|k: int| p <= k < v.len() ==> text_order(node.id, #[trigger] v[k].id) < 0,
    ensures
        ids_ascending(v.insert(p, node)),
        v.insert(p, node).to_set() == v.to_set().insert(node),
{
    let w = v.insert(p, node);
    assert forall|i: int, j: int| 0 <= i < j < w.len() implies text_order(#[trigger] w[i].id, #[trigger] w[j].id)
        < 0 by {
        if i < p && j == p {
            assert(w[i] == v[i]);
        } else if i < p && j > p {
            assert(w[i] == v[i]);
            assert(w[j] == v[j - 1]);
        } else if i == p {
            assert(w[j] == v[j - 1]);
        } else if i > p {
            assert(w[i] == v[i - 1]);
            assert(w[j] == v[j - 1]);
        } else {
            assert(w[i] == v[i]);
            assert(w[j] == v[j]);
        }
    }
    assert forall|x: NodeView| w.contains(x) <==> v.contains(x) || x == node by {
        if v.contains(x) {
            let m = choose|m: int| 0 <= m < v.len() && #[trigger] v[m] == x;
            if m < p {
                assert(w[m] == x);
            } else {
                assert(w[m + 1] == x);
            }
        }
        if x == node {
            assert(w[p] == x);
        }
        if w.contains(x) && x != node {
            let k = choose|k: int| 0 <= k < w.len() && #[trigger] w[k] == x;
            if k < p {
                assert(v[k] == x);
            } else {
                assert(v[k - 1] == x);
            }
        }
    }
    assert(w.to_set() =~= v.to_set().insert(node));
}

impl GraphBuilder {
    /// The nodes added so far, in identifier order.
    pub closed spec fn node_table(self) -> Seq<NodeView> {
        node_views(self.nodes@)
    }

    /// The edges added so far, in the order they came.
    pub closed spec fn edge_list(self) -> Seq<EdgeView> {
        edge_views(self.edges@)
    }

    /// The node table is in strictly increasing identifier order.
    pub closed spec fn wf(self) -> bool {
        ids_ascending(node_views(self.nodes@))
    }

    /// An empty builder.
    pub fn new() -> (r: Self)
        ensures
            r.wf(),
            r.node_table() == Seq::<NodeView>::empty(),
            r.edge_list() == Seq::<EdgeView>::empty(),
    {
        let r = GraphBuilder { nodes: Vec::new(), edges: Vec::new() };
        assert(r.node_table() =~= Seq::<NodeView>::empty());
        assert(r.edge_list() =~= Seq::<EdgeView>::empty());
        r
    }

    /// An empty builder with storage sized for the expected graph.
    pub fn with_capacity(nodes: usize, edges: usize) -> (r: Self)
        ensures
            r.wf(),
            r.node_table() == Seq::<NodeView>::empty(),
            r.edge_list() == Seq::<EdgeView>::empty(),
    {
        let r = GraphBuilder { nodes: Vec::with_capacity(nodes), edges: Vec::with_capacity(edges) };
        assert(r.node_table() =~= Seq::<NodeView>::empty());
        assert(r.edge_list() =~= Seq::<EdgeView>::empty());
        r
    }

    /// Adds a node idempotently.
    ///
    /// # Errors
    ///
    /// Returns an error for an empty identifier, or when the identifier
    /// already has a different definition.
    pub fn add_node(&mut self, node: Node) -> (r: Result<()>)
        requires
            old(self).wf(),
        ensures
            final(self).wf(),
            final(self).edge_list() == old(self).edge_list(),
            node_addition(old(self).node_table(), node@, final(self).node_table(), r),
    {
        let ghost table = node_views(self.nodes@);
        if node.id.as_str().is_empty() {
            return Err(GraphError::EmptyNodeId);
        }
        let p = id_slot(&self.nodes, node.id.as_str());
        if p < self.nodes.len() && compare_text(self.nodes[p].id.as_str(), node.id.as_str()) == 0 {
            proof {
                lemma_text_order_sound(self.nodes@[p as int].id@, node.id@);
                assert(table[p as int].id == node@.id);
                crate::graph::canonical::lemma_position(table, p as int);
            }
            if same_node(&self.nodes[p], &node) {
                return Ok(());
            }
            return Err(GraphError::ConflictingNode { id: node.id.as_str().to_owned() });
        }
        proof {
            assert forall|k: int| p <= k < table.len() implies text_order(node@.id, #[trigger] table[k].id) < 0 by {
                assert(table[k].id == self.nodes@[k].id@);
                assert(table[p as int].id == self.nodes@[p as int].id@);
                lemma_text_order_sound(node@.id, table[p as int].id);
                if k > p {
                    lemma_text_order_trans(node@.id, table[p as int].id, table[k].id);
                }
            }
            assert forall|k: int| 0 <= k < p implies text_order(#[trigger] table[k].id, node@.id) < 0 by {
                assert(table[k].id == self.nodes@[k].id@);
            }
            if has_id(table, node@.id) {
                let k = choose|k: int| 0 <= k < table.len() && (#[trigger] table[k]).id == node@.id;
                lemma_text_order_sound(node@.id, node@.id);
                if k < p {
                    assert(text_order(table[k].id, node@.id) < 0);
                } else {
                    assert(text_order(node@.id, table[k].id) < 0);
                }
            }
            lemma_insert_node(table, p as int, node@);
        }
        self.nodes.insert(p, node);
        assert(node_views(self.nodes@) =~= table.insert(p as int, node@));
        Ok(())
    }

    /// Adds an edge. Endpoints are checked by `build`, so edges may come
    /// before their nodes.
    ///
    /// # Errors
    ///
    /// Returns an error when the edge's provenance names no extractor.
    pub fn add_edge(&mut self, edge: Edge) -> (r: Result<()>)
        requires
            old(self).wf(),
        ensures
            final(self).wf(),
            final(self).node_table() == old(self).node_table(),
            edge@.extractor.len() == 0 ==> r == Err::<(), GraphError>(GraphError::EmptyExtractor)
                && final(self).edge_list() == old(self).edge_list(),
            edge@.extractor.len() > 0 ==> r is Ok && final(self).edge_list() == old(self).edge_list().push(edge@),
    {
        if edge.provenance.extractor.as_str().is_empty() {
            return Err(GraphError::EmptyExtractor);
        }
        let ghost before = self.edges@;
        self.edges.push(edge);
        assert(edge_views(self.edges@) =~= edge_views(before).push(edge@));
        Ok(())
    }

    /// Checks every edge's endpoints and returns the immutable graph.
    ///
    /// # Errors
    ///
    /// Returns an error for the first edge, in the order they were added,
    /// whose source or target is missing, or when the graph exceeds the
    /// capacity of compact indexes.
    pub fn build(self) -> (r: Result<Graph>)
        requires
            self.wf(),
        ensures
            builds_graph(self.node_table(), self.edge_list(), r),
    {
        let ghost table = node_views(self.nodes@);
        let ghost list = edge_views(self.edges@);
        let GraphBuilder { nodes, edges } = self;
        match check_endpoints(nodes.as_slice(), edges.as_slice()) {
            Ok(()) => {},
            Err(e) => return Err(e),
        }
        let canonical = canonical_edges(edges);
        proof {
            assert forall|k: int| 0 <= k < list.len() implies attached(table, #[trigger] list[k]) by {
                assert(list[k] == edges@[k]@);
            }
            assert forall|k: int| 0 <= k < canonical@.len() implies attached(table, #[trigger] canonical@[k]@) by {
                assert(edge_views(canonical@)[k] == canonical@[k]@);
                assert(edge_views(canonical@).to_set().contains(canonical@[k]@));
                assert(list.to_set().contains(canonical@[k]@));
                let m = choose|m: int| 0 <= m < list.len() && #[trigger] list[m] == canonical@[k]@;
            }
            crate::graph::store::lemma_ascending_len(edge_views(canonical@));
        }
        match index_edges(nodes.as_slice(), canonical.as_slice()) {
            Ok(topology) => Ok(Graph::from_indexed_parts(nodes, canonical, topology)),
            Err(e) => Err(e),
        }
    }
}

} // verus!
