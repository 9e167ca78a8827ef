//! The immutable evidence graph.
use crate::error::{GraphError, Result};
use crate::graph::builder::{builds_graph, node_addition, GraphBuilder};
use crate::graph::canonical::{
    attached, canonical_of, dangling_error, edge_model, edge_views, find_node, first_dangling, has_id, ids_ascending,
    index_edges, node_views, position,
};
use crate::graph::order::{
    ascending_edges, compare_edges, compare_text, edge_order, lemma_edge_order_sound, lemma_edge_order_trans,
    lemma_text_order_sound, lemma_text_order_trans, text_order,
};
use crate::model::{Edge, EdgeView, Node, NodeView};
use crate::topology::{capacity_error, NodeIndex, Topology};
use vstd::prelude::*;

verus! {

/// The content of a graph: its nodes in identifier order and its edges in
/// canonical order.
#[verifier::ext_equal]
pub struct GraphView {
    pub nodes: Seq<NodeView>,
    pub edges: Seq<EdgeView>,
}

/// An immutable graph: nodes in strictly increasing identifier order, edges
/// in strictly increasing canonical order with both endpoints present, and
/// the topology of their node positions.
#[derive(Debug)]
pub struct Graph {
    nodes: Vec<Node>,
    edges: Vec<Edge>,
    topology: Topology,
}

/// Node `j` is accepted when nodes are added in order: its identifier is
/// not empty and every earlier node with that identifier is identical.
pub open spec fn node_accepted(nodes: Seq<NodeView>, j: int) -> bool {
    &&& nodes[j].id.len() > 0
    &&& forall|i: int| 0 <= i < j && (#[trigger] nodes[i]).id == nodes[j].id ==> nodes[i] == nodes[j]
}

/// `e` is the error for the first node that is not accepted.
pub open spec fn first_refused_node(nodes: Seq<NodeView>, e: GraphError) -> bool {
    exists|j: int|
        0 <= j < nodes.len() && !node_accepted(nodes, j) && (if nodes[j].id.len() == 0 {
            e == GraphError::EmptyNodeId
        } else {
            e matches GraphError::ConflictingNode { id } && id@ == nodes[j].id
        }) && forall|k: int| 0 <= k < j ==> #[trigger] node_accepted(nodes, k)
}

/// Every edge's provenance names an extractor.
pub open spec fn extractors_named(edges: Seq<EdgeView>) -> bool {
    forall|k: int| 0 <= k < edges.len() ==> (#[trigger] edges[k]).extractor.len() > 0
}

/// Every node is accepted.
pub open spec fn nodes_accepted(nodes: Seq<NodeView>) -> bool {
    forall|j: int| 0 <= j < nodes.len() ==> #[trigger] node_accepted(nodes, j)
}

/// What assembling a graph from `nodes` and `edges` yields: the first
/// refused node, then the first edge without an extractor, then the first
/// edge with a missing endpoint, then a capacity error, are reported in
/// that order; otherwise the graph holds each distinct node once in
/// identifier order and each distinct edge once in canonical order.
pub open spec fn assembles(nodes: Seq<NodeView>, edges: Seq<EdgeView>, r: Result<Graph>) -> bool {
    match r {
        Ok(g) => {
            &&& nodes_accepted(nodes)
            &&& extractors_named(edges)
            &&& forall|k: int| 0 <= k < edges.len() ==> attached(nodes, #[trigger] edges[k])
            &&& ids_ascending(g@.nodes)
            &&& g@.nodes.to_set() == nodes.to_set()
            &&& canonical_of(edges, g@.edges)
        },
        Err(e) => {
            ||| first_refused_node(nodes, e)
            ||| nodes_accepted(nodes) && exists|j: int|
                0 <= j < edges.len() && (#[trigger] edges[j]).extractor.len() == 0 && e
                    == GraphError::EmptyExtractor && extractors_named(edges.take(j))
            ||| nodes_accepted(nodes) && extractors_named(edges) && first_dangling(nodes, edges, e)
            ||| {
                &&& nodes_accepted(nodes)
                &&& extractors_named(edges)
                &&& forall|k: int| 0 <= k < edges.len() ==> attached(nodes, #[trigger] edges[k])
                &&& capacity_error(nodes.to_set().len() as usize, edges.to_set().len() as usize) == Some(e)
            }
        },
    }
}

/// A strictly ascending edge list holds no edge twice.
pub proof fn lemma_ascending_len(edges: Seq<EdgeView>)
    requires
        ascending_edges(edges),
    ensures
        edges.to_set().len() == edges.len(),
        edges.no_duplicates(),
{
    assert forall|i: int, j: int| 0 <= i < edges.len() && 0 <= j < edges.len() && i != j implies edges[i]
        != edges[j] by {
        if i < j {
            lemma_edge_order_sound(edges[i], edges[j]);
        } else {
            lemma_edge_order_sound(edges[j], edges[i]);
        }
    }
    edges.unique_seq_to_set();
}

/// A node table in strictly ascending identifier order holds no node twice.
pub proof fn lemma_ascending_ids_len(nodes: Seq<NodeView>)
    requires
        ids_ascending(nodes),
    ensures
        nodes.to_set().len() == nodes.len(),
{
    assert forall|i: int, j: int| 0 <= i < nodes.len() && 0 <= j < nodes.len() && i != j implies nodes[i]
        != nodes[j] by {
        if i < j {
            lemma_text_order_sound(nodes[i].id, nodes[j].id);
        } else {
            lemma_text_order_sound(nodes[j].id, nodes[i].id);
        }
    }
    nodes.unique_seq_to_set();
}

impl View for Graph {
    type V = GraphView;

    closed spec fn view(&self) -> GraphView {
        GraphView { nodes: node_views(self.nodes@), edges: edge_views(self.edges@) }
    }
}

impl Graph {
    #[verifier::type_invariant]
    closed spec fn inv(self) -> bool {
        let nodes = node_views(self.nodes@);
        let edges = edge_views(self.edges@);
        &&& ids_ascending(nodes)
        &&& ascending_edges(edges)
        &&& forall|k: int| 0 <= k < edges.len() ==> attached(nodes, #[trigger] edges[k])
        &&& self.topology@ == edge_model(nodes, edges)
    }

    pub(crate) fn from_indexed_parts(nodes: Vec<Node>, edges: Vec<Edge>, topology: Topology) -> (r: Self)
        requires
            ids_ascending(node_views(nodes@)),
            ascending_edges(edge_views(edges@)),
            forall|k: int| 0 <= k < edges@.len() ==> attached(node_views(nodes@), #[trigger] edges@[k]@),
            topology@ == edge_model(node_views(nodes@), edge_views(edges@)),
        ensures
            r@ == (GraphView { nodes: node_views(nodes@), edges: edge_views(edges@) }),
    {
        proof {
            assert forall|k: int| 0 <= k < edges@.len() implies attached(
                node_views(nodes@),
                #[trigger] edge_views(edges@)[k],
            ) by {
                assert(edge_views(edges@)[k] == edges@[k]@);
            }
        }
        Graph { nodes, edges, topology }
    }

    /// Assembles a graph from nodes and edges in any order: identical nodes
    /// and identical edges are kept once, nodes are ordered by identifier
    /// and edges canonically.
    ///
    /// # Errors
    ///
    /// Returns an error for an empty identifier, conflicting node
    /// definitions, an edge without extractor, an edge whose source or target
    /// is missing, or a graph beyond the capacity of compact indexes.
    pub fn try_from_parts(nodes: Vec<Node>, edges: Vec<Edge>) -> (r: Result<Graph>)
        ensures
            assembles(node_views(nodes@), edge_views(edges@), r),
    {
        let ghost nv = node_views(nodes@);
        let ghost ev = edge_views(edges@);
        let node_total = nodes.len();
        let edge_total = edges.len();
        let mut builder = GraphBuilder::new();
        proof {
            assert(nv.skip(0) =~= nv);
            assert(nv.take(0).to_set() =~= Set::<NodeView>::empty());
            assert(builder.node_table().to_set() =~= Set::<NodeView>::empty());
        }
        let mut pending = crate::util::reversed(nodes);
        let mut i: usize = 0;
        while pending.len() > 0
            invariant
                builder.wf(),
                builder.edge_list() == Seq::<EdgeView>::empty(),
                i + pending@.len() == nv.len(),
                node_views(pending@) == nv.skip(i as int).reverse(),
                ids_ascending(builder.node_table()),
                builder.node_table().to_set() == nv.take(i as int).to_set(),
                forall|j: int| 0 <= j < i ==> #[trigger] node_accepted(nv, j),
                nv.len() == node_total,
                nv == node_views(nodes@),
                ev == edge_views(edges@),
            decreases pending@.len(),
        {
            let ghost before = builder.node_table();
            let ghost rest = pending@;
            let node = pending.pop().unwrap();
            proof {
                crate::util::lemma_reverse_skip(nv, i as int);
                assert(node_views(rest).last() == node@);
                assert(node_views(pending@) =~= node_views(rest).drop_last());
            }
            let added = builder.add_node(node);
            proof {
                lemma_accept_step(nv, i as int, before, builder.node_table(), added);
            }
            match added {
                Ok(()) => {},
                Err(e) => {
                    assert(first_refused_node(nv, e));
                    return Err(e);
                },
            }
            i += 1;
        }
        proof {
            assert(nv.take(nv.len() as int) =~= nv);
        }
        let ghost table = builder.node_table();
        proof {
            assert(ev.skip(0) =~= ev);
        }
        let mut queued = crate::util::reversed(edges);
        let mut k: usize = 0;
        while queued.len() > 0
            invariant
                builder.wf(),
                builder.node_table() == table,
                k + queued@.len() == ev.len(),
                edge_views(queued@) == ev.skip(k as int).reverse(),
                builder.edge_list() == ev.take(k as int),
                extractors_named(ev.take(k as int)),
                nodes_accepted(nv),
                ids_ascending(table),
                table.to_set() == nv.to_set(),
                ev.len() == edge_total,
                nv == node_views(nodes@),
                ev == edge_views(edges@),
            decreases queued@.len(),
        {
            let ghost rest = queued@;
            let edge = queued.pop().unwrap();
            proof {
                crate::util::lemma_reverse_skip(ev, k as int);
                assert(edge_views(rest).last() == edge@);
                assert(edge_views(queued@) =~= edge_views(rest).drop_last());
                assert(ev.take(k + 1) =~= ev.take(k as int).push(ev[k as int]));
            }
            match builder.add_edge(edge) {
                Ok(()) => {},
                Err(e) => {
                    proof {
                        assert(ev[k as int].extractor.len() == 0);
                        assert(nodes_accepted(nv));
                        assert(extractors_named(ev.take(k as int)));
                        assert(e == GraphError::EmptyExtractor);
                    }
                    return Err(e);
                },
            }
            k += 1;
        }
        proof {
            assert(ev.take(ev.len() as int) =~= ev);
        }
        let r = builder.build();
        proof {
            lemma_table_agrees(nv, table);
            lemma_ascending_ids_len(table);
            match &r {
                Ok(g) => {
                    assert forall|k: int| 0 <= k < ev.len() implies attached(nv, #[trigger] ev[k]) by {
                        assert(attached(table, ev[k]));
                    }
                },
                Err(e) => {
                    let e = *e;
                    if first_dangling(table, ev, e) {
                        let j = choose|j: int|
                            0 <= j < ev.len() && !attached(table, #[trigger] ev[j]) && dangling_error(table, ev[j], e)
                                && forall|k: int| 0 <= k < j ==> attached(table, #[trigger] ev[k]);
                        assert(!attached(nv, ev[j]) && dangling_error(nv, ev[j], e));
                        assert forall|k: int| 0 <= k < j implies attached(nv, #[trigger] ev[k]) by {
                            assert(attached(table, ev[k]));
                        }
                    } else {
                        assert forall|k: int| 0 <= k < ev.len() implies attached(nv, #[trigger] ev[k]) by {
                            assert(attached(table, ev[k]));
                        }
                    }
                },
            }
        }
        r
    }

    /// Assembles a graph from nodes already in strictly increasing
    /// identifier order and edges already in canonical order without
    /// repeats, indexing them as they stand; other input goes through
    /// canonicalization, so the result is the graph `try_from_parts` builds
    /// from the same parts.
    ///
    /// # Errors
    ///
    /// As for `try_from_parts`.
    pub fn try_from_sorted_parts(nodes: Vec<Node>, edges: Vec<Edge>) -> (r: Result<Graph>)
        ensures
            assembles(node_views(nodes@), edge_views(edges@), r),
    {
        if !sorted_ids(&nodes) || !sorted_edges(&edges) {
            return Self::try_from_parts(nodes, edges);
        }
        let ghost nv = node_views(nodes@);
        let ghost ev = edge_views(edges@);
        match crate::graph::canonical::check_endpoints(nodes.as_slice(), edges.as_slice()) {
            Ok(()) => {},
            Err(e) => {
                proof {
                    lemma_sorted_nodes_accepted(nv);
                }
                return Err(e);
            },
        }
        proof {
            lemma_sorted_nodes_accepted(nv);
            lemma_ascending_ids_len(nv);
            lemma_ascending_len(ev);
            assert forall|k: int| 0 <= k < ev.len() implies attached(nv, #[trigger] ev[k]) by {
                assert(ev[k] == edges@[k]@);
            }
        }
        match index_edges(nodes.as_slice(), edges.as_slice()) {
            Ok(topology) => Ok(Graph::from_indexed_parts(nodes, edges, topology)),
            Err(e) => Err(e),
        }
    }

    /// The nodes in identifier order.
    pub fn nodes(&self) -> (r: &[Node])
        ensures
            node_views(r@) == self@.nodes,
            ids_ascending(self@.nodes),
    {
        proof {
            use_type_invariant(self);
        }
        self.nodes.as_slice()
    }

    /// The edges in canonical order.
    pub fn edges(&self) -> (r: &[Edge])
        ensures
            edge_views(r@) == self@.edges,
            ascending_edges(self@.edges),
            forall|k: int| 0 <= k < self@.edges.len() ==> attached(self@.nodes, #[trigger] self@.edges[k]),
    {
        proof {
            use_type_invariant(self);
        }
        self.edges.as_slice()
    }

    /// The number of nodes.
    pub fn node_count(&self) -> (r: usize)
        ensures
            r == self@.nodes.len(),
    {
        self.nodes.len()
    }

    /// The number of edges.
    pub fn edge_count(&self) -> (r: usize)
        ensures
            r == self@.edges.len(),
    {
        self.edges.len()
    }

    /// The topology of node positions: edge `k` runs from the position of
    /// its source to the position of its target.
    pub fn topology(&self) -> (r: &Topology)
        ensures
            r@ == edge_model(self@.nodes, self@.edges),
    {
        proof {
            use_type_invariant(self);
        }
        &self.topology
    }

    /// The position of the node with identifier `id`.
    pub fn node_index(&self, id: &str) -> (r: Option<NodeIndex>)
        ensures
            match r {
                Some(i) => has_id(self@.nodes, id@) && i.0 == position(self@.nodes, id@),
                None => !has_id(self@.nodes, id@),
            },
    {
        proof {
            use_type_invariant(self);
        }
        let count = self.topology.node_count();
        match find_node(self.nodes.as_slice(), id) {
            Some(i) => {
                proof {
                    assert(node_views(self.nodes@)[i as int].id == id@);
                    assert(count == self.nodes@.len());
                }
                Some(NodeIndex::new(i as u32))
            },
            None => None,
        }
    }

    /// The node with identifier `id`.
    pub fn node(&self, id: &str) -> (r: Option<&Node>)
        ensures
            match r {
                Some(n) => has_id(self@.nodes, id@) && n@ == self@.nodes[position(self@.nodes, id@)],
                None => !has_id(self@.nodes, id@),
            },
    {
        proof {
            use_type_invariant(self);
        }
        match find_node(self.nodes.as_slice(), id) {
            Some(i) => {
                proof {
                    assert(node_views(self.nodes@)[i as int].id == id@);
                }
                Some(&self.nodes[i])
            },
            None => None,
        }
    }
}

/// Whether the identifiers are non-empty and strictly increasing.
fn sorted_ids(nodes: &Vec<Node>) -> (r: bool)
    ensures
        r <==> ids_ascending(node_views(nodes@)) && forall|j: int|
            0 <= j < nodes@.len() ==> (#[trigger] node_views(nodes@)[j]).id.len() > 0,
{
    let ghost v = node_views(nodes@);
    let mut i: usize = 0;
    while i < nodes.len()
        invariant
            v == node_views(nodes@),
            i <= nodes@.len(),
            ids_ascending(v.take(i as int)),
            forall|j: int| 0 <= j < i ==> (#[trigger] v[j]).id.len() > 0,
        decreases nodes@.len() - i,
    {
        assert(v[i as int] == nodes@[i as int]@);
        if nodes[i].id.as_str().is_empty() {
            assert(v[i as int].id.len() == 0);
            return false;
        }
        if i > 0 {
            assert(v[i - 1] == nodes@[i - 1]@);
            if compare_text(nodes[i - 1].id.as_str(), nodes[i].id.as_str()) >= 0 {
                assert(text_order(v[i - 1].id, v[i as int].id) >= 0);
                return false;
            }
            proof {
                assert forall|a: int, b: int| 0 <= a < b < i + 1 implies text_order(
                    #[trigger] v.take(i + 1)[a].id,
                    #[trigger] v.take(i + 1)[b].id,
                ) < 0 by {
                    assert(v.take(i + 1)[a] == v[a]);
                    assert(v.take(i + 1)[b] == v[b]);
                    if b < i {
                        assert(v.take(i as int)[a] == v[a]);
                        assert(v.take(i as int)[b] == v[b]);
                    } else if a < i - 1 {
                        assert(v.take(i as int)[a] == v[a]);
                        assert(v.take(i as int)[i - 1] == v[i - 1]);
                        lemma_text_order_trans(v[a].id, v[i - 1].id, v[b].id);
                    }
                }
            }
        } else {
            assert(v.take(1).len() == 1);
        }
        i += 1;
    }
    assert(v.take(v.len() as int) =~= v);
    true
}

/// Whether the edges name their extractors and are in strictly increasing
/// canonical order.
fn sorted_edges(edges: &Vec<Edge>) -> (r: bool)
    ensures
        r <==> ascending_edges(edge_views(edges@)) && extractors_named(edge_views(edges@)),
{
    let ghost v = edge_views(edges@);
    let mut i: usize = 1;
    if edges.len() == 0 {
        return true;
    }
    assert(v[0] == edges@[0]@);
    if edges[0].provenance.extractor.as_str().is_empty() {
        assert(v[0].extractor.len() == 0);
        return false;
    }
    while i < edges.len()
        invariant
            v == edge_views(edges@),
            1 <= i <= edges@.len(),
            ascending_edges(v.take(i as int)),
            forall|j: int| 0 <= j < i ==> (#[trigger] v[j]).extractor.len() > 0,
        decreases edges@.len() - i,
    {
        assert(v[i as int] == edges@[i as int]@);
        assert(v[i - 1] == edges@[i - 1]@);
        if edges[i].provenance.extractor.as_str().is_empty() {
            assert(v[i as int].extractor.len() == 0);
            return false;
        }
        if compare_edges(&edges[i - 1], &edges[i]) >= 0 {
            assert(edge_order(v[i - 1], v[i as int]) >= 0);
            return false;
        }
        proof {
            assert forall|a: int, b: int| 0 <= a < b < i + 1 implies edge_order(
                #[trigger] v.take(i + 1)[a],
                #[trigger] v.take(i + 1)[b],
            ) < 0 by {
                assert(v.take(i + 1)[a] == v[a]);
                assert(v.take(i + 1)[b] == v[b]);
                if b < i {
                    assert(v.take(i as int)[a] == v[a]);
                    assert(v.take(i as int)[b] == v[b]);
                } else if a < i - 1 {
                    assert(v.take(i as int)[a] == v[a]);
                    assert(v.take(i as int)[i - 1] == v[i - 1]);
                    lemma_edge_order_trans(v[a], v[i - 1], v[b]);
                }
            }
        }
        i += 1;
    }
    assert(v.take(v.len() as int) =~= v);
    true
}

/// Nodes with non-empty, strictly increasing identifiers are all accepted.
proof fn lemma_sorted_nodes_accepted(nodes: Seq<NodeView>)
    requires
        ids_ascending(nodes),
        forall|j: int| 0 <= j < nodes.len() ==> (#[trigger] nodes[j]).id.len() > 0,
    ensures
        nodes_accepted(nodes),
{
    assert forall|j: int| 0 <= j < nodes.len() implies #[trigger] node_accepted(nodes, j) by {
        assert(nodes[j].id.len() > 0);
        assert forall|i: int| 0 <= i < j && (#[trigger] nodes[i]).id == nodes[j].id implies nodes[i] == nodes[j] by {
            lemma_text_order_sound(nodes[i].id, nodes[j].id);
        }
    }
}

/// One step of adding the nodes in order: the table tracks the accepted
/// prefix, and a refusal is the first refused node.
proof fn lemma_accept_step(
    nodes: Seq<NodeView>,
    i: int,
    before: Seq<NodeView>,
    after: Seq<NodeView>,
    r: Result<()>,
)
    requires
        0 <= i < nodes.len(),
        ids_ascending(before),
        before.to_set() == nodes.take(i).to_set(),
        forall|j: int| 0 <= j < i ==> #[trigger] node_accepted(nodes, j),
        node_addition(before, nodes[i], after, r),
    ensures
        r is Ok ==> {
            &&& node_accepted(nodes, i)
            &&& after.to_set() == nodes.take(i + 1).to_set()
        },
        r matches Err(e) ==> first_refused_node(nodes, e),
{
    let node = nodes[i];
    assert(nodes.take(i + 1) =~= nodes.take(i).push(node));
    assert forall|x: NodeView| nodes.take(i + 1).contains(x) <==> nodes.take(i).contains(x) || x == node by {
        if nodes.take(i + 1).contains(x) && x != node {
            let m = choose|m: int| 0 <= m < i + 1 && #[trigger] nodes.take(i + 1)[m] == x;
            assert(nodes.take(i)[m] == x);
        }
        if nodes.take(i).contains(x) {
            let m = choose|m: int| 0 <= m < i && #[trigger] nodes.take(i)[m] == x;
            assert(nodes.take(i + 1)[m] == x);
        }
        if x == node {
            assert(nodes.take(i + 1)[i] == x);
        }
    }
    assert(nodes.take(i + 1).to_set() =~= nodes.take(i).to_set().insert(node)) by {
        assert forall|x: NodeView| #[trigger] nodes.take(i + 1).to_set().contains(x) == nodes.take(i).to_set().insert(
            node,
        ).contains(x) by {
            assert(nodes.take(i + 1).contains(x) <==> nodes.take(i).contains(x) || x == node);
        }
    }
    if node.id.len() == 0 {
        assert(!node_accepted(nodes, i));
    }
    if node.id.len() > 0 && has_id(before, node.id) {
        let p = position(before, node.id);
        assert(before.to_set().contains(before[p]));
        assert(nodes.take(i).contains(before[p]));
        let m = choose|m: int| 0 <= m < i && #[trigger] nodes.take(i)[m] == before[p];
        assert(nodes[m] == before[p]);
        if before[p] == node {
            assert(after.to_set() =~= nodes.take(i + 1).to_set());
            assert forall|k: int| 0 <= k < i && (#[trigger] nodes[k]).id == node.id implies nodes[k] == node by {
                assert(nodes.take(i)[k] == nodes[k]);
                assert(before.to_set().contains(nodes[k]));
                let q = choose|q: int| 0 <= q < before.len() && #[trigger] before[q] == nodes[k];
                lemma_text_order_sound(before[q].id, before[p].id);
                if q < p {
                    assert(text_order(before[q].id, before[p].id) < 0);
                } else if q > p {
                    assert(text_order(before[p].id, before[q].id) < 0);
                }
            }
        } else {
            assert(before[p].id == node.id);
            assert(nodes[m].id == node.id && nodes[m] != node);
            assert(!node_accepted(nodes, i));
        }
    } else if node.id.len() > 0 {
        assert forall|k: int| 0 <= k < i && (#[trigger] nodes[k]).id == node.id implies nodes[k] == node by {
            assert(nodes.take(i)[k] == nodes[k]);
            assert(before.to_set().contains(nodes[k]));
            let q = choose|q: int| 0 <= q < before.len() && #[trigger] before[q] == nodes[k];
            assert(before[q].id == node.id);
        }
    }
}

/// A table holding exactly the distinct accepted nodes has the same
/// identifiers as the input and as many entries as it has distinct nodes.
proof fn lemma_table_agrees(nodes: Seq<NodeView>, table: Seq<NodeView>)
    requires
        table.to_set() == nodes.to_set(),
    ensures
        forall|id: Seq<char>| has_id(table, id) <==> has_id(nodes, id),
{
    assert forall|id: Seq<char>| has_id(table, id) <==> has_id(nodes, id) by {
        if has_id(table, id) {
            let q = choose|q: int| 0 <= q < table.len() && (#[trigger] table[q]).id == id;
            assert(table.to_set().contains(table[q]));
            let m = choose|m: int| 0 <= m < nodes.len() && #[trigger] nodes[m] == table[q];
            assert(nodes[m].id == id);
        }
        if has_id(nodes, id) {
            let m = choose|m: int| 0 <= m < nodes.len() && (#[trigger] nodes[m]).id == id;
            assert(nodes.to_set().contains(nodes[m]));
            let q = choose|q: int| 0 <= q < table.len() && #[trigger] table[q] == nodes[m];
            assert(table[q].id == id);
        }
    }
}

} // verus!
