//! GraphML for numeric topologies: one `graph` element whose nodes are
//! named `n` and their index, then edges in increasing `(source, target)`
//! order named `e` and their position.
use super::dot::{pair_order, sorted_edges};
use super::text::{decimal, decimal_text};
use crate::topology::{pairs, EdgeEndpoints, NodeIndex, Topology, UndirectedTopology};
use vstd::prelude::*;
use vstd::string::StringExecFns;

verus! {

/// The line that declares node `v`.
pub open spec fn graphml_node(v: nat) -> Seq<char> {
    "    <node id=\"n"@ + decimal(v) + "\"/>\n"@
}

/// The lines that declare nodes `0..n`.
pub open spec fn graphml_nodes(n: nat) -> Seq<char>
    decreases n,
{
    if n == 0 {
        Seq::empty()
    } else {
        graphml_nodes((n - 1) as nat) + graphml_node((n - 1) as nat)
    }
}

/// The line that declares edge number `i`, from `e.0` to `e.1`.
pub open spec fn graphml_edge(i: nat, e: (int, int)) -> Seq<char> {
    "    <edge id=\"e"@ + decimal(i) + "\" source=\"n"@ + decimal(e.0 as nat) + "\" target=\"n"@ + decimal(
        e.1 as nat,
    ) + "\"/>\n"@
}

/// The lines that declare `edges`, numbered in order.
pub open spec fn graphml_edges(edges: Seq<(int, int)>) -> Seq<char>
    decreases edges.len(),
{
    if edges.len() == 0 {
        Seq::empty()
    } else {
        graphml_edges(edges.drop_last()) + graphml_edge((edges.len() - 1) as nat, edges.last())
    }
}

/// The GraphML text of a graph on `n` nodes with `edges`.
pub open spec fn graphml_text(directed: bool, n: nat, edges: Seq<(int, int)>) -> Seq<char> {
    "<?xml version=\"1.0\" encoding=\"UTF-8\"?>\n<graphml xmlns=\"http://graphml.graphdrawing.org/xmlns\">\n"@
        + "  <graph id=\"G\" edgedefault=\""@ + (if directed {
        "directed"@
    } else {
        "undirected"@
    }) + "\">\n"@ + graphml_nodes(n) + graphml_edges(edges.sort_by(pair_order())) + "  </graph>\n</graphml>\n"@
}

fn render(n: usize, edges: &[EdgeEndpoints<NodeIndex>], directed: bool) -> (r: String)
    requires
        n <= u32::MAX,
    ensures
        r@ == graphml_text(directed, n as nat, pairs(edges@)),
{
    let mut out = String::new();
    out.append("<?xml version=\"1.0\" encoding=\"UTF-8\"?>\n<graphml xmlns=\"http://graphml.graphdrawing.org/xmlns\">\n");
    out.append("  <graph id=\"G\" edgedefault=\"");
    if directed {
        out.append("directed");
    } else {
        out.append("undirected");
    }
    out.append("\">\n");
    let ghost head = out@;
    let mut v: usize = 0;
    while v < n
        invariant
            v <= n <= u32::MAX,
            out@ == head + graphml_nodes(v as nat),
        decreases n - v,
    {
        out.append("    <node id=\"n");
        out.append(decimal_text(v as u64).as_str());
        out.append("\"/>\n");
        v += 1;
        proof {
            assert(out@ =~= head + graphml_nodes(v as nat));
        }
    }
    let sorted = sorted_edges(edges);
    let ghost middle = out@;
    let mut i: usize = 0;
    while i < sorted.len()
        invariant
            i <= sorted@.len(),
            out@ == middle + graphml_edges(pairs(sorted@).take(i as int)),
        decreases sorted@.len() - i,
    {
        let e = sorted[i];
        out.append("    <edge id=\"e");
        out.append(decimal_text(i as u64).as_str());
        out.append("\" source=\"n");
        out.append(decimal_text(e.source.0 as u64).as_str());
        out.append("\" target=\"n");
        out.append(decimal_text(e.target.0 as u64).as_str());
        out.append("\"/>\n");
        proof {
            let done = pairs(sorted@).take(i + 1);
            assert(done.drop_last() =~= pairs(sorted@).take(i as int));
            assert(done.last() == (e.source.0 as int, e.target.0 as int));
            assert(out@ =~= middle + graphml_edges(done));
        }
        i += 1;
    }
    out.append("  </graph>\n</graphml>\n");
    proof {
        assert(pairs(sorted@).take(sorted@.len() as int) =~= pairs(sorted@));
        assert(out@ =~= graphml_text(directed, n as nat, pairs(edges@)));
    }
    out
}

/// Deterministic GraphML for a directed topology.
pub fn topology_to_graphml(graph: &Topology) -> (r: String)
    ensures
        r@ == graphml_text(true, graph@.node_count, graph@.edges),
{
    render(graph.node_count(), graph.endpoints(), true)
}

/// Deterministic GraphML for an undirected topology.
pub fn undirected_to_graphml(graph: &UndirectedTopology) -> (r: String)
    ensures
        r@ == graphml_text(false, graph@.node_count, graph@.edges),
{
    render(graph.node_count(), graph.endpoints(), false)
}

} // verus!
