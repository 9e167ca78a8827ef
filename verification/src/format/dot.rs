//! Strict DOT text for numeric topologies: every node on a line of its
//! own in increasing order, then every edge in increasing
//! `(source, target)` order, repeats kept.
use crate::topology::{pairs, EdgeEndpoints, NodeIndex, Topology, UndirectedTopology};
use crate::util::text_of;
use super::text::{decimal, push_decimal};
use vstd::prelude::*;
use vstd::relations::{sorted_by, total_ordering};

verus! {

/// Pairs ordered by their first, then their second position.
pub open spec fn pair_order() -> spec_fn((int, int), (int, int)) -> bool {
    |a: (int, int), b: (int, int)| a.0 < b.0 || (a.0 == b.0 && a.1 <= b.1)
}

/// The line that declares node `v`.
pub open spec fn node_line(v: nat) -> Seq<char> {
    seq![' ', ' '] + decimal(v) + seq![';', '\n']
}

/// The lines that declare nodes `0..n`.
pub open spec fn node_lines(n: nat) -> Seq<char>
    decreases n,
{
    if n == 0 {
        Seq::empty()
    } else {
        node_lines((n - 1) as nat) + node_line((n - 1) as nat)
    }
}

/// The operator between an edge's ends.
pub open spec fn arrow(directed: bool) -> Seq<char> {
    if directed {
        seq!['-', '>']
    } else {
        seq!['-', '-']
    }
}

/// The line that declares edge `e`.
pub open spec fn edge_line(e: (int, int), directed: bool) -> Seq<char> {
    seq![' ', ' '] + decimal(e.0 as nat) + seq![' '] + arrow(directed) + seq![' '] + decimal(e.1 as nat) + seq![
        ';',
        '\n',
    ]
}

/// The lines that declare `edges`, in order.
pub open spec fn edge_lines(edges: Seq<(int, int)>, directed: bool) -> Seq<char>
    decreases edges.len(),
{
    if edges.len() == 0 {
        Seq::empty()
    } else {
        edge_lines(edges.drop_last(), directed) + edge_line(edges.last(), directed)
    }
}

/// The first line of a graph of the given kind.
pub open spec fn opening(directed: bool) -> Seq<char> {
    seq!['s', 't', 'r', 'i', 'c', 't', ' '] + (if directed {
        seq!['d', 'i', 'g', 'r', 'a', 'p', 'h']
    } else {
        seq!['g', 'r', 'a', 'p', 'h']
    }) + seq![' ', 'G', ' ', '{', '\n']
}

/// The DOT text of a graph on `n` nodes with `edges`.
pub open spec fn dot_text(directed: bool, n: nat, edges: Seq<(int, int)>) -> Seq<char> {
    opening(directed) + node_lines(n) + edge_lines(edges.sort_by(pair_order()), directed) + seq!['}', '\n']
}

proof fn lemma_pair_order_total()
    ensures
        total_ordering(pair_order()),
{
    let r = pair_order();
    assert(vstd::relations::reflexive(r));
    assert(vstd::relations::antisymmetric(r));
    assert(vstd::relations::transitive(r));
    assert(vstd::relations::strongly_connected(r));
}

fn push_chars(out: &mut Vec<char>, text: &[char])
    ensures
        final(out)@ == old(out)@ + text@,
{
    let mut i: usize = 0;
    while i < text.len()
        invariant
            i <= text@.len(),
            out@ == old(out)@ + text@.take(i as int),
        decreases text@.len() - i,
    {
        out.push(text[i]);
        i += 1;
        assert(out@ =~= old(out)@ + text@.take(i as int));
    }
    assert(text@.take(text@.len() as int) =~= text@);
}

/// The edges in increasing `(source, target)` order.
pub(crate) fn sorted_edges(edges: &[EdgeEndpoints<NodeIndex>]) -> (r: Vec<EdgeEndpoints<NodeIndex>>)
    ensures
        pairs(r@) == pairs(edges@).sort_by(pair_order()),
{
    let ghost input = pairs(edges@);
    let mut sorted: Vec<EdgeEndpoints<NodeIndex>> = Vec::new();
    let mut i: usize = 0;
    proof {
        lemma_pair_order_total();
        broadcast use vstd::seq_lib::group_to_multiset_ensures;
        assert(input.take(0) =~= Seq::<(int, int)>::empty());
        assert(pairs(sorted@) =~= Seq::<(int, int)>::empty());
    }
    while i < edges.len()
        invariant
            input == pairs(edges@),
            i <= edges@.len(),
            sorted_by(pairs(sorted@), pair_order()),
            pairs(sorted@).to_multiset() == input.take(i as int).to_multiset(),
            sorted@.len() == i,
        decreases edges@.len() - i,
    {
        let e = edges[i];
        let ghost x = (e.source.0 as int, e.target.0 as int);
        let ghost before = pairs(sorted@);
        let mut lo: usize = 0;
        let mut hi: usize = sorted.len();
        while lo < hi
            invariant
                lo <= hi <= sorted@.len(),
                before == pairs(sorted@),
                sorted_by(before, pair_order()),
                x == (e.source.0 as int, e.target.0 as int),
                forall|k: int| 0 <= k < lo ==> (pair_order())(#[trigger] before[k], x),
                forall|k: int| hi <= k < before.len() ==> !(pair_order())(#[trigger] before[k], x),
            decreases hi - lo,
        {
            let mid = lo + (hi - lo) / 2;
            let m = sorted[mid];
            let below = m.source.0 < e.source.0 || (m.source.0 == e.source.0 && m.target.0 <= e.target.0);
            proof {
                assert(before[mid as int] == (m.source.0 as int, m.target.0 as int));
            }
            if below {
                proof {
                    assert forall|k: int| 0 <= k < mid + 1 implies (pair_order())(#[trigger] before[k], x) by {
                        if k < mid {
                            assert((pair_order())(before[k], before[mid as int]));
                        }
                    }
                }
                lo = mid + 1;
            } else {
                proof {
                    assert forall|k: int| mid <= k < before.len() implies !(pair_order())(#[trigger] before[k], x) by {
                        if k > mid {
                            assert((pair_order())(before[mid as int], before[k]));
                        }
                    }
                }
                hi = mid;
            }
        }
        sorted.insert(lo, e);
        proof {
            broadcast use vstd::seq_lib::group_to_multiset_ensures;
            assert(pairs(sorted@) =~= before.insert(lo as int, x));
            vstd::seq_lib::to_multiset_insert(before, lo as int, x);
            assert(input.take(i + 1) =~= input.take(i as int).push(x));
            let after = pairs(sorted@);
            assert forall|a: int, b: int| 0 <= a < b < after.len() implies (pair_order())(#[trigger] after[a], #[trigger] after[b]) by {
                if a < lo && b == lo {
                    assert(after[a] == before[a]);
                } else if a < lo && b > lo {
                    assert(after[a] == before[a]);
                    assert(after[b] == before[b - 1]);
                } else if a == lo {
                    assert(after[b] == before[b - 1]);
                    assert(!(pair_order())(before[b - 1], x));
                } else if a > lo {
                    assert(after[a] == before[a - 1]);
                    assert(after[b] == before[b - 1]);
                } else {
                    assert(after[a] == before[a]);
                    assert(after[b] == before[b]);
                }
            }
        }
        i += 1;
    }
    proof {
        assert(input.take(input.len() as int) =~= input);
        input.lemma_sort_by_ensures(pair_order());
        vstd::seq_lib::lemma_sorted_unique(pairs(sorted@), input.sort_by(pair_order()), pair_order());
    }
    sorted
}

/// Appends the line of every node `0..n` and of every edge in `sorted`.
fn push_body(out: &mut Vec<char>, n: usize, sorted: &[EdgeEndpoints<NodeIndex>], directed: bool)
    requires
        n <= u32::MAX,
    ensures
        final(out)@ == old(out)@ + node_lines(n as nat) + edge_lines(pairs(sorted@), directed),
{
    let mut v: usize = 0;
    while v < n
        invariant
            v <= n <= u32::MAX,
            out@ == old(out)@ + node_lines(v as nat),
        decreases n - v,
    {
        let ghost before = out@;
        out.push(' ');
        out.push(' ');
        push_decimal(out, v as u64);
        out.push(';');
        out.push('\n');
        assert(out@ =~= before + node_line(v as nat));
        v += 1;
        assert(out@ =~= old(out)@ + node_lines(v as nat));
    }
    let ghost with_nodes = out@;
    let mut k: usize = 0;
    while k < sorted.len()
        invariant
            k <= sorted@.len(),
            with_nodes == old(out)@ + node_lines(n as nat),
            out@ == with_nodes + edge_lines(pairs(sorted@).take(k as int), directed),
        decreases sorted@.len() - k,
    {
        let ghost before = out@;
        let e = sorted[k];
        out.push(' ');
        out.push(' ');
        push_decimal(out, e.source.0 as u64);
        out.push(' ');
        if directed {
            out.push('-');
            out.push('>');
        } else {
            out.push('-');
            out.push('-');
        }
        out.push(' ');
        push_decimal(out, e.target.0 as u64);
        out.push(';');
        out.push('\n');
        proof {
            assert(pairs(sorted@)[k as int] == (e.source.0 as int, e.target.0 as int));
            assert(out@ =~= before + edge_line(pairs(sorted@)[k as int], directed));
            assert(pairs(sorted@).take(k + 1).drop_last() =~= pairs(sorted@).take(k as int));
        }
        k += 1;
    }
    assert(pairs(sorted@).take(sorted@.len() as int) =~= pairs(sorted@));
}

fn render(n: usize, edges: &[EdgeEndpoints<NodeIndex>], directed: bool) -> (r: String)
    requires
        n <= u32::MAX,
    ensures
        r@ == dot_text(directed, n as nat, pairs(edges@)),
{
    let mut out: Vec<char> = Vec::new();
    push_chars(&mut out, &['s', 't', 'r', 'i', 'c', 't', ' ']);
    if directed {
        push_chars(&mut out, &['d', 'i', 'g', 'r', 'a', 'p', 'h']);
    } else {
        push_chars(&mut out, &['g', 'r', 'a', 'p', 'h']);
    }
    push_chars(&mut out, &[' ', 'G', ' ', '{', '\n']);
    proof {
        assert(out@ =~= opening(directed));
    }
    let sorted = sorted_edges(edges);
    push_body(&mut out, n, sorted.as_slice(), directed);
    out.push('}');
    out.push('\n');
    proof {
        assert(out@ =~= dot_text(directed, n as nat, pairs(edges@)));
    }
    text_of(out)
}

/// The strict DOT text of a directed topology.
pub fn topology_to_dot(graph: &Topology) -> (r: String)
    ensures
        r@ == dot_text(true, graph@.node_count, graph@.edges),
{
    let n = graph.node_count();
    render(n, graph.endpoints(), true)
}

/// The strict DOT text of an undirected topology.
pub fn undirected_to_dot(graph: &UndirectedTopology) -> (r: String)
    ensures
        r@ == dot_text(false, graph@.node_count, graph@.edges),
{
    let n = graph.node_count();
    render(n, graph.endpoints(), false)
}

} // verus!
