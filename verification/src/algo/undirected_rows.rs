//! Per-node rows of an undirected topology restricted to the edges a
//! filter allows: the allowed incident edges, or the nodes they lead to.
use super::reach::answers;
use crate::topology::{edge_ints, EdgeIndex, GraphModel, NodeIndex, UndirectedTopology};
use vstd::prelude::*;

verus! {

/// The edges of `row` that `mask` allows, in order.
pub open spec fn allowed(row: Seq<int>, mask: Seq<bool>) -> Seq<int>
    decreases row.len(),
{
    if row.len() == 0 {
        Seq::empty()
    } else {
        let prev = allowed(row.drop_last(), mask);
        if mask[row.last()] {
            prev.push(row.last())
        } else {
            prev
        }
    }
}

/// The endpoints opposite `v` of the edges `row`.
pub open spec fn far_ends(g: GraphModel, row: Seq<int>, v: int) -> Seq<int> {
    row.map_values(|e: int| if g.edges[e].0 == v { g.edges[e].1 } else { g.edges[e].0 })
}

/// `offsets` cuts `items` into one row per node: row `v` runs from
/// `offsets[v]` to `offsets[v + 1]` and is `row(v)`.
pub open spec fn cut_rows(n: nat, offsets: Seq<usize>, items: Seq<int>, row: spec_fn(int) -> Seq<int>) -> bool {
    &&& offsets.len() == n + 1
    &&& offsets[0] == 0
    &&& offsets[n as int] == items.len()
    &&& forall|v: int| 0 <= v < n ==> #[trigger] offsets[v] <= offsets[v + 1]
    &&& forall|v: int| 0 <= v < n ==> items.subrange(#[trigger] offsets[v] as int, offsets[v + 1] as int) == row(v)
}

/// Offsets that never fall end below the last one.
proof fn lemma_offsets_below(offsets: Seq<usize>, v: int, w: int)
    requires
        0 <= w < v < offsets.len(),
        forall|x: int| 0 <= x < v ==> #[trigger] offsets[x] <= offsets[x + 1],
    ensures
        offsets[w] <= offsets[w + 1] <= offsets[v],
    decreases v - w,
{
    if w + 1 < v {
        lemma_offsets_below(offsets, v, w + 1);
    }
}

/// Asks `allows_edge` once for every edge, in edge order.
fn allowed_mask<F: Fn(EdgeIndex) -> bool>(graph: &UndirectedTopology, allows_edge: &F) -> (r: Vec<bool>)
    requires
        forall|e: EdgeIndex| call_requires(*allows_edge, (e,)),
    ensures
        answers(*allows_edge, graph@, r@),
{
    let m = graph.edge_count();
    let mut mask: Vec<bool> = Vec::new();
    let mut e: usize = 0;
    while e < m
        invariant
            e <= m == graph@.edges.len() <= u32::MAX,
            mask@.len() == e,
            forall|e: EdgeIndex| call_requires(*allows_edge, (e,)),
            forall|f: int|
                0 <= f < e ==> call_ensures(*allows_edge, (EdgeIndex(f as u32),), #[trigger] mask@[f]),
        decreases m - e,
    {
        let keep = allows_edge(EdgeIndex::new(e as u32));
        mask.push(keep);
        e = e + 1;
    }
    mask
}

/// The allowed edges incident to each node, once each and in increasing
/// edge order, cut into rows by offsets.
pub(crate) fn undirected_snapshot<F: Fn(EdgeIndex) -> bool>(graph: &UndirectedTopology, allows_edge: F) -> (r: (
    Vec<usize>,
    Vec<EdgeIndex>,
))
    requires
        forall|e: EdgeIndex| call_requires(allows_edge, (e,)),
    ensures
        exists|mask: Seq<bool>|
            #[trigger] answers(allows_edge, graph@, mask) && cut_rows(
                graph@.node_count,
                r.0@,
                edge_ints(r.1@),
                |v: int| allowed(graph@.incident(v), mask),
            ),
{
    let mask = allowed_mask(graph, &allows_edge);
    let (offsets, edges, _) = gather_rows(graph, &mask, false);
    (offsets, edges)
}

/// The nodes that the allowed edges incident to each node lead to, in
/// increasing edge order, a loop once, cut into rows by offsets.
pub(crate) fn undirected_neighbors<F: Fn(EdgeIndex) -> bool>(graph: &UndirectedTopology, allows_edge: F) -> (r: (
    Vec<usize>,
    Vec<NodeIndex>,
))
    requires
        forall|e: EdgeIndex| call_requires(allows_edge, (e,)),
    ensures
        exists|mask: Seq<bool>|
            #[trigger] answers(allows_edge, graph@, mask) && cut_rows(
                graph@.node_count,
                r.0@,
                r.1@.map_values(|x: NodeIndex| x.0 as int),
                |v: int| far_ends(graph@, allowed(graph@.incident(v), mask), v),
            ),
{
    let mask = allowed_mask(graph, &allows_edge);
    let (offsets, _, nodes) = gather_rows(graph, &mask, true);
    (offsets, nodes)
}

/// The allowed incident edges of every node, and, when `far` is set, the
/// nodes they lead to.
#[verifier::rlimit(100)]
#[verifier::spinoff_prover]
fn gather_rows(graph: &UndirectedTopology, mask: &Vec<bool>, far: bool) -> (r: (Vec<usize>, Vec<EdgeIndex>, Vec<NodeIndex>))
    requires
        mask@.len() == graph@.edges.len(),
    ensures
        cut_rows(graph@.node_count, r.0@, edge_ints(r.1@), |v: int| allowed(graph@.incident(v), mask@)),
        far ==> cut_rows(
            graph@.node_count,
            r.0@,
            r.2@.map_values(|x: NodeIndex| x.0 as int),
            |v: int| far_ends(graph@, allowed(graph@.incident(v), mask@), v),
        ),
{
    let n = graph.node_count();
    let ghost g = graph@;
    let mut offsets: Vec<usize> = Vec::new();
    let mut edges: Vec<EdgeIndex> = Vec::new();
    let mut nodes: Vec<NodeIndex> = Vec::new();
    offsets.push(0);
    let mut v: usize = 0;
    while v < n
        invariant
            g == graph@,
            v <= n == g.node_count <= u32::MAX,
            mask@.len() == g.edges.len(),
            g.valid(),
            offsets@.len() == v + 1,
            offsets@[0] == 0,
            offsets@[v as int] == edges@.len(),
            far ==> nodes@.len() == edges@.len(),
            forall|w: int| 0 <= w < v ==> #[trigger] offsets@[w] <= offsets@[w + 1],
            forall|w: int|
                0 <= w < v ==> edge_ints(edges@).subrange(#[trigger] offsets@[w] as int, offsets@[w + 1] as int)
                    == allowed(g.incident(w), mask@),
            far ==> forall|w: int|
                0 <= w < v ==> nodes@.map_values(|x: NodeIndex| x.0 as int).subrange(
                    #[trigger] offsets@[w] as int,
                    offsets@[w + 1] as int,
                ) == far_ends(g, allowed(g.incident(w), mask@), w),
        decreases n - v,
    {
        let row = graph.incident_edges(NodeIndex(v as u32));
        let ghost start = edges@.len();
        let ghost e0 = edges@;
        let ghost n0 = nodes@;
        let mut k: usize = 0;
        while k < row.len()
            invariant
                g == graph@,
                v < n == g.node_count <= u32::MAX,
                mask@.len() == g.edges.len(),
                g.valid(),
                edge_ints(row@) == g.incident(v as int),
                k <= row@.len(),
                edges@.len() == start + allowed(g.incident(v as int).take(k as int), mask@).len(),
                edges@.subrange(0, start as int) == e0,
                edge_ints(edges@).subrange(start as int, edges@.len() as int) == allowed(
                    g.incident(v as int).take(k as int),
                    mask@,
                ),
                far ==> nodes@.len() == edges@.len(),
                far ==> nodes@.subrange(0, start as int) == n0,
                far ==> nodes@.map_values(|x: NodeIndex| x.0 as int).subrange(start as int, nodes@.len() as int)
                    == far_ends(g, allowed(g.incident(v as int).take(k as int), mask@), v as int),
            decreases row@.len() - k,
        {
            let e = row[k];
            proof {
                assert(edge_ints(row@)[k as int] == e.0 as int);
                assert(g.incident(v as int).take(k + 1).drop_last() =~= g.incident(v as int).take(k as int));
                assert(g.incident(v as int).take(k + 1).last() == e.0 as int);
                crate::topology::model::lemma_adj_members(g.edges, g.edges.len(), 2, v as int);
                assert(g.incident(v as int).contains(e.0 as int));
            }
            let ghost eb = edges@;
            let ghost nb = nodes@;
            let ghost kept = allowed(g.incident(v as int).take(k as int), mask@);
            if mask[e.0 as usize] {
                edges.push(e);
                proof {
                    assert(edge_ints(edges@).subrange(start as int, edges@.len() as int) =~= edge_ints(eb).subrange(
                        start as int,
                        eb.len() as int,
                    ).push(e.0 as int));
                    assert(edges@.subrange(0, start as int) =~= eb.subrange(0, start as int));
                }
                if far {
                    let ends = graph.edge_endpoints(e);
                    let other = match ends {
                        Some(ends) => if ends.source.0 as usize == v {
                            ends.target
                        } else {
                            ends.source
                        },
                        None => NodeIndex(v as u32),
                    };
                    nodes.push(other);
                    proof {
                        let fe = if g.edges[e.0 as int].0 == v as int { g.edges[e.0 as int].1 } else { g.edges[e.0 as int].0 };
                        assert(other.0 as int == fe);
                        assert(far_ends(g, kept.push(e.0 as int), v as int) =~= far_ends(g, kept, v as int).push(fe));
                        assert(nodes@.map_values(|x: NodeIndex| x.0 as int).subrange(start as int, nodes@.len() as int)
                            =~= nb.map_values(|x: NodeIndex| x.0 as int).subrange(start as int, nb.len() as int).push(fe));
                        assert(nodes@.subrange(0, start as int) =~= nb.subrange(0, start as int));
                    }
                }
            }
            k += 1;
        }
        proof {
            assert(edge_ints(row@).len() == row@.len());
            assert(k == row@.len());
            assert(g.incident(v as int).len() == row@.len());
            assert(g.incident(v as int).take(row@.len() as int) =~= g.incident(v as int));
            assert(g.incident(v as int).take(k as int) == g.incident(v as int));
            assert(edge_ints(edges@).subrange(start as int, edges@.len() as int) == allowed(g.incident(v as int), mask@));
            assert(edge_ints(edges@).subrange(start as int, edges@.len() as int) == allowed(g.incident(v as int), mask@));
            if far {
                assert(nodes@.map_values(|x: NodeIndex| x.0 as int).subrange(start as int, nodes@.len() as int) == far_ends(g, allowed(g.incident(v as int), mask@), v as int));
            }
            assert forall|w: int| 0 <= w < v implies edge_ints(edges@).subrange(
                #[trigger] offsets@[w] as int,
                offsets@[w + 1] as int,
            ) == allowed(g.incident(w), mask@) by {
                lemma_offsets_below(offsets@, v as int, w);
                assert(edge_ints(edges@).subrange(offsets@[w] as int, offsets@[w + 1] as int) =~= edge_ints(e0).subrange(
                    offsets@[w] as int,
                    offsets@[w + 1] as int,
                ));
            }
            if far {
                assert forall|w: int| 0 <= w < v implies nodes@.map_values(|x: NodeIndex| x.0 as int).subrange(
                    #[trigger] offsets@[w] as int,
                    offsets@[w + 1] as int,
                ) == far_ends(g, allowed(g.incident(w), mask@), w) by {
                    lemma_offsets_below(offsets@, v as int, w);
                    assert(nodes@.map_values(|x: NodeIndex| x.0 as int).subrange(offsets@[w] as int, offsets@[w + 1] as int)
                        =~= n0.map_values(|x: NodeIndex| x.0 as int).subrange(offsets@[w] as int, offsets@[w + 1] as int));
                }
            }
        }
        let ghost o0 = offsets@;
        offsets.push(edges.len());
        proof {
            assert forall|w: int| 0 <= w < v + 1 implies #[trigger] offsets@[w] <= offsets@[w + 1] by {
                if w < v {
                    assert(offsets@[w] == o0[w] && offsets@[w + 1] == o0[w + 1]);
                } else {
                    assert(offsets@[w] == start);
                }
            }
            assert forall|w: int| 0 <= w < v + 1 implies edge_ints(edges@).subrange(
                #[trigger] offsets@[w] as int,
                offsets@[w + 1] as int,
            ) == allowed(g.incident(w), mask@) by {
                assert(offsets@[w] == o0[w]);
                if w < v {
                    assert(offsets@[w + 1] == o0[w + 1]);
                }
            }
            if far {
                assert forall|w: int| 0 <= w < v + 1 implies nodes@.map_values(|x: NodeIndex| x.0 as int).subrange(
                    #[trigger] offsets@[w] as int,
                    offsets@[w + 1] as int,
                ) == far_ends(g, allowed(g.incident(w), mask@), w) by {
                    assert(offsets@[w] == o0[w]);
                    if w < v {
                        assert(offsets@[w + 1] == o0[w + 1]);
                    }
                }
            }
        }
        v += 1;
    }
    (offsets, edges, nodes)
}

} // verus!
