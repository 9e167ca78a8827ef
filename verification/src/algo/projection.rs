//! Slot adjacency of a topology in a direction: each node's distinct
//! neighbours, without the node itself, in increasing order. Read both ways
//! round, it is the undirected projection.
use super::reach::Direction;
use crate::topology::model::lemma_adj_members;
use crate::topology::{edge_ints, pairs, EdgeIndex, GraphModel, NodeIndex, Topology};
use vstd::prelude::*;

verus! {

/// `u` and `v` are distinct and some edge joins them, either way round.
pub open spec fn linked(g: GraphModel, u: int, v: int) -> bool {
    u != v && exists|e: int|
        0 <= e < g.edges.len() && ((#[trigger] g.edges[e].0 == u && g.edges[e].1 == v) || (g.edges[e].0 == v
            && g.edges[e].1 == u))
}

/// `u` is not `v`, and some edge leads from `v` to `u` in `direction`.
pub open spec fn neighbour(g: GraphModel, direction: Direction, v: int, u: int) -> bool {
    u != v && exists|e: int|
        0 <= e < g.edges.len() && match direction {
            Direction::Outgoing => #[trigger] g.edges[e].0 == v && g.edges[e].1 == u,
            Direction::Incoming => g.edges[e].0 == u && g.edges[e].1 == v,
            Direction::Both => (g.edges[e].0 == v && g.edges[e].1 == u) || (g.edges[e].0 == u && g.edges[e].1 == v),
        }
}

/// `row` lists, in increasing order, exactly the nodes that satisfy `keep`.
pub open spec fn lists_exactly(row: Seq<usize>, keep: spec_fn(int) -> bool) -> bool {
    &&& forall|i: int, j: int| 0 <= i < j < row.len() ==> row[i] < row[j]
    &&& forall|i: int| 0 <= i < row.len() ==> keep(#[trigger] row[i] as int)
    &&& forall|u: int| #[trigger] keep(u) ==> exists|i: int| 0 <= i < row.len() && row[i] == u
}

/// The neighbours of every node of `g` in its undirected projection.
pub open spec fn projection_rows(g: GraphModel, rows: Seq<Vec<usize>>) -> bool {
    &&& rows.len() == g.node_count
    &&& forall|v: int|
        0 <= v < rows.len() ==> lists_exactly(#[trigger] rows[v]@, |u: int| 0 <= u < g.node_count && linked(g, v, u))
}

/// Puts `u` into the increasing row `row`, unless it is there already.
fn insert_sorted(row: &mut Vec<usize>, u: usize)
    requires
        forall|i: int, j: int| 0 <= i < j < old(row)@.len() ==> old(row)@[i] < old(row)@[j],
    ensures
        forall|i: int, j: int| 0 <= i < j < final(row)@.len() ==> final(row)@[i] < final(row)@[j],
        forall|w: usize| final(row)@.contains(w) <==> (old(row)@.contains(w) || w == u),
{
    let mut k: usize = 0;
    while k < row.len() && row[k] < u
        invariant
            k <= row@.len(),
            row@ == old(row)@,
            forall|i: int| 0 <= i < k ==> row@[i] < u,
        decreases row@.len() - k,
    {
        k += 1;
    }
    if k < row.len() && row[k] == u {
        assert(row@[k as int] == u);
        return;
    }
    let ghost before = row@;
    row.insert(k, u);
    proof {
        assert(row@.len() == before.len() + 1);
        assert(forall|i: int| 0 <= i < k ==> row@[i] == before[i]);
        assert(row@[k as int] == u);
        assert(forall|i: int| k < i < row@.len() ==> row@[i] == before[i - 1]);
        assert forall|w: usize| row@.contains(w) <==> (before.contains(w) || w == u) by {
            if row@.contains(w) {
                let i = choose|i: int| 0 <= i < row@.len() && row@[i] == w;
                if i < k {
                    assert(before[i] == w);
                } else if i > k {
                    assert(before[i - 1] == w);
                }
            }
            if before.contains(w) {
                let i = choose|i: int| 0 <= i < before.len() && before[i] == w;
                if i < k {
                    assert(row@[i] == w);
                } else {
                    assert(row@[i + 1] == w);
                }
            }
            if w == u {
                assert(row@[k as int] == u);
            }
        }
    }
}

/// Among the first `j` edges listed in `es`, one leads from `v` to `w`
/// (`side` 1) or from `w` to `v` (`side` 0), and `w` is not `v`.
pub open spec fn hits(g: GraphModel, es: Seq<EdgeIndex>, j: int, side: int, v: int, w: int) -> bool {
    exists|i: int|
        0 <= i < j && w != v && (if side == 1 {
            g.edges[#[trigger] es[i].0 as int].1 == w
        } else {
            g.edges[es[i].0 as int].0 == w
        })
}

proof fn lemma_hits_step(g: GraphModel, es: Seq<EdgeIndex>, j: int, side: int, v: int, w: int)
    requires
        0 <= j < es.len(),
    ensures
        hits(g, es, j + 1, side, v, w) <==> (hits(g, es, j, side, v, w) || (w != v && (if side == 1 {
            g.edges[es[j].0 as int].1 == w
        } else {
            g.edges[es[j].0 as int].0 == w
        }))),
{
    if hits(g, es, j + 1, side, v, w) {
        let i = choose|i: int|
            0 <= i < j + 1 && w != v && (if side == 1 {
                g.edges[#[trigger] es[i].0 as int].1 == w
            } else {
                g.edges[es[i].0 as int].0 == w
            });
        if i < j {
            assert(hits(g, es, j, side, v, w));
        }
    }
    if w != v && (if side == 1 {
        g.edges[es[j].0 as int].1 == w
    } else {
        g.edges[es[j].0 as int].0 == w
    }) {
        assert(es[j] == es[j]);
    }
}

/// Puts into `row` the far end of each edge listed in `es`, other than `v`.
fn gather(
    row: &mut Vec<usize>,
    es: &[EdgeIndex],
    ends: &[crate::topology::EdgeEndpoints<NodeIndex>],
    side: usize,
    v: usize,
    Ghost(g): Ghost<GraphModel>,
)
    requires
        side == 0 || side == 1,
        pairs(ends@) == g.edges,
        forall|i: int| 0 <= i < es@.len() ==> 0 <= #[trigger] es@[i].0 < g.edges.len(),
        forall|i: int, k: int| 0 <= i < k < old(row)@.len() ==> old(row)@[i] < old(row)@[k],
    ensures
        forall|i: int, k: int| 0 <= i < k < final(row)@.len() ==> final(row)@[i] < final(row)@[k],
        forall|w: usize|
            #[trigger] final(row)@.contains(w) <==> (old(row)@.contains(w) || hits(
                g,
                es@,
                es@.len() as int,
                side as int,
                v as int,
                w as int,
            )),
{
    let mut j: usize = 0;
    while j < es.len()
        invariant
            j <= es@.len(),
            side == 0 || side == 1,
            pairs(ends@) == g.edges,
            forall|i: int| 0 <= i < es@.len() ==> 0 <= #[trigger] es@[i].0 < g.edges.len(),
            forall|i: int, k: int| 0 <= i < k < row@.len() ==> row@[i] < row@[k],
            forall|w: usize|
                #[trigger] row@.contains(w) <==> (old(row)@.contains(w) || hits(
                    g,
                    es@,
                    j as int,
                    side as int,
                    v as int,
                    w as int,
                )),
        decreases es@.len() - j,
    {
        let e = es[j].0 as usize;
        assert(es@[j as int].0 < g.edges.len());
        assert(ends@.len() == g.edges.len());
        let w = if side == 1 {
            ends[e].target.0 as usize
        } else {
            ends[e].source.0 as usize
        };
        proof {
            assert(g.edges[e as int] == (ends@[e as int].source.0 as int, ends@[e as int].target.0 as int));
        }
        let ghost before = row@;
        if w != v {
            insert_sorted(row, w);
        }
        proof {
            assert forall|x: usize|
                #[trigger] row@.contains(x) <==> (old(row)@.contains(x) || hits(
                    g,
                    es@,
                    j + 1,
                    side as int,
                    v as int,
                    x as int,
                )) by {
                lemma_hits_step(g, es@, j as int, side as int, v as int, x as int);
                assert(before.contains(x) <==> (old(row)@.contains(x) || hits(
                    g,
                    es@,
                    j as int,
                    side as int,
                    v as int,
                    x as int,
                )));
            }
        }
        j += 1;
    }
}

/// The neighbours of every node of `g` in `direction`.
pub open spec fn adjacency_rows(g: GraphModel, direction: Direction, rows: Seq<Vec<usize>>) -> bool {
    &&& rows.len() == g.node_count
    &&& forall|v: int|
        0 <= v < rows.len() ==> lists_exactly(
            #[trigger] rows[v]@,
            |u: int| 0 <= u < g.node_count && neighbour(g, direction, v, u),
        )
}

proof fn lemma_both_is_linked(g: GraphModel, rows: Seq<Vec<usize>>)
    requires
        adjacency_rows(g, Direction::Both, rows),
    ensures
        projection_rows(g, rows),
{
    assert forall|v: int| 0 <= v < rows.len() implies lists_exactly(
        #[trigger] rows[v]@,
        |u: int| 0 <= u < g.node_count && linked(g, v, u),
    ) by {
        let by_direction = |u: int| 0 <= u < g.node_count && neighbour(g, Direction::Both, v, u);
        let by_link = |u: int| 0 <= u < g.node_count && linked(g, v, u);
        assert(lists_exactly(rows[v]@, by_direction));
        assert forall|u: int| neighbour(g, Direction::Both, v, u) == linked(g, v, u) by {
            if linked(g, v, u) {
                let e = choose|e: int|
                    0 <= e < g.edges.len() && ((#[trigger] g.edges[e].0 == v && g.edges[e].1 == u) || (
                    g.edges[e].0 == u && g.edges[e].1 == v));
                assert(g.edges[e] == g.edges[e]);
            }
            if neighbour(g, Direction::Both, v, u) {
                let e = choose|e: int|
                    0 <= e < g.edges.len() && match Direction::Both {
                        Direction::Outgoing => #[trigger] g.edges[e].0 == v && g.edges[e].1 == u,
                        Direction::Incoming => g.edges[e].0 == u && g.edges[e].1 == v,
                        Direction::Both => (g.edges[e].0 == v && g.edges[e].1 == u) || (g.edges[e].0 == u
                            && g.edges[e].1 == v),
                    };
                assert(g.edges[e] == g.edges[e]);
            }
        }
        assert(by_direction =~= by_link);
    }
}

/// Each node's neighbours in the undirected projection of `graph`.
pub(crate) fn projection(graph: &Topology) -> (r: Vec<Vec<usize>>)
    ensures
        projection_rows(graph@, r@),
{
    let rows = adjacency(graph, Direction::Both);
    proof {
        lemma_both_is_linked(graph@, rows@);
    }
    rows
}

/// Each node's distinct neighbours in `direction`, other than itself, in
/// increasing order; one row per node.
pub fn adjacency(graph: &Topology, direction: Direction) -> (r: Vec<Vec<usize>>)
    ensures
        adjacency_rows(graph@, direction, r@),
{
    let n = graph.node_count();
    let ends = graph.endpoints();
    let ghost g = graph@;
    let use_out = match direction {
        Direction::Incoming => false,
        _ => true,
    };
    let use_in = match direction {
        Direction::Outgoing => false,
        _ => true,
    };
    let mut rows: Vec<Vec<usize>> = Vec::new();
    let mut v: usize = 0;
    while v < n
        invariant
            v <= n == g.node_count,
            n <= u32::MAX,
            g == graph@,
            g.valid(),
            pairs(ends@) == g.edges,
            use_out == !(direction is Incoming),
            use_in == !(direction is Outgoing),
            rows@.len() == v,
            forall|x: int|
                0 <= x < v ==> lists_exactly(
                    #[trigger] rows@[x]@,
                    |u: int| 0 <= u < g.node_count && neighbour(g, direction, x, u),
                ),
        decreases n - v,
    {
        let node = NodeIndex(v as u32);
        let out = graph.outgoing_edges(node);
        let inc = graph.incoming_edges(node);
        let ghost ol = g.out_edges(v as int);
        let ghost il = g.in_edges(v as int);
        proof {
            lemma_adj_members(g.edges, g.edges.len(), 0, v as int);
            lemma_adj_members(g.edges, g.edges.len(), 1, v as int);
            assert forall|i: int| 0 <= i < out@.len() implies 0 <= #[trigger] out@[i].0 < g.edges.len()
                && g.edges[out@[i].0 as int].0 == v by {
                assert(edge_ints(out@)[i] == out@[i].0 as int);
                assert(ol[i] == out@[i].0 as int);
            }
            assert forall|i: int| 0 <= i < inc@.len() implies 0 <= #[trigger] inc@[i].0 < g.edges.len()
                && g.edges[inc@[i].0 as int].1 == v by {
                assert(edge_ints(inc@)[i] == inc@[i].0 as int);
                assert(il[i] == inc@[i].0 as int);
            }
        }
        let mut row: Vec<usize> = Vec::new();
        if use_out {
            gather(&mut row, out, ends, 1, v, Ghost(g));
        }
        let ghost after_out = row@;
        if use_in {
            gather(&mut row, inc, ends, 0, v, Ghost(g));
        }
        proof {
            let keep = |u: int| 0 <= u < g.node_count && neighbour(g, direction, v as int, u);
            assert forall|x: usize| #[trigger] row@.contains(x) implies (use_out && hits(
                g,
                out@,
                out@.len() as int,
                1,
                v as int,
                x as int,
            )) || (use_in && hits(g, inc@, inc@.len() as int, 0, v as int, x as int)) by {
                if !use_in {
                    assert(after_out == row@);
                }
                if after_out.contains(x) && !use_out {
                    assert(false);
                }
            }
            assert forall|i: int| 0 <= i < row@.len() implies keep(#[trigger] row@[i] as int) by {
                let x = row@[i];
                assert(row@.contains(x));
                if use_out && hits(g, out@, out@.len() as int, 1, v as int, x as int) {
                    let k = choose|k: int|
                        0 <= k < out@.len() && x != v && (if 1int == 1 {
                            g.edges[#[trigger] out@[k].0 as int].1 == x
                        } else {
                            g.edges[out@[k].0 as int].0 == x
                        });
                    let e = out@[k].0 as int;
                    assert(g.edges[e].0 == v);
                    assert(0 <= g.edges[e].1 < g.node_count);
                } else {
                    let k = choose|k: int|
                        0 <= k < inc@.len() && x != v && (if 0int == 1 {
                            g.edges[#[trigger] inc@[k].0 as int].1 == x
                        } else {
                            g.edges[inc@[k].0 as int].0 == x
                        });
                    let e = inc@[k].0 as int;
                    assert(g.edges[e].1 == v);
                    assert(0 <= g.edges[e].0 < g.node_count);
                }
            }
            assert forall|u: int| #[trigger] keep(u) implies exists|i: int| 0 <= i < row@.len() && row@[i] == u by {
                let e = choose|e: int|
                    0 <= e < g.edges.len() && match direction {
                        Direction::Outgoing => #[trigger] g.edges[e].0 == v && g.edges[e].1 == u,
                        Direction::Incoming => g.edges[e].0 == u && g.edges[e].1 == v,
                        Direction::Both => (g.edges[e].0 == v && g.edges[e].1 == u) || (g.edges[e].0 == u
                            && g.edges[e].1 == v),
                    };
                let x = u as usize;
                if g.edges[e].0 == v && g.edges[e].1 == u && use_out {
                    assert(ol.contains(e));
                    let k = choose|k: int| 0 <= k < ol.len() && ol[k] == e;
                    assert(edge_ints(out@)[k] == out@[k].0 as int);
                    assert(g.edges[out@[k].0 as int].1 == x);
                    assert(hits(g, out@, out@.len() as int, 1, v as int, x as int));
                    assert(after_out.contains(x));
                } else {
                    assert(g.edges[e].0 == u && g.edges[e].1 == v && use_in);
                    assert(il.contains(e));
                    let k = choose|k: int| 0 <= k < il.len() && il[k] == e;
                    assert(edge_ints(inc@)[k] == inc@[k].0 as int);
                    assert(g.edges[inc@[k].0 as int].0 == x);
                    assert(hits(g, inc@, inc@.len() as int, 0, v as int, x as int));
                }
                assert(row@.contains(x));
            }
        }
        rows.push(row);
        proof {
            assert forall|x: int|
                0 <= x < v + 1 implies lists_exactly(
                #[trigger] rows@[x]@,
                |u: int| 0 <= u < g.node_count && neighbour(g, direction, x, u),
            ) by {
                if x < v {
                }
            }
        }
        v += 1;
    }
    rows
}

} // verus!
