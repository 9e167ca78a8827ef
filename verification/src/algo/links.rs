//! The distinct non-loop links of the accepted edges of a topology, in
//! increasing `(source, target)` order.
use super::reach::answers;
use super::traversal::edge_mask;
use crate::topology::{EdgeIndex, GraphModel, Topology};
use vstd::prelude::*;

verus! {

/// `row` is strictly increasing.
pub open spec fn rising(row: Seq<usize>) -> bool {
    forall|i: int, j: int| 0 <= i < j < row.len() ==> row[i] < row[j]
}

/// Pair `a` comes before pair `b` in `(source, target)` order.
pub open spec fn link_before(a: (usize, usize), b: (usize, usize)) -> bool {
    a.0 < b.0 || (a.0 == b.0 && a.1 < b.1)
}

/// Some accepted edge that is not a loop runs from `s` to `t`.
pub open spec fn linked_by(g: GraphModel, mask: Seq<bool>, s: int, t: int) -> bool {
    s != t && exists|e: int| 0 <= e < g.edges.len() && #[trigger] mask[e] && g.edges[e] == (s, t)
}

/// `out` lists, in increasing order and once each, the pairs of ends of the
/// accepted edges that are not loops.
pub open spec fn links_of(g: GraphModel, mask: Seq<bool>, out: Seq<(usize, usize)>) -> bool {
    &&& forall|i: int, j: int| 0 <= i < j < out.len() ==> link_before(#[trigger] out[i], #[trigger] out[j])
    &&& forall|p: (usize, usize)| #[trigger] out.contains(p) <==> linked_by(g, mask, p.0 as int, p.1 as int)
}

/// Puts `x` into the increasing `row` unless it is there already.
fn insert_rising(row: &mut Vec<usize>, x: usize)
    requires
        rising(old(row)@),
    ensures
        rising(final(row)@),
        forall|y: usize| #[trigger] final(row)@.contains(y) <==> (old(row)@.contains(y) || y == x),
{
    let mut k: usize = 0;
    while k < row.len() && row[k] < x
        invariant
            k <= row@.len(),
            forall|j: int| 0 <= j < k ==> row@[j] < x,
        decreases row@.len() - k,
    {
        k += 1;
    }
    if k < row.len() && row[k] == x {
        return;
    }
    let ghost before = row@;
    row.insert(k, x);
    proof {
        assert(forall|j: int| 0 <= j < k ==> row@[j] == before[j]);
        assert(forall|j: int| k < j < row@.len() ==> row@[j] == before[j - 1]);
        assert forall|i: int, j: int| 0 <= i < j < row@.len() implies row@[i] < row@[j] by {
            if j == k {
                assert(row@[i] == before[i]);
            } else if i == k {
                assert(row@[j] == before[j - 1]);
                assert(before[k as int] >= x);
                if j - 1 > k {
                    assert(before[k as int] < before[j - 1]);
                }
            } else if i < k && j > k {
                assert(before[i] < x);
                assert(before[k as int] >= x);
                if j - 1 > k {
                    assert(before[k as int] < before[j - 1]);
                }
            }
        }
        assert forall|y: usize| #[trigger] row@.contains(y) <==> (before.contains(y) || y == x) by {
            if row@.contains(y) {
                let j = choose|j: int| 0 <= j < row@.len() && row@[j] == y;
                if j < k {
                    assert(before[j] == y);
                } else if j > k {
                    assert(before[j - 1] == y);
                }
            }
            if before.contains(y) {
                let j = choose|j: int| 0 <= j < before.len() && before[j] == y;
                if j < k {
                    assert(row@[j] == y);
                } else {
                    assert(row@[j + 1] == y);
                }
            }
            if y == x {
                assert(row@[k as int] == y);
            }
        }
    }
}

/// The distinct `(source, target)` pairs of the edges that `allows_edge`
/// accepts, loops left out, in increasing order; `allows_edge` is asked
/// once per edge.
pub fn accepted_links<F: Fn(EdgeIndex) -> bool>(graph: &Topology, allows_edge: F) -> (r: Vec<(usize, usize)>)
    requires
        forall|e: EdgeIndex| call_requires(allows_edge, (e,)),
    ensures
        exists|mask: Seq<bool>| answers(allows_edge, graph@, mask) && links_of(graph@, mask, r@),
{
    let mask = edge_mask(graph, &allows_edge);
    let n = graph.node_count();
    let m = graph.edge_count();
    let ghost g = graph@;
    let mut rows: Vec<Vec<usize>> = Vec::new();
    let mut v: usize = 0;
    while v < n
        invariant
            v <= n,
            rows@.len() == v,
            forall|s: int| 0 <= s < v ==> (#[trigger] rows@[s])@.len() == 0,
        decreases n - v,
    {
        rows.push(Vec::new());
        v += 1;
    }
    let mut e: usize = 0;
    while e < m
        invariant
            g == graph@,
            g.valid(),
            n == g.node_count,
            m == g.edges.len(),
            m <= u32::MAX,
            mask@.len() == m,
            e <= m,
            rows@.len() == n,
            forall|s: int| 0 <= s < n ==> rising(#[trigger] rows@[s]@),
            forall|s: int, t: usize|
                0 <= s < n ==> (#[trigger] rows@[s]@.contains(t) <==> (s != t && exists|x: int|
                    0 <= x < e && #[trigger] mask@[x] && g.edges[x] == (s, t as int))),
        decreases m - e,
    {
        proof {
            assert((e as u32) as int == e as int);
        }
        if mask[e] {
            match graph.edge_endpoints(EdgeIndex(e as u32)) {
                Some(ends) => {
                    let a = ends.source.0 as usize;
                    let b = ends.target.0 as usize;
                    proof {
                        assert(0 <= g.edges[e as int].0 < n && 0 <= g.edges[e as int].1 < n);
                    }
                    if a != b {
                        let ghost old_rows = rows@;
                        let mut row: Vec<usize> = Vec::new();
                        std::mem::swap(&mut row, &mut rows[a]);
                        insert_rising(&mut row, b);
                        std::mem::swap(&mut row, &mut rows[a]);
                        proof {
                            assert forall|s: int| 0 <= s < n implies rising(#[trigger] rows@[s]@) by {
                                if s != a as int {
                                    assert(rows@[s] == old_rows[s]);
                                }
                            }
                            assert forall|s: int, t: usize| 0 <= s < n implies (#[trigger] rows@[s]@.contains(t) <==> (s
                                != t && exists|x: int| 0 <= x < e + 1 && #[trigger] mask@[x] && g.edges[x] == (s, t as int))) by {
                                if s != a as int {
                                    assert(rows@[s] == old_rows[s]);
                                    if exists|x: int| 0 <= x < e + 1 && #[trigger] mask@[x] && g.edges[x] == (s, t as int) {
                                        let x = choose|x: int| 0 <= x < e + 1 && #[trigger] mask@[x] && g.edges[x] == (s, t as int);
                                        assert(x != e);
                                    }
                                } else {
                                    if t == b {
                                        assert(mask@[e as int] && g.edges[e as int] == (s, t as int));
                                    }
                                    if exists|x: int| 0 <= x < e + 1 && #[trigger] mask@[x] && g.edges[x] == (s, t as int) {
                                        let x = choose|x: int| 0 <= x < e + 1 && #[trigger] mask@[x] && g.edges[x] == (s, t as int);
                                        if x == e {
                                            assert(t == b);
                                        }
                                    }
                                }
                            }
                        }
                    } else {
                        proof {
                            assert forall|s: int, t: usize| 0 <= s < n implies (#[trigger] rows@[s]@.contains(t) <==> (s
                                != t && exists|x: int| 0 <= x < e + 1 && #[trigger] mask@[x] && g.edges[x] == (s, t as int))) by {
                                if exists|x: int| 0 <= x < e + 1 && #[trigger] mask@[x] && g.edges[x] == (s, t as int) {
                                    let x = choose|x: int| 0 <= x < e + 1 && #[trigger] mask@[x] && g.edges[x] == (s, t as int);
                                    if x == e {
                                        assert(s == t);
                                    }
                                }
                            }
                        }
                    }
                },
                None => {},
            }
        } else {
            proof {
                assert forall|s: int, t: usize| 0 <= s < n implies (#[trigger] rows@[s]@.contains(t) <==> (s != t && exists|x: int|
                    0 <= x < e + 1 && #[trigger] mask@[x] && g.edges[x] == (s, t as int))) by {
                    if exists|x: int| 0 <= x < e + 1 && #[trigger] mask@[x] && g.edges[x] == (s, t as int) {
                        let x = choose|x: int| 0 <= x < e + 1 && #[trigger] mask@[x] && g.edges[x] == (s, t as int);
                        assert(x != e);
                    }
                }
            }
        }
        e += 1;
    }
    let mut out: Vec<(usize, usize)> = Vec::new();
    let mut s: usize = 0;
    while s < n
        invariant
            s <= n,
            rows@.len() == n,
            forall|a: int| 0 <= a < n ==> rising(#[trigger] rows@[a]@),
            forall|i: int, j: int| 0 <= i < j < out@.len() ==> link_before(#[trigger] out@[i], #[trigger] out@[j]),
            forall|i: int| 0 <= i < out@.len() ==> (#[trigger] out@[i]).0 < s,
            forall|p: (usize, usize)| #[trigger] out@.contains(p) <==> (p.0 < s && rows@[p.0 as int]@.contains(p.1)),
        decreases n - s,
    {
        let row = &rows[s];
        let mut j: usize = 0;
        while j < row.len()
            invariant
                s < n,
                rows@.len() == n,
                row@ == rows@[s as int]@,
                rising(row@),
                j <= row@.len(),
                forall|i: int, k: int| 0 <= i < k < out@.len() ==> link_before(#[trigger] out@[i], #[trigger] out@[k]),
                forall|i: int|
                    0 <= i < out@.len() ==> (#[trigger] out@[i]).0 < s || (out@[i].0 == s && exists|q: int|
                        0 <= q < j && out@[i].1 == row@[q]),
                forall|p: (usize, usize)| #[trigger] out@.contains(p) <==> ((p.0 < s && rows@[p.0 as int]@.contains(p.1))
                    || (p.0 == s && exists|q: int| 0 <= q < j && row@[q] == p.1)),
            decreases row@.len() - j,
        {
            let ghost before = out@;
            out.push((s, row[j]));
            proof {
                assert forall|i: int, k: int| 0 <= i < k < out@.len() implies link_before(#[trigger] out@[i], #[trigger] out@[k]) by {
                    if k == before.len() {
                        assert(out@[i] == before[i]);
                        if before[i].0 == s {
                            let q = choose|q: int| 0 <= q < j && before[i].1 == row@[q];
                            assert(row@[q] < row@[j as int]);
                        }
                    } else {
                        assert(out@[i] == before[i] && out@[k] == before[k]);
                    }
                }
                assert forall|i: int| 0 <= i < out@.len() implies (#[trigger] out@[i]).0 < s || (out@[i].0 == s && exists|q: int|
                    0 <= q < j + 1 && out@[i].1 == row@[q]) by {
                    if i < before.len() {
                        assert(out@[i] == before[i]);
                        if before[i].0 == s {
                            let q = choose|q: int| 0 <= q < j && before[i].1 == row@[q];
                        }
                    } else {
                        assert(out@[i].1 == row@[j as int]);
                    }
                }
                assert forall|p: (usize, usize)| #[trigger] out@.contains(p) <==> ((p.0 < s && rows@[p.0 as int]@.contains(p.1))
                    || (p.0 == s && exists|q: int| 0 <= q < j + 1 && row@[q] == p.1)) by {
                    if out@.contains(p) {
                        let i = choose|i: int| 0 <= i < out@.len() && out@[i] == p;
                        if i < before.len() {
                            assert(before[i] == p);
                            assert(before.contains(p));
                        } else {
                            assert(row@[j as int] == p.1);
                        }
                    }
                    if (p.0 < s && rows@[p.0 as int]@.contains(p.1)) || (p.0 == s && exists|q: int| 0 <= q < j && row@[q] == p.1) {
                        assert(before.contains(p));
                        let i = choose|i: int| 0 <= i < before.len() && before[i] == p;
                        assert(out@[i] == p);
                    }
                    if p.0 == s && p.1 == row@[j as int] {
                        assert(out@[out@.len() - 1] == p);
                    }
                }
            }
            j += 1;
        }
        proof {
            assert forall|p: (usize, usize)| #[trigger] out@.contains(p) <==> (p.0 < s + 1 && rows@[p.0 as int]@.contains(p.1)) by {
                if p.0 == s && rows@[p.0 as int]@.contains(p.1) {
                    let q = choose|q: int| 0 <= q < row@.len() && row@[q] == p.1;
                }
            }
            assert forall|i: int| 0 <= i < out@.len() implies (#[trigger] out@[i]).0 < s + 1 by {}
        }
        s += 1;
    }
    proof {
        assert forall|p: (usize, usize)| #[trigger] out@.contains(p) <==> linked_by(g, mask@, p.0 as int, p.1 as int) by {
            if linked_by(g, mask@, p.0 as int, p.1 as int) {
                let x = choose|x: int| 0 <= x < g.edges.len() && #[trigger] mask@[x] && g.edges[x] == (p.0 as int, p.1 as int);
                assert(0 <= g.edges[x].0 < n);
                assert(rows@[p.0 as int]@.contains(p.1));
            }
            if out@.contains(p) {
                assert(p.0 < n);
                assert(rows@[p.0 as int]@.contains(p.1));
            }
        }
    }
    out
}

} // verus!
