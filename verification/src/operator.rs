use crate::error::{GraphError, Result};
use crate::topology::model::lemma_adj_members;
use crate::topology::{builds, edge_ints, lemma_pairs_push, pairs, EdgeEndpoints, GraphModel, NodeIndex, Topology};
use vstd::prelude::*;

verus! {

/// A topology built over a list of original nodes: projected node `i`
/// stands for `original_nodes[i]`.
#[derive(Debug)]
pub struct TopologyProjection<Node> {
    topology: Topology,
    original_nodes: Vec<Node>,
}

impl<Node> TopologyProjection<Node> {
    /// The projected topology's model.
    pub closed spec fn model(&self) -> GraphModel {
        self.topology@
    }

    /// The original node of every projected node.
    pub closed spec fn originals(&self) -> Seq<Node> {
        self.original_nodes@
    }

    pub fn topology(&self) -> (r: &Topology)
        ensures
            r@ == self.model(),
    {
        &self.topology
    }

    pub fn original_nodes(&self) -> (r: &[Node])
        ensures
            r@ == self.originals(),
    {
        self.original_nodes.as_slice()
    }

    /// The original node behind `projected`, if there is one.
    pub fn original_node(&self, projected: NodeIndex) -> (r: Option<&Node>)
        ensures
            match r {
                Some(p) => projected.0 < self.originals().len() && *p == self.originals()[projected.0 as int],
                None => projected.0 >= self.originals().len(),
            },
    {
        if projected.index() < self.original_nodes.len() {
            Some(&self.original_nodes[projected.index()])
        } else {
            None
        }
    }

    pub fn into_parts(self) -> (r: (Topology, Vec<Node>))
        ensures
            r.0@ == self.model(),
            r.1@ == self.originals(),
    {
        (self.topology, self.original_nodes)
    }
}

/// `a` comes before `b` by source, then by target.
pub open spec fn pair_before(a: (int, int), b: (int, int)) -> bool {
    a.0 < b.0 || (a.0 == b.0 && a.1 < b.1)
}

/// The pairs are in strictly increasing order, hence without repetition.
pub open spec fn strictly_sorted(ps: Seq<(int, int)>) -> bool {
    forall|i: int, j: int| 0 <= i < j < ps.len() ==> pair_before(#[trigger] ps[i], #[trigger] ps[j])
}

/// Some edge of `g` leads from `s` to `t`.
pub open spec fn has_edge(g: GraphModel, s: int, t: int) -> bool {
    g.edges.contains((s, t))
}

/// The nodes `0..n` as node indexes.
pub open spec fn identity_nodes(n: nat) -> Seq<NodeIndex> {
    Seq::new(n, |i: int| NodeIndex(i as u32))
}

/// What building a projection over `n` identity nodes from the pairs that
/// `wanted` selects, in sorted order, yields.
pub open spec fn projects(n: nat, wanted: spec_fn(int, int) -> bool, r: Result<TopologyProjection<NodeIndex>>) -> bool {
    exists|es: Seq<EdgeEndpoints<NodeIndex>>|
        {
            &&& strictly_sorted(pairs(es))
            &&& forall|p: (int, int)| #[trigger] pairs(es).contains(p) <==> (0 <= p.0 < n && 0 <= p.1 < n && wanted(p.0, p.1))
            &&& match r {
                Ok(proj) => proj.originals() == identity_nodes(n) && exists|t: Topology| #[trigger] builds(n as usize, es, Ok(t)) && t@ == proj.model(),
                Err(e) => builds(n as usize, es, Err(e)),
            }
        }
}

proof fn lemma_row_major(n: int, s: int, t: int, s2: int, t2: int)
    requires
        0 <= s < n,
        0 <= t < n,
        0 <= s2 < n,
        0 <= t2 < n,
    ensures
        pair_before((s, t), (s2, t2)) <==> s * n + t < s2 * n + t2,
        (s * n + t == s2 * n + t2) <==> (s == s2 && t == t2),
        0 <= s * n + t < n * n,
{
    assert(0 <= s * n + t < n * n) by (nonlinear_arith)
        requires
            0 <= s < n,
            0 <= t < n,
    ;
    if s < s2 {
        assert(s * n + t < s2 * n + t2) by (nonlinear_arith)
            requires
                0 <= s < s2,
                0 <= t < n,
                0 <= t2,
        ;
    } else if s > s2 {
        assert(s2 * n + t2 < s * n + t) by (nonlinear_arith)
            requires
                0 <= s2 < s,
                0 <= t2 < n,
                0 <= t,
        ;
    }
}

/// The directed complement over the same nodes: every ordered pair without
/// an edge, self-pairs only when `include_self_loops`; parallel edges count
/// once. Errors when the pair space or the result overflows.
pub fn complement(graph: &Topology, include_self_loops: bool) -> (r: Result<TopologyProjection<NodeIndex>>)
    ensures
        graph@.node_count * graph@.node_count > usize::MAX ==> r == Err::<TopologyProjection<NodeIndex>, GraphError>(
            GraphError::ArithmeticOverflow { operation: "graph complement pair count" },
        ),
        graph@.node_count * graph@.node_count <= usize::MAX ==> projects(
            graph@.node_count,
            |s: int, t: int| (include_self_loops || s != t) && !has_edge(graph@, s, t),
            r,
        ),
{
    let ghost g = graph@;
    let n = graph.node_count();
    let pair_count = match n.checked_mul(n) {
        Some(c) => c,
        None => return Err(GraphError::ArithmeticOverflow { operation: "graph complement pair count" }),
    };
    let nodes = graph.node_indices();
    let mut present = crate::util::filled_vec(false, pair_count);
    let ends = graph.endpoints();
    let m = ends.len();
    let mut i: usize = 0;
    proof {
        assert forall|a: int, b: int| 0 <= a < n && 0 <= b < n implies (#[trigger] present@[a * n + b]
            <==> g.edges.subrange(0, 0).contains((a, b))) by {
            lemma_row_major(n as int, a, b, a, b);
        }
    }
    while i < m
        invariant
            g == graph@,
            g.valid(),
            n == g.node_count,
            pair_count == n * n,
            pairs(ends@) == g.edges,
            m == ends@.len(),
            i <= m,
            present@.len() == pair_count,
            forall|s: int, t: int|
                0 <= s < n && 0 <= t < n ==> (#[trigger] present@[s * n + t] <==> g.edges.subrange(0, i as int).contains(
                    (s, t),
                )),
        decreases m - i,
    {
        let e = ends[i];
        let s = e.source.index();
        let t = e.target.index();
        proof {
            assert(pairs(ends@)[i as int] == (s as int, t as int));
            assert(0 <= g.edges[i as int].0 < n && 0 <= g.edges[i as int].1 < n);
            lemma_row_major(n as int, s as int, t as int, s as int, t as int);
        }
        let ghost before = present@;
        present.set(s * n + t, true);
        proof {
            assert forall|a: int, b: int| 0 <= a < n && 0 <= b < n implies (#[trigger] present@[a * n + b]
                <==> g.edges.subrange(0, i + 1).contains((a, b))) by {
                lemma_row_major(n as int, a, b, s as int, t as int);
                let pre = g.edges.subrange(0, i as int);
                let post = g.edges.subrange(0, i + 1);
                assert(post =~= pre.push((s as int, t as int)));
                if pre.contains((a, b)) {
                    let k = choose|k: int| 0 <= k < pre.len() && pre[k] == (a, b);
                    assert(post[k] == (a, b));
                }
                if post.contains((a, b)) {
                    let k = choose|k: int| 0 <= k < post.len() && post[k] == (a, b);
                    if k < i {
                        assert(pre[k] == (a, b));
                    }
                }
                if (a, b) == (s as int, t as int) {
                    assert(post[i as int] == (a, b));
                }
            }
        }
        i = i + 1;
    }
    proof {
        assert(g.edges.subrange(0, m as int) =~= g.edges);
    }
    let mut edges: Vec<EdgeEndpoints<NodeIndex>> = Vec::new();
    let mut s: usize = 0;
    while s < n
        invariant
            g == graph@,
            n == g.node_count <= u32::MAX,
            pair_count == n * n,
            present@.len() == pair_count,
            forall|a: int, b: int| 0 <= a < n && 0 <= b < n ==> (#[trigger] present@[a * n + b] <==> g.edges.contains((a, b))),
            s <= n,
            strictly_sorted(pairs(edges@)),
            forall|p: (int, int)|
                #[trigger] pairs(edges@).contains(p) <==> (0 <= p.0 < s && 0 <= p.1 < n && ((include_self_loops || p.0 != p.1) && !has_edge(g, p.0, p.1))),
        decreases n - s,
    {
        let mut t: usize = 0;
        while t < n
            invariant
                g == graph@,
                n == g.node_count <= u32::MAX,
                pair_count == n * n,
                present@.len() == pair_count,
                forall|a: int, b: int| 0 <= a < n && 0 <= b < n ==> (#[trigger] present@[a * n + b] <==> g.edges.contains((a, b))),
                s < n,
                t <= n,
                strictly_sorted(pairs(edges@)),
                forall|p: (int, int)|
                    #[trigger] pairs(edges@).contains(p) <==> ((0 <= p.0 < s && 0 <= p.1 < n) || (p.0 == s && 0 <= p.1 < t)) && ((include_self_loops || p.0 != p.1) && !has_edge(g, p.0, p.1)),
                decreases n - t,
        {
            proof {
                lemma_row_major(n as int, s as int, t as int, s as int, t as int);
            }
            let absent = !present[s * n + t];
            if (include_self_loops || s != t) && absent {
                let ghost before = edges@;
                let e = EdgeEndpoints::new(NodeIndex::new(s as u32), NodeIndex::new(t as u32));
                edges.push(e);
                proof {
                    lemma_pairs_push(before, e);
                    let ps = pairs(edges@);
                    let pb = pairs(before);
                    assert forall|i: int, j: int| 0 <= i < j < ps.len() implies pair_before(#[trigger] ps[i], #[trigger] ps[j]) by {
                        if j == ps.len() - 1 {
                            assert(pb.contains(ps[i])) by {
                                assert(pb[i] == ps[i]);
                            }
                        } else {
                            assert(pb[i] == ps[i] && pb[j] == ps[j]);
                        }
                    }
                    assert forall|p: (int, int)| #[trigger] ps.contains(p) <==> ((0 <= p.0 < s && 0 <= p.1 < n) || (p.0 == s
                        && 0 <= p.1 < t + 1)) && ((include_self_loops || p.0 != p.1) && !has_edge(g, p.0, p.1)) by {
                        if ps.contains(p) {
                            let k = choose|k: int| 0 <= k < ps.len() && ps[k] == p;
                            if k < pb.len() {
                                assert(pb[k] == p);
                            }
                        }
                        if pb.contains(p) {
                            let k = choose|k: int| 0 <= k < pb.len() && pb[k] == p;
                            assert(ps[k] == p);
                        }
                        if p == (s as int, t as int) {
                            assert(ps[pb.len() as int] == p);
                        }
                    }
                }
            } else {
                proof {
                    assert forall|p: (int, int)| #[trigger] pairs(edges@).contains(p) <==> ((0 <= p.0 < s && 0 <= p.1 < n)
                        || (p.0 == s && 0 <= p.1 < t + 1)) && ((include_self_loops || p.0 != p.1) && !has_edge(g, p.0, p.1)) by {
                        if p == (s as int, t as int) {
                            assert(!((include_self_loops || p.0 != p.1) && !has_edge(g, p.0, p.1)));
                        }
                    }
                }
            }
            t = t + 1;
        }
        s = s + 1;
    }
    let ghost es = edges@;
    let topology = Topology::try_from_edges(n, edges);
    proof {
        assert forall|k: int| 0 <= k < n implies nodes@[k] == #[trigger] identity_nodes(n as nat)[k] by {
            assert(nodes@[k].0 == k);
        }
        assert(nodes@ =~= identity_nodes(n as nat));
    }
    match topology {
        Ok(topology) => {
            let proj = TopologyProjection { topology, original_nodes: nodes };
            proof {
                let nn = graph@.node_count;
                assert(builds(nn as usize, es, Ok(topology)) && topology@ == proj.model());
                let wanted = |s: int, t: int| (include_self_loops || s != t) && !has_edge(graph@, s, t);
                assert forall|p: (int, int)| #[trigger] pairs(es).contains(p) <==> (0 <= p.0 < nn && 0 <= p.1 < nn && wanted(p.0, p.1)) by {}
                let r: Result<TopologyProjection<NodeIndex>> = Ok(proj);
                assert(match r {
                    Ok(proj) => proj.originals() == identity_nodes(nn) && exists|t: Topology| #[trigger] builds(nn as usize, es, Ok(t)) && t@ == proj.model(),
                    Err(e) => builds(nn as usize, es, Err(e)),
                });
                assert(projects(nn, wanted, r));
            }
            Ok(proj)
        },
        Err(e) => {
            proof {
                let wanted = |s: int, t: int| (include_self_loops || s != t) && !has_edge(graph@, s, t);
                assert forall|p: (int, int)| #[trigger] pairs(es).contains(p) <==> (0 <= p.0 < n && 0 <= p.1 < n && wanted(p.0, p.1)) by {}
            }
            Err(e)
        },
    }
}

/// Inserts `t` into a strictly increasing row unless it is already there.
pub(crate) fn insert_sorted(row: &mut Vec<u32>, t: u32)
    requires
        forall|i: int, j: int| 0 <= i < j < old(row)@.len() ==> old(row)@[i] < old(row)@[j],
    ensures
        forall|i: int, j: int| 0 <= i < j < final(row)@.len() ==> final(row)@[i] < final(row)@[j],
        forall|x: u32| #[trigger] final(row)@.contains(x) <==> (old(row)@.contains(x) || x == t),
{
    let ghost before = row@;
    let mut i: usize = 0;
    while i < row.len() && row[i] < t
        invariant
            row@ == before,
            i <= row@.len(),
            forall|k: int| 0 <= k < i ==> row@[k] < t,
        decreases row@.len() - i,
    {
        i = i + 1;
    }
    if i < row.len() && row[i] == t {
        return;
    }
    row.insert(i, t);
    proof {
        assert forall|a: int, b: int| 0 <= a < b < row@.len() implies row@[a] < row@[b] by {
            if b < i {
            } else if b == i {
            } else if a < i {
                assert(row@[b] == before[b - 1]);
                assert(before[b - 1] >= before[i as int]);
            } else if a == i {
                assert(row@[b] == before[b - 1]);
                if b - 1 > i {
                    assert(before[i as int] < before[b - 1]);
                }
            } else {
                assert(row@[a] == before[a - 1] && row@[b] == before[b - 1]);
            }
        }
        assert forall|x: u32| #[trigger] row@.contains(x) <==> (before.contains(x) || x == t) by {
            if row@.contains(x) {
                let k = choose|k: int| 0 <= k < row@.len() && row@[k] == x;
                if k < i {
                    assert(before[k] == x);
                } else if k > i {
                    assert(before[k - 1] == x);
                }
            }
            if before.contains(x) {
                let k = choose|k: int| 0 <= k < before.len() && before[k] == x;
                if k < i {
                    assert(row@[k] == x);
                } else {
                    assert(row@[k + 1] == x);
                }
            }
            if x == t {
                assert(row@[i as int] == x);
            }
        }
    }
}

/// Adds to a strictly increasing row the targets of the edges out of `s`.
fn add_targets(graph: &Topology, s: u32, row: &mut Vec<u32>)
    requires
        forall|i: int, j: int| 0 <= i < j < old(row)@.len() ==> old(row)@[i] < old(row)@[j],
    ensures
        forall|i: int, j: int| 0 <= i < j < final(row)@.len() ==> final(row)@[i] < final(row)@[j],
        forall|x: u32| #[trigger] final(row)@.contains(x) <==> (old(row)@.contains(x) || has_edge(graph@, s as int, x as int)),
{
    let ghost g = graph@;
    let ghost before = row@;
    let n = graph.node_count();
    if (s as usize) >= n {
        proof {
            assert forall|x: u32| !has_edge(g, s as int, x as int) by {
                if has_edge(g, s as int, x as int) {
                    let k = choose|k: int| 0 <= k < g.edges.len() && g.edges[k] == (s as int, x as int);
                    assert(0 <= g.edges[k].0 < g.node_count);
                }
            }
        }
        return;
    }
    let out = graph.outgoing_edges(NodeIndex::new(s));
    proof {
        lemma_adj_members(g.edges, g.edges.len(), 0, s as int);
        assert forall|j: int| 0 <= j < out@.len() implies 0 <= #[trigger] out@[j].0 < g.edges.len() && g.edges[out@[j].0 as int].0 == s by {
            assert(edge_ints(out@)[j] == out@[j].0 as int);
        }
    }
    let mut k: usize = 0;
    while k < out.len()
        invariant
            g == graph@,
            g.valid(),
            edge_ints(out@) == g.out_edges(s as int),
            forall|j: int| 0 <= j < out@.len() ==> 0 <= #[trigger] out@[j].0 < g.edges.len() && g.edges[out@[j].0 as int].0 == s,
            k <= out@.len(),
            forall|i: int, j: int| 0 <= i < j < row@.len() ==> row@[i] < row@[j],
            forall|x: u32| #[trigger] row@.contains(x) <==> (before.contains(x) || exists|j: int| 0 <= j < k && g.edges[out@[j].0 as int] == (s as int, x as int)),
        decreases out@.len() - k,
    {
        let edge = out[k];
        proof {
            assert(edge_ints(out@)[k as int] == edge.0 as int);
        }
        let ends = graph.edge_endpoints(edge).unwrap();
        let t = ends.target.0;
        let ghost pre = row@;
        insert_sorted(row, t);
        proof {
            assert(g.edges[edge.0 as int] == (s as int, t as int));
            assert forall|x: u32| #[trigger] row@.contains(x) <==> (before.contains(x) || exists|j: int| 0 <= j < k + 1 && g.edges[out@[j].0 as int] == (s as int, x as int)) by {
                if exists|j: int| 0 <= j < k + 1 && g.edges[out@[j].0 as int] == (s as int, x as int) {
                    let j = choose|j: int| 0 <= j < k + 1 && g.edges[out@[j].0 as int] == (s as int, x as int);
                    if j < k {
                        assert(pre.contains(x));
                    }
                }
            }
        }
        k = k + 1;
    }
    proof {
        assert forall|x: u32| #[trigger] row@.contains(x) <==> (before.contains(x) || has_edge(g, s as int, x as int)) by {
            if has_edge(g, s as int, x as int) {
                let e = choose|e: int| 0 <= e < g.edges.len() && g.edges[e] == (s as int, x as int);
                assert(g.out_edges(s as int).contains(e));
                let j = choose|j: int| 0 <= j < g.out_edges(s as int).len() && g.out_edges(s as int)[j] == e;
                assert(edge_ints(out@)[j] == out@[j].0 as int);
            }
            if exists|j: int| 0 <= j < out@.len() && g.edges[out@[j].0 as int] == (s as int, x as int) {
                let j = choose|j: int| 0 <= j < out@.len() && g.edges[out@[j].0 as int] == (s as int, x as int);
                assert(edge_ints(out@)[j] == out@[j].0 as int);
                assert(g.edges[out@[j].0 as int] == (s as int, x as int));
            }
        }
    }
}

/// The simple union of two topologies by node position: nodes up to the
/// larger node count, and every pair that has an edge in either, in sorted
/// order, each once.
pub fn union(left: &Topology, right: &Topology) -> (r: Result<TopologyProjection<NodeIndex>>)
    ensures
        projects(
            if left@.node_count >= right@.node_count { left@.node_count } else { right@.node_count },
            |s: int, t: int| has_edge(left@, s, t) || has_edge(right@, s, t),
            r,
        ),
{
    let nl = left.node_count();
    let nr = right.node_count();
    let n = if nl >= nr { nl } else { nr };
    let mut nodes: Vec<NodeIndex> = Vec::new();
    let mut v: usize = 0;
    while v < n
        invariant
            n <= u32::MAX,
            v <= n,
            nodes@ =~= identity_nodes(v as nat),
        decreases n - v,
    {
        nodes.push(NodeIndex::new(v as u32));
        v = v + 1;
        proof {
            assert(nodes@ =~= identity_nodes(v as nat));
        }
    }
    let mut edges: Vec<EdgeEndpoints<NodeIndex>> = Vec::new();
    let mut s: usize = 0;
    while s < n
        invariant
            nl == left@.node_count,
            nr == right@.node_count,
            n == (if nl >= nr { nl } else { nr }),
            n <= u32::MAX,
            left@.valid(),
            right@.valid(),
            s <= n,
            strictly_sorted(pairs(edges@)),
            forall|p: (int, int)|
                #[trigger] pairs(edges@).contains(p) <==> (0 <= p.0 < s && 0 <= p.1 < n && (has_edge(left@, p.0, p.1) || has_edge(right@, p.0, p.1))),
        decreases n - s,
    {
        let mut row: Vec<u32> = Vec::new();
        let ghost empty = row@;
        add_targets(left, s as u32, &mut row);
        let ghost after_left = row@;
        add_targets(right, s as u32, &mut row);
        proof {
            assert(!empty.contains(0u32) && forall|x: u32| !empty.contains(x));
            assert forall|x: u32| #[trigger] row@.contains(x) <==> (has_edge(left@, s as int, x as int) || has_edge(right@, s as int, x as int)) by {
                assert(after_left.contains(x) <==> (empty.contains(x) || has_edge(left@, s as int, x as int)));
            }
        }
        let ghost base = edges@;
        proof {
            assert forall|x: u32| #[trigger] row@.contains(x) implies x < n by {
                if has_edge(left@, s as int, x as int) {
                    let e = choose|e: int| 0 <= e < left@.edges.len() && left@.edges[e] == (s as int, x as int);
                    assert(0 <= left@.edges[e].0 < left@.node_count && 0 <= left@.edges[e].1 < left@.node_count);
                } else {
                    assert(has_edge(right@, s as int, x as int));
                    let e = choose|e: int| 0 <= e < right@.edges.len() && right@.edges[e] == (s as int, x as int);
                    assert(0 <= right@.edges[e].0 < right@.node_count && 0 <= right@.edges[e].1 < right@.node_count);
                }
            }
        }
        let mut k: usize = 0;
        while k < row.len()
            invariant
                n <= u32::MAX,
                s < n,
                k <= row@.len(),
                forall|i: int, j: int| 0 <= i < j < row@.len() ==> row@[i] < row@[j],
                forall|x: u32| #[trigger] row@.contains(x) ==> x < n,
                strictly_sorted(pairs(edges@)),
                pairs(edges@).len() >= pairs(base).len(),
                pairs(edges@).subrange(0, pairs(base).len() as int) == pairs(base),
                forall|p: (int, int)| #[trigger] pairs(base).contains(p) ==> p.0 < s,
                forall|i: int| pairs(base).len() <= i < pairs(edges@).len() ==> #[trigger] pairs(edges@)[i] == (s as int, row@[i - pairs(base).len()] as int),
                pairs(edges@).len() == pairs(base).len() + k,
            decreases row@.len() - k,
        {
            let t = row[k];
            let e = EdgeEndpoints::new(NodeIndex::new(s as u32), NodeIndex::new(t));
            let ghost pre = edges@;
            edges.push(e);
            proof {
                lemma_pairs_push(pre, e);
                let ps = pairs(edges@);
                let pp = pairs(pre);
                assert forall|i: int, j: int| 0 <= i < j < ps.len() implies pair_before(#[trigger] ps[i], #[trigger] ps[j]) by {
                    if j == ps.len() - 1 {
                        if i < pairs(base).len() {
                            assert(pairs(base)[i] == ps[i]);
                            assert(pairs(base).contains(ps[i]));
                        } else {
                            assert(ps[i] == (s as int, row@[i - pairs(base).len()] as int));
                        }
                    } else {
                        assert(pp[i] == ps[i] && pp[j] == ps[j]);
                    }
                }
                assert(ps.subrange(0, pairs(base).len() as int) =~= pp.subrange(0, pairs(base).len() as int));
                assert forall|i: int| pairs(base).len() <= i < ps.len() implies #[trigger] ps[i] == (s as int, row@[i - pairs(base).len()] as int) by {
                    if i < ps.len() - 1 {
                        assert(ps[i] == pp[i]);
                    }
                }
            }
            k = k + 1;
        }
        proof {
            let ps = pairs(edges@);
            let pb = pairs(base);
            assert forall|p: (int, int)| #[trigger] ps.contains(p) <==> (0 <= p.0 < s + 1 && 0 <= p.1 < n && (has_edge(left@, p.0, p.1) || has_edge(right@, p.0, p.1))) by {
                if ps.contains(p) {
                    let i = choose|i: int| 0 <= i < ps.len() && ps[i] == p;
                    if i < pb.len() {
                        assert(pb[i] == p);
                        assert(pb.contains(p));
                    } else {
                        let x = row@[i - pb.len()];
                        assert(row@.contains(x));
                    }
                }
                if 0 <= p.0 < s + 1 && 0 <= p.1 < n && (has_edge(left@, p.0, p.1) || has_edge(right@, p.0, p.1)) {
                    if p.0 < s {
                        assert(pb.contains(p));
                        let i = choose|i: int| 0 <= i < pb.len() && pb[i] == p;
                        assert(ps[i] == p);
                    } else {
                        let x = p.1 as u32;
                        assert(row@.contains(x));
                        let j = choose|j: int| 0 <= j < row@.len() && row@[j] == x;
                        assert(ps[pb.len() + j] == p);
                    }
                }
            }
        }
        s = s + 1;
    }
    let ghost es = edges@;
    let r = Topology::try_from_edges(n, edges);
    proof {
        let nn = if left@.node_count >= right@.node_count { left@.node_count } else { right@.node_count };
        let wanted = |s: int, t: int| has_edge(left@, s, t) || has_edge(right@, s, t);
        assert forall|p: (int, int)| #[trigger] pairs(es).contains(p) <==> (0 <= p.0 < nn && 0 <= p.1 < nn && wanted(p.0, p.1)) by {}
        assert(builds(nn as usize, es, r));
    }
    match r {
        Ok(topology) => {
            let proj = TopologyProjection { topology, original_nodes: nodes };
            proof {
                let nn = if left@.node_count >= right@.node_count { left@.node_count } else { right@.node_count };
                let wanted = |s: int, t: int| has_edge(left@, s, t) || has_edge(right@, s, t);
                let rr: Result<TopologyProjection<NodeIndex>> = Ok(proj);
                assert(builds(nn as usize, es, Ok(topology)) && topology@ == proj.model());
                assert(match rr {
                    Ok(proj) => proj.originals() == identity_nodes(nn) && exists|t: Topology| #[trigger] builds(nn as usize, es, Ok(t)) && t@ == proj.model(),
                    Err(e) => builds(nn as usize, es, Err(e)),
                });
                assert(projects(nn, wanted, rr));
            }
            Ok(proj)
        },
        Err(e) => Err(e),
    }
}

} // verus!
