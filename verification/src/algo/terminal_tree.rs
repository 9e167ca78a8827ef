//! Whether a set of edges joins a list of terminals as one tree: every two
//! terminals connected through the edges, and one edge fewer than the nodes
//! the edges touch.
use super::kruskal::{joined, kept_mask, lemma_walkable_concat};
use super::reach::{
    follows, lemma_closed_holds_reachable, lemma_reach_self, lemma_reach_step, lemma_step_in_range, step,
    walk_between, walkable, Direction,
};
use super::cores::{lemma_remaining_bound, lemma_remaining_set, remaining};
use super::steiner::{
    connected, degree_in, ends_at, ends_of, increasing, lemma_degree_remove, lemma_spanned_reaches, links_joined, peak,
    shortest_paths, touches, tree_links,
};
use crate::topology::{GraphModel, NodeIndex, UndirectedTopology};
use vstd::prelude::*;

verus! {

/// `v` is an end of one of `edges`.
pub open spec fn touched(g: GraphModel, edges: Seq<usize>, v: int) -> bool {
    exists|i: int| 0 <= i < edges.len() && #[trigger] touches(g, edges[i] as int, v)
}

/// How many nodes below `k` are ends of `edges`.
pub open spec fn touched_count(g: GraphModel, edges: Seq<usize>, k: int) -> int
    decreases k,
{
    if k <= 0 {
        0
    } else {
        touched_count(g, edges, k - 1) + if touched(g, edges, k - 1) {
            1int
        } else {
            0
        }
    }
}

/// `edges` join every two of `ends` and, when there are any, number one
/// fewer than the nodes they touch: together they form one tree.
pub open spec fn spans_as_tree(g: GraphModel, edges: Seq<usize>, ends: Seq<int>) -> bool {
    &&& forall|a: int, b: int| 0 <= a < ends.len() && 0 <= b < ends.len() ==> joined(g, edges, #[trigger] ends[a], #[trigger] ends[b])
    &&& edges.len() == 0 || edges.len() + 1 == touched_count(g, edges, g.node_count as int)
}

/// Connection through kept edges goes both ways.
pub proof fn lemma_joined_symmetric(g: GraphModel, kept: Seq<usize>, u: int, v: int)
    requires
        g.valid(),
        joined(g, kept, u, v),
    ensures
        joined(g, kept, v, u),
{
    let mask = kept_mask(g.edges.len(), kept);
    let pw = choose|p: Seq<int>| #[trigger] walk_between(g, mask, Direction::Both, p, u, v);
    assert(0 <= pw[0] < g.node_count);
    lemma_reach_self(g, mask, Direction::Both, u);
    let set = Set::new(|w: int| 0 <= w < g.node_count && walkable(g, mask, Direction::Both, w, u));
    assert forall|a: int, b: int| set.contains(a) && #[trigger] step(g, mask, Direction::Both, a, b) implies set.contains(b) by {
        let e = choose|e: int| follows(g, mask, Direction::Both, e, a, b);
        assert(follows(g, mask, Direction::Both, e, b, a));
        lemma_step_in_range(g, mask, Direction::Both, a, b);
        lemma_reach_self(g, mask, Direction::Both, b);
        lemma_reach_step(g, mask, Direction::Both, b, b, a);
        lemma_walkable_concat(g, mask, Direction::Both, b, a, u);
    }
    lemma_closed_holds_reachable(g, mask, Direction::Both, u, v, set);
}

/// Whether `edges` join the nodes `ends` as one tree.
pub(crate) fn spans_terminals(graph: &UndirectedTopology, edges: &Vec<usize>, ends: &Vec<usize>) -> (r: bool)
    requires
        forall|i: int| 0 <= i < edges@.len() ==> #[trigger] edges@[i] < graph@.edges.len(),
        forall|i: int| 0 <= i < ends@.len() ==> #[trigger] ends@[i] < graph@.node_count,
    ensures
        r ==> spans_as_tree(graph@, edges@, ends@.map_values(|x: usize| x as int)),
{
    let n = graph.node_count();
    let m = graph.edge_count();
    let ghost g = graph@;
    let ghost mask = kept_mask(g.edges.len(), edges@);
    if ends.len() == 0 {
        return false;
    }
    let root = ends[0];
    let mut in_tree = crate::util::filled_vec(false, m);
    let mut i: usize = 0;
    while i < edges.len()
        invariant
            m == g.edges.len(),
            in_tree@.len() == m,
            i <= edges@.len(),
            forall|i: int| 0 <= i < edges@.len() ==> #[trigger] edges@[i] < m,
            forall|e: int| 0 <= e < m ==> (#[trigger] in_tree@[e] <==> exists|j: int| 0 <= j < i && edges@[j] == e),
        decreases edges@.len() - i,
    {
        in_tree.set(edges[i], true);
        proof {
            assert forall|e: int| 0 <= e < m implies (#[trigger] in_tree@[e] <==> exists|j: int| 0 <= j < i + 1 && edges@[j] == e) by {
                if e == edges@[i as int] {
                    assert(edges@[i as int] == e);
                }
            }
        }
        i += 1;
    }
    proof {
        assert forall|e: int| 0 <= e < m implies (#[trigger] in_tree@[e] <==> mask[e]) by {
            if in_tree@[e] {
                let j = choose|j: int| 0 <= j < edges@.len() && edges@[j] == e;
                assert(edges@.contains(edges@[j]));
            }
            if mask[e] {
                assert(edges@.contains(e as usize));
                let j = choose|j: int| 0 <= j < edges@.len() && edges@[j] == e as usize;
                assert(edges@[j] == e);
            }
        }
    }
    let mut reach = crate::util::filled_vec(false, n);
    proof {
        lemma_remaining_set(reach@, root as int, n as int);
    }
    reach.set(root, true);
    proof {
        lemma_reach_self(g, mask, Direction::Both, root as int);
    }
    let mut stack: Vec<usize> = Vec::new();
    stack.push(root);
    while stack.len() > 0
        invariant
            g == graph@,
            g.valid(),
            n == g.node_count,
            m == g.edges.len(),
            mask == kept_mask(g.edges.len(), edges@),
            in_tree@.len() == m,
            forall|e: int| 0 <= e < m ==> (#[trigger] in_tree@[e] <==> mask[e]),
            root < n,
            reach@.len() == n,
            forall|q: int| 0 <= q < stack@.len() ==> #[trigger] stack@[q] < n,
            forall|v: int| 0 <= v < n && #[trigger] reach@[v] ==> joined(g, edges@, root as int, v),
            forall|q: int| 0 <= q < stack@.len() ==> reach@[#[trigger] stack@[q] as int],
            n <= u32::MAX,
        decreases remaining(reach@, n as int), stack@.len(),
    {
        let ghost r0 = remaining(reach@, n as int);
        let ghost s0 = stack@.len();
        let u = stack.pop().unwrap();
        proof {
            assert(reach@[u as int]);
        }
        let inc = graph.incident_edges(NodeIndex(u as u32));
        let mut k: usize = 0;
        while k < inc.len()
            invariant
                g == graph@,
                g.valid(),
                n == g.node_count,
                m == g.edges.len(),
                mask == kept_mask(g.edges.len(), edges@),
                in_tree@.len() == m,
                forall|e: int| 0 <= e < m ==> (#[trigger] in_tree@[e] <==> mask[e]),
                root < n,
                u < n,
                reach@.len() == n,
                reach@[u as int],
                n <= u32::MAX,
                forall|q: int| 0 <= q < stack@.len() ==> reach@[#[trigger] stack@[q] as int],
                forall|q: int| 0 <= q < stack@.len() ==> #[trigger] stack@[q] < n,
                forall|v: int| 0 <= v < n && #[trigger] reach@[v] ==> joined(g, edges@, root as int, v),
                remaining(reach@, n as int) + stack@.len() == r0 + s0 - 1,
                remaining(reach@, n as int) <= r0,
            decreases inc@.len() - k,
        {
            let e = inc[k];
            if e.index() < m && in_tree[e.index()] {
                match graph.opposite(e, NodeIndex(u as u32)) {
                    Some(w) => {
                        let wi = w.index();
                        proof {
                            assert((u as u32) as int == u as int);
                            assert(g.opposite(e.0 as int, u as int) == Some(w.0 as int));
                            assert(mask[e.0 as int]);
                            assert(follows(g, mask, Direction::Both, e.0 as int, u as int, w.0 as int));
                            assert(0 <= w.0 < n);
                        }
                        if !reach[wi] {
                            proof {
                                lemma_reach_step(g, mask, Direction::Both, root as int, u as int, wi as int);
                                lemma_remaining_set(reach@, wi as int, n as int);
                            }
                            reach.set(wi, true);
                            stack.push(wi);
                        }
                    },
                    None => {},
                }
            }
            k += 1;
        }
        proof {
            lemma_remaining_bound(reach@, n as int);
        }
    }
    let mut k: usize = 0;
    while k < ends.len()
        invariant
            g == graph@,
            g.valid(),
            n == g.node_count,
            reach@.len() == n,
            0 < ends@.len(),
            k <= ends@.len(),
            root == ends@[0],
            forall|i: int| 0 <= i < ends@.len() ==> #[trigger] ends@[i] < n,
            forall|v: int| 0 <= v < n && #[trigger] reach@[v] ==> joined(g, edges@, root as int, v),
            forall|j: int| 0 <= j < k ==> joined(g, edges@, root as int, #[trigger] ends@[j] as int),
        decreases ends@.len() - k,
    {
        if !reach[ends[k]] {
            return false;
        }
        k += 1;
    }
    let mut mark = crate::util::filled_vec(false, n);
    let mut i: usize = 0;
    while i < edges.len()
        invariant
            g == graph@,
            g.valid(),
            n == g.node_count,
            m == g.edges.len(),
            mark@.len() == n,
            i <= edges@.len(),
            forall|i: int| 0 <= i < edges@.len() ==> #[trigger] edges@[i] < m,
            forall|v: int| 0 <= v < n ==> (#[trigger] mark@[v] <==> exists|j: int| 0 <= j < i && touches(g, edges@[j] as int, v)),
        decreases edges@.len() - i,
    {
        let (a, b) = ends_of(graph, edges[i]);
        mark.set(a, true);
        mark.set(b, true);
        proof {
            assert forall|v: int| 0 <= v < n implies (#[trigger] mark@[v] <==> exists|j: int|
                0 <= j < i + 1 && touches(g, edges@[j] as int, v)) by {
                if touches(g, edges@[i as int] as int, v) {
                    assert(v == a || v == b);
                }
                if v == a || v == b {
                    assert(touches(g, edges@[i as int] as int, v));
                }
            }
        }
        i += 1;
    }
    let mut count: usize = 0;
    let mut v: usize = 0;
    while v < n
        invariant
            v <= n,
            g == graph@,
            n == g.node_count,
            mark@.len() == n,
            count == touched_count(g, edges@, v as int),
            count <= v,
            forall|w: int| 0 <= w < n ==> (#[trigger] mark@[w] <==> exists|j: int| 0 <= j < edges@.len() && touches(g, edges@[j] as int, w)),
        decreases n - v,
    {
        if mark[v] {
            count += 1;
        }
        v += 1;
    }
    if !(edges.len() == 0 || (count >= 1 && edges.len() == count - 1)) {
        return false;
    }
    proof {
        let ints = ends@.map_values(|x: usize| x as int);
        assert forall|a: int, b: int| 0 <= a < ints.len() && 0 <= b < ints.len() implies joined(
            g,
            edges@,
            #[trigger] ints[a],
            #[trigger] ints[b],
        ) by {
            assert(joined(g, edges@, root as int, ends@[a] as int));
            assert(joined(g, edges@, root as int, ends@[b] as int));
            lemma_joined_symmetric(g, edges@, root as int, ends@[a] as int);
            lemma_walkable_concat(g, mask, Direction::Both, ends@[a] as int, root as int, ends@[b] as int);
        }
    }
    true
}

/// How many of the first `k` flags are set.
pub open spec fn count_true(s: Seq<bool>, k: int) -> int
    decreases k,
{
    if k <= 0 {
        0
    } else {
        count_true(s, k - 1) + if s[k - 1] {
            1int
        } else {
            0
        }
    }
}

/// Setting one unset flag counts one more wherever it lies in range.
proof fn lemma_count_set(s: Seq<bool>, i: int, k: int)
    requires
        0 <= i < s.len(),
        !s[i],
        k <= s.len(),
    ensures
        count_true(s.update(i, true), k) == count_true(s, k) + if i < k {
            1int
        } else {
            0
        },
    decreases k,
{
    if k > 0 {
        lemma_count_set(s, i, k - 1);
    }
}

/// No flag set, nothing counted.
proof fn lemma_count_zero(s: Seq<bool>, k: int)
    requires
        forall|i: int| 0 <= i < k ==> !#[trigger] s[i],
    ensures
        count_true(s, k) == 0,
    decreases k,
{
    if k > 0 {
        lemma_count_zero(s, k - 1);
    }
}

/// Counts over agreeing flags agree.
proof fn lemma_count_agree(g: GraphModel, edges: Seq<usize>, marked: Seq<bool>, k: int)
    requires
        forall|x: int| 0 <= x < k ==> (touched(g, edges, x) <==> #[trigger] marked[x]),
    ensures
        touched_count(g, edges, k) == count_true(marked, k),
    decreases k,
{
    if k > 0 {
        lemma_count_agree(g, edges, marked, k - 1);
        assert(touched(g, edges, k - 1) <==> marked[k - 1]);
    }
}

/// Two nodes do not share the edge that links each to its predecessor.
proof fn lemma_link_edges_differ(
    g: GraphModel,
    pred: Seq<Option<(usize, usize)>>,
    order: Seq<int>,
    v: int,
    w: int,
)
    requires
        tree_links(pred, order, g.node_count as int, g.edges.len() as int),
        links_joined(g, pred),
        0 <= v < g.node_count,
        0 <= w < g.node_count,
        v != w,
        pred[v] is Some,
        pred[w] is Some,
    ensures
        (pred[v]->0).1 != (pred[w]->0).1,
{
    let (pv, e) = pred[v]->0;
    let (pw, f) = pred[w]->0;
    assert(g.opposite(e as int, pv as int) == Some(v));
    assert(g.opposite(f as int, pw as int) == Some(w));
    assert(order[pv as int] < order[v]);
    assert(order[pw as int] < order[w]);
}

/// Degrees are never negative.
proof fn lemma_degree_nonneg(g: GraphModel, s: Seq<usize>, v: int)
    ensures
        degree_in(g, s, v) >= 0,
    decreases s.len(),
{
    if s.len() > 0 {
        lemma_degree_nonneg(g, s.drop_last(), v);
    }
}

/// A node that no listed edge touches has degree zero.
proof fn lemma_degree_untouched(g: GraphModel, s: Seq<usize>, v: int)
    requires
        !touched(g, s, v),
    ensures
        degree_in(g, s, v) == 0,
    decreases s.len(),
{
    if s.len() > 0 {
        assert(!touches(g, s[s.len() - 1] as int, v));
        assert forall|i: int| 0 <= i < s.drop_last().len() implies !#[trigger] touches(g, s.drop_last()[i] as int, v) by {
            assert(s.drop_last()[i] == s[i]);
        }
        lemma_degree_untouched(g, s.drop_last(), v);
    }
}

/// Two listed edges that both touch `v` give it degree two or more.
proof fn lemma_degree_two(g: GraphModel, s: Seq<usize>, i: int, j: int, v: int)
    requires
        0 <= i < s.len(),
        0 <= j < s.len(),
        i != j,
        touches(g, s[i] as int, v),
        touches(g, s[j] as int, v),
    ensures
        degree_in(g, s, v) >= 2,
{
    lemma_degree_remove(g, s, i, v);
    let r = s.remove(i);
    let j2 = if j < i { j } else { j - 1 };
    assert(r[j2] == s[j]);
    lemma_degree_remove(g, r, j2, v);
    lemma_degree_nonneg(g, r.remove(j2), v);
}

/// The marks of a union of climbs to `root`: each marked node other than
/// `root` is reached and its predecessor is marked too.
pub open spec fn climbs_marked(
    pred: Seq<Option<(usize, usize)>>,
    dist: Seq<u64>,
    marked: Seq<bool>,
    root: int,
) -> bool {
    &&& marked.len() == pred.len()
    &&& marked[root]
    &&& forall|v: int|
        0 <= v < marked.len() && v != root && #[trigger] marked[v] ==> pred[v] is Some && dist[v] != u64::MAX
            && marked[(pred[v]->0).0 as int]
}

/// Every marked node is joined to `root` through the link edges of the
/// marked nodes.
proof fn lemma_marked_joined(
    g: GraphModel,
    pred: Seq<Option<(usize, usize)>>,
    order: Seq<int>,
    dist: Seq<u64>,
    marked: Seq<bool>,
    edges: Seq<usize>,
    root: int,
    v: int,
)
    requires
        g.valid(),
        tree_links(pred, order, g.node_count as int, g.edges.len() as int),
        links_joined(g, pred),
        0 <= root < g.node_count,
        climbs_marked(pred, dist, marked, root),
        forall|w: int| 0 <= w < g.node_count && w != root && #[trigger] marked[w] ==> edges.contains((pred[w]->0).1),
        0 <= v < g.node_count,
        marked[v],
    ensures
        joined(g, edges, root, v),
    decreases order[v],
{
    let mask = kept_mask(g.edges.len(), edges);
    if v == root {
        lemma_reach_self(g, mask, Direction::Both, root);
    } else {
        let (p, e) = pred[v]->0;
        assert(marked[p as int]);
        lemma_marked_joined(g, pred, order, dist, marked, edges, root, p as int);
        assert(g.opposite(e as int, p as int) == Some(v));
        assert(edges.contains(e));
        assert(follows(g, mask, Direction::Both, e as int, p as int, v));
        lemma_reach_step(g, mask, Direction::Both, root, p as int, v);
    }
}

/// A marked node other than `root` leads down to a marked child of `root`.
proof fn lemma_root_child(
    pred: Seq<Option<(usize, usize)>>,
    order: Seq<int>,
    dist: Seq<u64>,
    marked: Seq<bool>,
    n: int,
    m: int,
    root: int,
    v: int,
) -> (c: int)
    requires
        tree_links(pred, order, n, m),
        climbs_marked(pred, dist, marked, root),
        0 <= v < n,
        v != root,
        marked[v],
    ensures
        0 <= c < n,
        c != root,
        marked[c],
        (pred[c]->0).0 == root,
    decreases order[v],
{
    let p = (pred[v]->0).0 as int;
    if p == root {
        v
    } else {
        lemma_root_child(pred, order, dist, marked, n, m, root, p)
    }
}

/// The union of the shortest-path climbs from each of `ends` to the first
/// of them: one tree that joins them all.
#[verifier::rlimit(60)]
#[verifier::spinoff_prover]
pub(crate) fn root_paths(graph: &UndirectedTopology, costs: &Vec<u64>, ends: &Vec<usize>) -> (r: Vec<usize>)
    requires
        costs@.len() == graph@.edges.len(),
        ends@.len() > 0,
        forall|i: int| 0 <= i < ends@.len() ==> #[trigger] ends@[i] < graph@.node_count,
        forall|i: int| 0 <= i < ends@.len() ==> connected(graph@, ends@[0] as int, #[trigger] ends@[i] as int),
        graph@.node_count * peak(costs@) < u64::MAX,
    ensures
        increasing(r@),
        forall|i: int| 0 <= i < r@.len() ==> #[trigger] r@[i] < graph@.edges.len(),
        spans_as_tree(graph@, r@, ends@.map_values(|x: usize| x as int)),
        forall|x: int|
            0 <= x < graph@.node_count && (forall|i: int| 0 <= i < ends@.len() ==> #[trigger] ends@[i] != x)
                ==> #[trigger] degree_in(graph@, r@, x) != 1,
{
    let n = graph.node_count();
    let m = graph.edge_count();
    let ghost g = graph@;
    let root = ends[0];
    let (dist, pred, Ghost(order)) = match shortest_paths(graph, costs, root) {
        Ok(found) => found,
        Err(_) => {
            proof {
                assert(false);
            }
            return Vec::new();
        },
    };
    let mut marked = crate::util::filled_vec(false, n);
    marked.set(root, true);
    let mut k: usize = 0;
    while k < ends.len()
        invariant
            g == graph@,
            g.valid(),
            n == g.node_count,
            m == g.edges.len() == costs@.len(),
            root == ends@[0],
            k <= ends@.len(),
            dist@.len() == n,
            tree_links(pred@, order, n as int, m as int),
            links_joined(g, pred@),
            pred@[root as int] is None,
            dist@[root as int] == 0,
            forall|v: int| 0 <= v < n && v != root && #[trigger] dist@[v] != u64::MAX ==> pred@[v] is Some,
            forall|w: int| 0 <= w < n && #[trigger] pred@[w] is Some ==> dist@[(pred@[w]->0).0 as int] != u64::MAX,
            forall|u: int, e: int|
                0 <= u < n && dist@[u] != u64::MAX && 0 <= e < m ==> #[trigger] super::steiner::spanned(g, costs@, dist@, u, e),
            forall|u: int| 0 <= u < n && #[trigger] dist@[u] != u64::MAX ==> dist@[u] + peak(costs@) <= n * peak(costs@),
            n * peak(costs@) < u64::MAX,
            forall|i: int| 0 <= i < ends@.len() ==> #[trigger] ends@[i] < n,
            forall|i: int| 0 <= i < ends@.len() ==> connected(g, root as int, #[trigger] ends@[i] as int),
            climbs_marked(pred@, dist@, marked@, root as int),
            forall|i: int| 0 <= i < k ==> #[trigger] marked@[ends@[i] as int],
            forall|v: int|
                0 <= v < n && v != root && #[trigger] marked@[v] ==> (exists|i: int| 0 <= i < ends@.len() && ends@[i] == v)
                    || exists|c: int| 0 <= c < n && c != root && marked@[c] && (pred@[c]->0).0 == v,
        decreases ends@.len() - k,
    {
        let mut cur = ends[k];
        let ghost mut prev: int = 0;
        proof {
            lemma_spanned_reaches(g, costs@, dist@, root as int, cur as int);
        }
        while !marked[cur]
            invariant
                n == g.node_count,
                g == graph@,
                cur < n,
                dist@.len() == n,
                dist@[cur as int] != u64::MAX,
                tree_links(pred@, order, n as int, m as int),
                pred@[root as int] is None,
                forall|v: int| 0 <= v < n && v != root && #[trigger] dist@[v] != u64::MAX ==> pred@[v] is Some,
                forall|w: int| 0 <= w < n && #[trigger] pred@[w] is Some ==> dist@[(pred@[w]->0).0 as int] != u64::MAX,
                marked@.len() == n,
                marked@[root as int],
                root < n,
                forall|v: int|
                    0 <= v < n && v != root && #[trigger] marked@[v] ==> pred@[v] is Some && dist@[v] != u64::MAX && (
                    marked@[(pred@[v]->0).0 as int] || (pred@[v]->0).0 == cur),
                forall|i: int| 0 <= i < k ==> #[trigger] marked@[ends@[i] as int],
                marked@[ends@[k as int] as int] || cur == ends@[k as int],
                cur == ends@[k as int] || (0 <= prev < n && prev != root && marked@[prev] && (pred@[prev]->0).0 == cur),
                forall|v: int|
                    0 <= v < n && v != root && #[trigger] marked@[v] ==> (exists|i: int| 0 <= i < ends@.len() && ends@[i] == v)
                        || exists|c: int| 0 <= c < n && c != root && marked@[c] && (pred@[c]->0).0 == v,
                k < ends@.len(),
                forall|i: int| 0 <= i < ends@.len() ==> #[trigger] ends@[i] < n,
            decreases order[cur as int],
        {
            proof {
                assert(cur != root);
                assert(pred@[cur as int] is Some);
            }
            let ghost before = marked@;
            marked.set(cur, true);
            let (p, _e) = match pred[cur] {
                Some(link) => link,
                None => {
                    proof {
                        assert(false);
                    }
                    (0, 0)
                },
            };
            proof {
                assert(pred@[cur as int] matches Some((pp, _)) && pp == p);
                assert(0 <= order[p as int] < order[cur as int]);
                assert forall|v: int|
                    0 <= v < n && v != root && #[trigger] marked@[v] implies (exists|i: int|
                        0 <= i < ends@.len() && ends@[i] == v) || exists|c: int|
                        0 <= c < n && c != root && marked@[c] && (pred@[c]->0).0 == v by {
                    if v == cur as int {
                        if cur != ends@[k as int] {
                            assert(marked@[prev]);
                        } else {
                            assert(ends@[k as int] == v);
                        }
                    } else {
                        assert(before[v]);
                        if !(exists|i: int| 0 <= i < ends@.len() && ends@[i] == v) {
                            let c = choose|c: int| 0 <= c < n && c != root && before[c] && (pred@[c]->0).0 == v;
                            assert(marked@[c]);
                        }
                    }
                }
                prev = cur as int;
            }
            cur = p;
        }
        k += 1;
    }
    let mut sel = crate::util::filled_vec(false, m);
    proof {
        lemma_count_zero(sel@, m as int);
    }
    let mut v: usize = 0;
    while v < n
        invariant
            g == graph@,
            g.valid(),
            n == g.node_count,
            m == g.edges.len(),
            v <= n,
            root < n,
            sel@.len() == m,
            tree_links(pred@, order, n as int, m as int),
            links_joined(g, pred@),
            climbs_marked(pred@, dist@, marked@, root as int),
            forall|e: int| 0 <= e < m ==> (#[trigger] sel@[e] <==> exists|w: int|
                0 <= w < v && w != root && marked@[w] && (pred@[w]->0).1 == e),
            count_true(sel@, m as int) + (if root < v && true { 1int } else { 0 }) == count_true(marked@, v as int),
        decreases n - v,
    {
        if v != root && marked[v] {
            let e = match pred[v] {
                Some(link) => link.1,
                None => {
                    proof {
                        assert(false);
                    }
                    0
                },
            };
            proof {
                assert(pred@[v as int] matches Some((_, ee)) && ee == e);
                assert(e < m);
                assert(!sel@[e as int]) by {
                    if sel@[e as int] {
                        let w = choose|w: int| 0 <= w < v && w != root && marked@[w] && (pred@[w]->0).1 == e;
                        lemma_link_edges_differ(g, pred@, order, v as int, w);
                    }
                }
                lemma_count_set(sel@, e as int, m as int);
            }
            sel.set(e, true);
        }
        proof {
            assert forall|e: int| 0 <= e < m implies (#[trigger] sel@[e] <==> exists|w: int|
                0 <= w < v + 1 && w != root && marked@[w] && (pred@[w]->0).1 == e) by {
                if exists|w: int| 0 <= w < v + 1 && w != root && marked@[w] && (pred@[w]->0).1 == e {
                    let w = choose|w: int| 0 <= w < v + 1 && w != root && marked@[w] && (pred@[w]->0).1 == e;
                    if w < v {
                        assert(exists|w: int| 0 <= w < v && w != root && marked@[w] && (pred@[w]->0).1 == e);
                    }
                }
            }
        }
        v += 1;
    }
    let mut out: Vec<usize> = Vec::new();
    let mut e: usize = 0;
    while e < m
        invariant
            e <= m,
            sel@.len() == m,
            increasing(out@),
            forall|i: int| 0 <= i < out@.len() ==> #[trigger] out@[i] < e,
            forall|x: usize| #[trigger] out@.contains(x) <==> (x < e && sel@[x as int]),
            out@.len() == count_true(sel@, e as int),
        decreases m - e,
    {
        if sel[e] {
            let ghost before = out@;
            out.push(e);
            proof {
                assert forall|x: usize| #[trigger] out@.contains(x) <==> (x < e + 1 && sel@[x as int]) by {
                    if out@.contains(x) {
                        let i = choose|i: int| 0 <= i < out@.len() && out@[i] == x;
                        if i < before.len() {
                            assert(before.contains(x));
                        }
                    }
                    if x < e + 1 && sel@[x as int] {
                        if x < e {
                            assert(before.contains(x));
                            let i = choose|i: int| 0 <= i < before.len() && before[i] == x;
                            assert(out@[i] == x);
                        } else {
                            assert(out@[out@.len() - 1] == x);
                        }
                    }
                }
            }
        } else {
            proof {
                assert forall|x: usize| #[trigger] out@.contains(x) <==> (x < e + 1 && sel@[x as int]) by {
                    if out@.contains(x) {
                        let i = choose|i: int| 0 <= i < out@.len() && out@[i] == x;
                    }
                }
            }
        }
        e += 1;
    }
    proof {
        let ints = ends@.map_values(|x: usize| x as int);
        assert forall|w: int| 0 <= w < n && w != root && #[trigger] marked@[w] implies out@.contains((pred@[w]->0).1) by {
            let f = (pred@[w]->0).1;
            assert(f < m);
            assert(sel@[f as int]);
        }
        assert forall|a: int, b: int| 0 <= a < ints.len() && 0 <= b < ints.len() implies joined(
            g,
            out@,
            #[trigger] ints[a],
            #[trigger] ints[b],
        ) by {
            lemma_marked_joined(g, pred@, order, dist@, marked@, out@, root as int, ends@[a] as int);
            lemma_marked_joined(g, pred@, order, dist@, marked@, out@, root as int, ends@[b] as int);
            lemma_joined_symmetric(g, out@, root as int, ends@[a] as int);
            lemma_walkable_concat(g, kept_mask(g.edges.len(), out@), Direction::Both, ends@[a] as int, root as int, ends@[b] as int);
        }
        if out@.len() > 0 {
            assert(out@.contains(out@[0]));
            let e0 = out@[0];
            let w0 = choose|w: int| 0 <= w < n && w != root && marked@[w] && (pred@[w]->0).1 == e0 as int;
            let c = lemma_root_child(pred@, order, dist@, marked@, n as int, m as int, root as int, w0);
            assert forall|x: int| 0 <= x < n implies (touched(g, out@, x) <==> #[trigger] marked@[x]) by {
                if touched(g, out@, x) {
                    let i = choose|i: int| 0 <= i < out@.len() && #[trigger] touches(g, out@[i] as int, x);
                    assert(out@.contains(out@[i]));
                    let f = out@[i];
                    let w = choose|w: int| 0 <= w < n && w != root && marked@[w] && (pred@[w]->0).1 == f as int;
                    let p = (pred@[w]->0).0;
                    assert(g.opposite(f as int, p as int) == Some(w));
                }
                if marked@[x] {
                    let y = if x == root { c } else { x };
                    let f = (pred@[y]->0).1;
                    assert(out@.contains(f));
                    let i = choose|i: int| 0 <= i < out@.len() && out@[i] == f;
                    assert(g.opposite(f as int, (pred@[y]->0).0 as int) == Some(y));
                    assert(touches(g, out@[i] as int, x));
                }
            }
            lemma_count_agree(g, out@, marked@, n as int);
        }
        assert forall|x: int|
            0 <= x < n && (forall|i: int| 0 <= i < ends@.len() ==> #[trigger] ends@[i] != x) implies #[trigger] degree_in(
            g,
            out@,
            x,
        ) != 1 by {
            if marked@[x] {
                assert(x != root);
                assert(!exists|i: int| 0 <= i < ends@.len() && ends@[i] == x);
                let c = choose|c: int| 0 <= c < n && c != root && marked@[c] && (pred@[c]->0).0 == x;
                let f = (pred@[x]->0).1;
                let h = (pred@[c]->0).1;
                lemma_link_edges_differ(g, pred@, order, x, c);
                assert(out@.contains(f));
                assert(out@.contains(h));
                let i = choose|i: int| 0 <= i < out@.len() && out@[i] == f;
                let j = choose|j: int| 0 <= j < out@.len() && out@[j] == h;
                assert(g.opposite(f as int, (pred@[x]->0).0 as int) == Some(x));
                assert(g.opposite(h as int, x) == Some(c));
                lemma_degree_two(g, out@, i, j, x);
            } else {
                assert(!touched(g, out@, x)) by {
                    if touched(g, out@, x) {
                        let i = choose|i: int| 0 <= i < out@.len() && #[trigger] touches(g, out@[i] as int, x);
                        assert(out@.contains(out@[i]));
                        let f = out@[i];
                        let w = choose|w: int| 0 <= w < n && w != root && marked@[w] && (pred@[w]->0).1 == f as int;
                        let p = (pred@[w]->0).0;
                        assert(g.opposite(f as int, p as int) == Some(w));
                    }
                }
                lemma_degree_untouched(g, out@, x);
            }
        }
    }
    out
}

} // verus!
