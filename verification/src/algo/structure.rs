//! Cycle structure of the undirected projection.
use super::projection::{linked, lists_exactly, projection, projection_rows};
use crate::topology::{GraphModel, NodeIndex, Topology};
use vstd::prelude::*;

verus! {

/// `c` is a closed walk of the undirected projection of `g`: each node is
/// linked to the next, and the last to the first.
pub open spec fn closed_walk(g: GraphModel, c: Seq<int>) -> bool {
    &&& c.len() >= 2
    &&& forall|i: int| 0 <= i < c.len() - 1 ==> linked(g, #[trigger] c[i], c[i + 1])
    &&& linked(g, c.last(), c[0])
}

/// The node positions of a list of node indexes.
pub open spec fn node_ints(c: Seq<NodeIndex>) -> Seq<int> {
    c.map_values(|v: NodeIndex| v.0 as int)
}

/// How many of the first `k` depths are set.
pub open spec fn seen(depth: Seq<usize>, k: int) -> int
    decreases k,
{
    if k <= 0 {
        0
    } else {
        seen(depth, k - 1) + if depth[k - 1] != usize::MAX {
            1int
        } else {
            0
        }
    }
}

proof fn lemma_seen_bound(depth: Seq<usize>, k: int)
    requires
        0 <= k,
    ensures
        0 <= seen(depth, k) <= k,
    decreases k,
{
    if k > 0 {
        lemma_seen_bound(depth, k - 1);
    }
}

proof fn lemma_seen_set(depth: Seq<usize>, j: int, x: usize, k: int)
    requires
        0 <= j < depth.len(),
        0 <= k <= depth.len(),
        depth[j] == usize::MAX,
        x != usize::MAX,
    ensures
        seen(depth.update(j, x), k) == seen(depth, k) + if j < k {
            1int
        } else {
            0
        },
    decreases k,
{
    if k > 0 {
        lemma_seen_set(depth, j, x, k - 1);
    }
}

proof fn lemma_linked_symmetric(g: GraphModel, u: int, v: int)
    requires
        linked(g, u, v),
    ensures
        linked(g, v, u),
{
    let e = choose|e: int|
        0 <= e < g.edges.len() && ((#[trigger] g.edges[e].0 == u && g.edges[e].1 == v) || (g.edges[e].0 == v
            && g.edges[e].1 == u));
    assert(g.edges[e] == g.edges[e]);
}

/// The breadth-first forest facts: each parent is a linked node one level
/// up, and every level is below the number of nodes reached.
pub open spec fn forest(g: GraphModel, parent: Seq<Option<usize>>, depth: Seq<usize>, reached: int) -> bool {
    &&& parent.len() == g.node_count
    &&& depth.len() == g.node_count
    &&& forall|v: int|
        0 <= v < g.node_count && (#[trigger] parent[v]) is Some ==> {
            let p = parent[v]->0 as int;
            &&& 0 <= p < g.node_count
            &&& linked(g, v, p)
            &&& depth[v] != usize::MAX
            &&& depth[p] != usize::MAX
            &&& depth[v] == depth[p] + 1
        }
    &&& forall|v: int| 0 <= v < g.node_count && (#[trigger] depth[v]) != usize::MAX ==> depth[v] < reached
    &&& reached == seen(depth, g.node_count as int)
}

/// `tree` names the root of each reached node: a root has level zero and
/// no parent, every other reached node has a parent in its own tree.
pub open spec fn rooted(g: GraphModel, parent: Seq<Option<usize>>, depth: Seq<usize>, tree: Seq<int>) -> bool {
    &&& tree.len() == g.node_count
    &&& forall|v: int|
        0 <= v < g.node_count && #[trigger] depth[v] != usize::MAX ==> 0 <= tree[v] < g.node_count && (depth[v] == 0
            <==> parent[v] is None) && (depth[v] == 0 ==> tree[v] == v)
    &&& forall|v: int|
        0 <= v < g.node_count && (#[trigger] parent[v]) is Some ==> tree[parent[v]->0 as int] == tree[v]
}

/// The projection edge `u -- v` is an edge of the forest.
pub open spec fn tree_edge(parent: Seq<Option<usize>>, u: int, v: int) -> bool {
    parent[v] == Some(u as usize) || parent[u] == Some(v as usize)
}

/// `c` goes up the forest from `u` to the lowest common ancestor of `u`
/// and `v`, then down to `v`: the two climbs meet only at their top.
pub open spec fn fundamental(parent: Seq<Option<usize>>, c: Seq<usize>, u: int, v: int) -> bool {
    exists|up: Seq<usize>, top: Seq<usize>|
        {
            &&& climbs(parent, up)
            &&& climbs(parent, top)
            &&& up.len() >= 1
            &&& top.len() >= 1
            &&& up[0] == u
            &&& top[0] == v
            &&& up.last() == top.last()
            &&& forall|i: int, j: int|
                0 <= i < up.len() && 0 <= j < top.len() && (i < up.len() - 1 || j < top.len() - 1) ==> #[trigger] up[i]
                    != #[trigger] top[j]
            &&& c == up + top.drop_last().reverse()
        }
}

/// Linked nodes lie in one tree.
pub open spec fn spans(g: GraphModel, tree: Seq<int>) -> bool {
    forall|u: int, v: int|
        0 <= u < g.node_count && 0 <= v < g.node_count && #[trigger] linked(g, u, v) ==> tree[u] == tree[v]
}

/// A path up the forest from its first node: each next node is the parent
/// of the one before.
pub open spec fn climbs(parent: Seq<Option<usize>>, path: Seq<usize>) -> bool {
    forall|i: int| 0 <= i < path.len() - 1 ==> #[trigger] parent[path[i] as int] == Some(path[i + 1])
}

/// The cycle closed by the edge `left -- right` through the forest: up from
/// `left` to the lowest common ancestor, then down to `right`; `None` when
/// the two have no common ancestor.
fn fundamental_cycle(
    left: usize,
    right: usize,
    parent: &Vec<Option<usize>>,
    depth: &Vec<usize>,
    Ghost(g): Ghost<GraphModel>,
    Ghost(reached): Ghost<int>,
    Ghost(tree): Ghost<Seq<int>>,
) -> (r: Option<Vec<usize>>)
    requires
        forest(g, parent@, depth@, reached),
        0 <= left < g.node_count,
        0 <= right < g.node_count,
        depth@[left as int] != usize::MAX,
        depth@[right as int] != usize::MAX,
        linked(g, left as int, right as int),
    ensures
        r matches Some(c) ==> closed_walk(g, c@.map_values(|x: usize| x as int)) && forall|i: int|
            0 <= i < c@.len() ==> #[trigger] c@[i] < g.node_count,
        r matches Some(c) ==> fundamental(parent@, c@, left as int, right as int),
        rooted(g, parent@, depth@, tree) && tree[left as int] == tree[right as int] ==> r is Some,
{
    let ghost h = rooted(g, parent@, depth@, tree) && tree[left as int] == tree[right as int];
    let mut a = left;
    let mut b = right;
    let mut up: Vec<usize> = vec![left];
    let mut down: Vec<usize> = vec![right];
    while depth[a] > depth[b]
        invariant
            forest(g, parent@, depth@, reached),
            h ==> rooted(g, parent@, depth@, tree) && tree[a as int] == tree[b as int],
            h == (rooted(g, parent@, depth@, tree) && tree[left as int] == tree[right as int]),
            forall|i: int| 0 <= i < up@.len() - 1 ==> depth@[#[trigger] up@[i] as int] > depth@[a as int],
            forall|j: int| 0 <= j < down@.len() - 1 ==> depth@[#[trigger] down@[j] as int] > depth@[b as int],
            forall|i: int, j: int|
                0 <= i < up@.len() && 0 <= j < down@.len() && (i < up@.len() - 1 || j < down@.len() - 1) ==> #[trigger] up@[i]
                    != #[trigger] down@[j],
            0 <= a < g.node_count,
            0 <= b < g.node_count,
            depth@[a as int] != usize::MAX,
            depth@[b as int] != usize::MAX,
            up@.len() >= 1,
            up@[0] == left,
            up@.last() == a,
            climbs(parent@, up@),
            forall|i: int| 0 <= i < up@.len() ==> #[trigger] up@[i] < g.node_count,
            down@ == seq![right],
            b == right,
            up@.len() > 1 ==> depth@[a as int] >= depth@[b as int],
        decreases depth@[a as int],
    {
        match parent[a] {
            None => {
                proof {
                    assert(parent@[a as int] is None);
                    assert(!h);
                }
                return None;
            },
            Some(p) => {
                assert(parent@[a as int] is Some);
                let ghost before = up@;
                a = p;
                up.push(p);
                proof {
                    assert forall|i: int| 0 <= i < up@.len() - 1 implies #[trigger] parent@[up@[i] as int] == Some(
                        up@[i + 1],
                    ) by {
                        if i < before.len() - 1 {
                            assert(up@[i] == before[i] && up@[i + 1] == before[i + 1]);
                        }
                    }
                }
            },
        }
    }
    while depth[b] > depth[a]
        invariant
            forest(g, parent@, depth@, reached),
            h ==> rooted(g, parent@, depth@, tree) && tree[a as int] == tree[b as int],
            h == (rooted(g, parent@, depth@, tree) && tree[left as int] == tree[right as int]),
            forall|i: int| 0 <= i < up@.len() - 1 ==> depth@[#[trigger] up@[i] as int] > depth@[a as int],
            forall|j: int| 0 <= j < down@.len() - 1 ==> depth@[#[trigger] down@[j] as int] > depth@[b as int],
            forall|i: int, j: int|
                0 <= i < up@.len() && 0 <= j < down@.len() && (i < up@.len() - 1 || j < down@.len() - 1) ==> #[trigger] up@[i]
                    != #[trigger] down@[j],
            0 <= a < g.node_count,
            0 <= b < g.node_count,
            depth@[a as int] != usize::MAX,
            depth@[b as int] != usize::MAX,
            up@.len() >= 1,
            up@[0] == left,
            up@.last() == a,
            climbs(parent@, up@),
            forall|i: int| 0 <= i < up@.len() ==> #[trigger] up@[i] < g.node_count,
            down@.len() >= 1,
            down@[0] == right,
            down@.last() == b,
            climbs(parent@, down@),
            forall|i: int| 0 <= i < down@.len() ==> #[trigger] down@[i] < g.node_count,
            up@.len() == 1 ==> a == left,
            depth@[a as int] <= depth@[b as int],
            up@.len() == 1 || depth@[a as int] >= depth@[b as int],
        decreases depth@[b as int],
    {
        match parent[b] {
            None => {
                proof {
                    assert(parent@[b as int] is None);
                    assert(!h);
                }
                return None;
            },
            Some(p) => {
                assert(parent@[b as int] is Some);
                let ghost before = down@;
                b = p;
                down.push(p);
                proof {
                    assert forall|i: int| 0 <= i < down@.len() - 1 implies #[trigger] parent@[down@[i] as int]
                        == Some(down@[i + 1]) by {
                        if i < before.len() - 1 {
                            assert(down@[i] == before[i] && down@[i + 1] == before[i + 1]);
                        }
                    }
                }
            },
        }
    }
    while a != b
        invariant
            forest(g, parent@, depth@, reached),
            h ==> rooted(g, parent@, depth@, tree) && tree[a as int] == tree[b as int],
            h == (rooted(g, parent@, depth@, tree) && tree[left as int] == tree[right as int]),
            forall|i: int| 0 <= i < up@.len() - 1 ==> depth@[#[trigger] up@[i] as int] > depth@[a as int],
            forall|j: int| 0 <= j < down@.len() - 1 ==> depth@[#[trigger] down@[j] as int] > depth@[b as int],
            forall|i: int, j: int|
                0 <= i < up@.len() && 0 <= j < down@.len() && (i < up@.len() - 1 || j < down@.len() - 1) ==> #[trigger] up@[i]
                    != #[trigger] down@[j],
            0 <= a < g.node_count,
            0 <= b < g.node_count,
            depth@[a as int] != usize::MAX,
            depth@[b as int] != usize::MAX,
            up@.len() >= 1,
            up@[0] == left,
            up@.last() == a,
            climbs(parent@, up@),
            forall|i: int| 0 <= i < up@.len() ==> #[trigger] up@[i] < g.node_count,
            down@.len() >= 1,
            down@[0] == right,
            down@.last() == b,
            climbs(parent@, down@),
            forall|i: int| 0 <= i < down@.len() ==> #[trigger] down@[i] < g.node_count,
            depth@[a as int] == depth@[b as int],
        decreases depth@[a as int],
    {
        let pa = match parent[a] {
            None => {
                proof {
                    assert(parent@[a as int] is None);
                    if h {
                        assert(depth@[a as int] == 0);
                        assert(depth@[b as int] == 0);
                        assert(tree[a as int] == a && tree[b as int] == b);
                        assert(a == b);
                    }
                }
                return None;
            },
            Some(p) => p,
        };
        let pb = match parent[b] {
            None => {
                proof {
                    assert(parent@[b as int] is None);
                    if h {
                        assert(depth@[b as int] == 0);
                        assert(depth@[a as int] != 0);
                    }
                }
                return None;
            },
            Some(p) => p,
        };
        assert(parent@[a as int] is Some);
        assert(parent@[b as int] is Some);
        let ghost before_up = up@;
        let ghost before_down = down@;
        a = pa;
        b = pb;
        up.push(pa);
        down.push(pb);
        proof {
            assert forall|i: int| 0 <= i < up@.len() - 1 implies #[trigger] parent@[up@[i] as int] == Some(
                up@[i + 1],
            ) by {
                if i < before_up.len() - 1 {
                    assert(up@[i] == before_up[i] && up@[i + 1] == before_up[i + 1]);
                }
            }
            assert forall|i: int| 0 <= i < down@.len() - 1 implies #[trigger] parent@[down@[i] as int] == Some(
                down@[i + 1],
            ) by {
                if i < before_down.len() - 1 {
                    assert(down@[i] == before_down[i] && down@[i + 1] == before_down[i + 1]);
                }
            }
        }
    }
    let ghost top = down@;
    down.pop();
    let ghost rest = down@;
    let ghost joined = up@;
    let mut k = down.len();
    while k > 0
        invariant
            k <= rest.len(),
            down@ == rest,
            up@ == joined + rest.subrange(k as int, rest.len() as int).reverse(),
        decreases k,
    {
        k -= 1;
        let x = down[k];
        up.push(x);
        proof {
            assert(rest.subrange(k as int, rest.len() as int).reverse() =~= rest.subrange(
                k + 1,
                rest.len() as int,
            ).reverse().push(x));
        }
    }
    proof {
        assert(rest.subrange(0, rest.len() as int) =~= rest);
        assert(rest =~= top.drop_last());
        lemma_cycle_walk(g, parent@, depth@, reached, left, right, joined, top);
        assert(up@ == joined + top.drop_last().reverse());
        assert(climbs(parent@, joined) && climbs(parent@, top) && joined.len() >= 1 && top.len() >= 1);
        assert(fundamental(parent@, up@, left as int, right as int));
    }
    Some(up)
}

proof fn lemma_cycle_walk(
    g: GraphModel,
    parent: Seq<Option<usize>>,
    depth: Seq<usize>,
    reached: int,
    left: usize,
    right: usize,
    up: Seq<usize>,
    top: Seq<usize>,
)
    requires
        forest(g, parent, depth, reached),
        climbs(parent, up),
        climbs(parent, top),
        up.len() >= 1,
        top.len() >= 1,
        up[0] == left,
        top[0] == right,
        up.last() == top.last(),
        linked(g, left as int, right as int),
        forall|i: int| 0 <= i < up.len() ==> #[trigger] up[i] < g.node_count,
        forall|i: int| 0 <= i < top.len() ==> #[trigger] top[i] < g.node_count,
    ensures
        closed_walk(g, (up + top.drop_last().reverse()).map_values(|x: usize| x as int)),
        forall|i: int|
            0 <= i < (up + top.drop_last().reverse()).len() ==> #[trigger] (up + top.drop_last().reverse())[i]
                < g.node_count,
{
    let rest = top.drop_last();
    let rev = rest.reverse();
    let c = up + rev;
    let ci = c.map_values(|x: usize| x as int);
    let j = up.len() as int;
    let r = rest.len() as int;
    assert forall|i: int| 0 <= i < ci.len() - 1 implies linked(g, #[trigger] ci[i], ci[i + 1]) by {
        if i < j - 1 {
            assert(parent[up[i] as int] == Some(up[i + 1]));
            assert(c[i] == up[i] && c[i + 1] == up[i + 1]);
        } else if i == j - 1 {
            let m = top.len() - 2;
            assert(parent[top[m] as int] == Some(top[m + 1]));
            assert(c[i + 1] == rest[r - 1]);
            assert(rest[r - 1] == top[m]);
            lemma_linked_symmetric(g, top[m] as int, top[m + 1] as int);
        } else {
            let m = r - 2 - (i - j);
            assert(c[i] == rest[m + 1]);
            assert(c[i + 1] == rest[m]);
            assert(parent[top[m] as int] == Some(top[m + 1]));
            lemma_linked_symmetric(g, top[m] as int, top[m + 1] as int);
        }
    }
    lemma_linked_symmetric(g, left as int, right as int);
    if r >= 1 {
        assert(c.last() == rest[0]);
    } else {
        assert(c.last() == up.last());
        assert(top.len() == 1);
        if j == 1 {
            assert(up.last() == left);
        }
    }
    assert(ci[0] == left);
    assert forall|i: int| 0 <= i < c.len() implies #[trigger] c[i] < g.node_count by {
        if i >= j {
            assert(c[i] == rest[r - 1 - (i - j)]);
            assert(rest[r - 1 - (i - j)] == top[r - 1 - (i - j)]);
        }
    }
}

/// A breadth-first forest over the projection `rows`, one tree per
/// unreached node in increasing order: each node's parent and level.
#[verifier::rlimit(100)]
#[verifier::spinoff_prover]
fn bfs_forest(rows: &Vec<Vec<usize>>, Ghost(g): Ghost<GraphModel>) -> (r: (
    Vec<Option<usize>>,
    Vec<usize>,
    Ghost<int>,
    Ghost<Seq<int>>,
))
    requires
        projection_rows(g, rows@),
        g.node_count <= u32::MAX,
    ensures
        forest(g, r.0@, r.1@, r.2@),
        forall|v: int| 0 <= v < g.node_count ==> #[trigger] r.1@[v] != usize::MAX,
        rooted(g, r.0@, r.1@, r.3@),
        spans(g, r.3@),
{
    let n = rows.len();
    let mut parent: Vec<Option<usize>> = Vec::new();
    let mut depth: Vec<usize> = Vec::new();
    let mut i: usize = 0;
    while i < n
        invariant
            i <= n == g.node_count,
            parent@.len() == i,
            depth@.len() == i,
            forall|v: int| 0 <= v < i ==> #[trigger] parent@[v] == None::<usize>,
            forall|v: int| 0 <= v < i ==> #[trigger] depth@[v] == usize::MAX,
        decreases n - i,
    {
        let ghost before_parent = parent@;
        let ghost before_depth = depth@;
        parent.push(None);
        depth.push(usize::MAX);
        proof {
            assert forall|v: int| 0 <= v < i + 1 implies #[trigger] parent@[v] == None::<usize> by {
                if v < i {
                    assert(parent@[v] == before_parent[v]);
                }
            }
            assert forall|v: int| 0 <= v < i + 1 implies #[trigger] depth@[v] == usize::MAX by {
                if v < i {
                    assert(depth@[v] == before_depth[v]);
                }
            }
        }
        i += 1;
    }
    let ghost mut reached: int = 0;
    let ghost mut tree: Seq<int> = Seq::new(n as nat, |v: int| 0int);
    proof {
        lemma_seen_zero(depth@, n as int);
        assert forall|v: int| 0 <= v < g.node_count && (#[trigger] parent@[v]) is Some implies false by {
            assert(parent@[v] == None::<usize>);
        }
        assert forall|v: int| 0 <= v < g.node_count && #[trigger] depth@[v] != usize::MAX implies false by {
            assert(depth@[v] == usize::MAX);
        }
        assert(forest(g, parent@, depth@, reached));
    }
    let mut root: usize = 0;
    while root < n
        invariant
            root <= n == g.node_count <= u32::MAX,
            projection_rows(g, rows@),
            forest(g, parent@, depth@, reached),
            forall|v: int| 0 <= v < root ==> #[trigger] depth@[v] != usize::MAX,
            rooted(g, parent@, depth@, tree),
            forall|v: int| 0 <= v < n && #[trigger] depth@[v] != usize::MAX ==> tree[v] < root,
            forall|u: int, v: int|
                0 <= u < n && 0 <= v < n && depth@[u] != usize::MAX && #[trigger] linked(g, u, v) ==> depth@[v]
                    != usize::MAX && tree[v] == tree[u],
        decreases n - root,
    {
        if depth[root] == usize::MAX {
            let ghost old_parent = parent@;
            let ghost old_depth = depth@;
            proof {
                lemma_seen_bound(depth@, n as int);
                lemma_seen_set(depth@, root as int, 0, n as int);
                lemma_seen_bound(depth@.update(root as int, 0), n as int);
            }
            depth.set(root, 0);
            proof {
                tree = tree.update(root as int, root as int);
                reached = reached + 1;
                assert forall|v: int| 0 <= v < g.node_count && (#[trigger] parent@[v]) is Some implies {
                    let p = parent@[v]->0 as int;
                    &&& 0 <= p < g.node_count
                    &&& linked(g, v, p)
                    &&& depth@[v] != usize::MAX
                    &&& depth@[p] != usize::MAX
                    &&& depth@[v] == depth@[p] + 1
                } by {
                    assert(old_parent[v] is Some);
                    assert(old_depth[v] != usize::MAX);
                    let p = parent@[v]->0 as int;
                    assert(old_depth[p] != usize::MAX);
                }
                assert forall|v: int| 0 <= v < g.node_count && #[trigger] depth@[v] != usize::MAX implies depth@[v]
                    < reached by {
                    if v != root {
                        assert(old_depth[v] == depth@[v]);
                        assert(old_depth[v] < reached - 1);
                    }
                }
            }
            let mut queue: Vec<usize> = vec![root];
            let mut head: usize = 0;
            while head < queue.len()
                invariant
                    n == g.node_count <= u32::MAX,
                    projection_rows(g, rows@),
                    forest(g, parent@, depth@, reached),
                    head <= queue@.len(),
                    reached <= n,
                    queue@.len() - head <= reached,
                    forall|q: int| 0 <= q < queue@.len() ==> #[trigger] queue@[q] < n && depth@[queue@[q] as int]
                        != usize::MAX,
                    forall|v: int| 0 <= v <= root ==> #[trigger] depth@[v] != usize::MAX,
                    root < n,
                    rooted(g, parent@, depth@, tree),
                    forall|q: int| 0 <= q < queue@.len() ==> tree[#[trigger] queue@[q] as int] == root,
                    forall|v: int|
                        0 <= v < n && #[trigger] depth@[v] != usize::MAX ==> tree[v] < root || (tree[v] == root
                            && exists|q: int| 0 <= q < queue@.len() && queue@[q] == v),
                    forall|u: int, v: int|
                        0 <= u < n && 0 <= v < n && depth@[u] != usize::MAX && tree[u] < root && #[trigger] linked(
                            g,
                            u,
                            v,
                        ) ==> depth@[v] != usize::MAX && tree[v] == tree[u],
                    forall|q: int, v: int|
                        0 <= q < head && 0 <= v < n && #[trigger] linked(g, queue@[q] as int, v) ==> depth@[v]
                            != usize::MAX && tree[v] == root,
                decreases (n - reached) + (queue@.len() - head),
            {
                let node = queue[head];
                head += 1;
                let ghost gap = queue@.len() - reached;
                let row = &rows[node];
                proof {
                    assert(lists_exactly(rows@[node as int]@, |u: int| 0 <= u < g.node_count && linked(g, node as int, u)));
                }
                let mut k: usize = 0;
                while k < row.len()
                    invariant
                        n == g.node_count <= u32::MAX,
                        node < n,
                        row@ == rows@[node as int]@,
                        lists_exactly(row@, |u: int| 0 <= u < g.node_count && linked(g, node as int, u)),
                        forest(g, parent@, depth@, reached),
                        depth@[node as int] != usize::MAX,
                        head <= queue@.len(),
                        reached <= n,
                        queue@.len() - head <= reached,
                        forall|q: int| 0 <= q < queue@.len() ==> #[trigger] queue@[q] < n && depth@[queue@[q] as int]
                            != usize::MAX,
                        forall|v: int| 0 <= v <= root ==> #[trigger] depth@[v] != usize::MAX,
                        queue@.len() - reached == gap,
                        root < n,
                        head >= 1,
                        queue@[head - 1] == node,
                        rooted(g, parent@, depth@, tree),
                        forall|q: int| 0 <= q < queue@.len() ==> tree[#[trigger] queue@[q] as int] == root,
                        forall|v: int|
                            0 <= v < n && #[trigger] depth@[v] != usize::MAX ==> tree[v] < root || (tree[v] == root
                                && exists|q: int| 0 <= q < queue@.len() && queue@[q] == v),
                        forall|u: int, v: int|
                            0 <= u < n && 0 <= v < n && depth@[u] != usize::MAX && tree[u] < root && #[trigger] linked(
                                g,
                                u,
                                v,
                            ) ==> depth@[v] != usize::MAX && tree[v] == tree[u],
                        forall|q: int, v: int|
                            0 <= q < head - 1 && 0 <= v < n && #[trigger] linked(g, queue@[q] as int, v) ==> depth@[v]
                                != usize::MAX && tree[v] == root,
                        k <= row@.len(),
                        forall|j: int|
                            0 <= j < k ==> depth@[#[trigger] row@[j] as int] != usize::MAX && tree[row@[j] as int] == root,
                    decreases row@.len() - k,
                {
                    let next = row[k];
                    proof {
                        assert(0 <= row@[k as int] < g.node_count && linked(g, node as int, row@[k as int] as int));
                    }
                    if depth[next] == usize::MAX {
                        proof {
                            lemma_seen_set(depth@, next as int, 0, n as int);
                            lemma_seen_bound(depth@.update(next as int, 0), n as int);
                            assert(depth@[node as int] < reached);
                        }
                        let level = depth[node] + 1;
                        let ghost old_parent = parent@;
                        let ghost old_depth = depth@;
                        proof {
                            lemma_seen_set(depth@, next as int, level, n as int);
                            lemma_linked_symmetric(g, node as int, next as int);
                        }
                        let ghost old_tree = tree;
                        let ghost old_queue = queue@;
                        depth.set(next, level);
                        parent.set(next, Some(node));
                        proof {
                            tree = tree.update(next as int, root as int);
                            reached = reached + 1;
                            assert forall|v: int| 0 <= v < g.node_count && (#[trigger] parent@[v]) is Some implies {
                                let p = parent@[v]->0 as int;
                                &&& 0 <= p < g.node_count
                                &&& linked(g, v, p)
                                &&& depth@[v] != usize::MAX
                                &&& depth@[p] != usize::MAX
                                &&& depth@[v] == depth@[p] + 1
                            } by {
                                if v != next {
                                    assert(old_parent[v] is Some);
                                    assert(old_depth[v] != usize::MAX);
                                    let p = parent@[v]->0 as int;
                                    assert(old_depth[p] != usize::MAX);
                                    assert(p != next);
                                }
                            }
                            assert forall|v: int| 0 <= v < g.node_count && #[trigger] depth@[v] != usize::MAX implies
                                depth@[v] < reached by {
                                if v != next {
                                    assert(old_depth[v] == depth@[v]);
                                }
                            }
                        }
                        queue.push(next);
                        proof {
                            assert(queue@[queue@.len() - 1] == next);
                            assert forall|j: int| 0 <= j < k + 1 implies depth@[#[trigger] row@[j] as int] != usize::MAX
                                && tree[row@[j] as int] == root by {
                                if j < k {
                                    assert(old_depth[row@[j] as int] != usize::MAX);
                                }
                            }
                            assert forall|q: int| 0 <= q < queue@.len() implies tree[#[trigger] queue@[q] as int] == root by {
                                if q < old_queue.len() {
                                    assert(queue@[q] == old_queue[q]);
                                }
                            }
                            assert forall|v: int|
                                0 <= v < n && #[trigger] depth@[v] != usize::MAX implies tree[v] < root || (tree[v] == root
                                    && exists|q: int| 0 <= q < queue@.len() && queue@[q] == v) by {
                                if v == next {
                                    assert(queue@[queue@.len() - 1] == v);
                                } else {
                                    assert(old_depth[v] != usize::MAX);
                                    if old_tree[v] == root {
                                        let q = choose|q: int| 0 <= q < old_queue.len() && old_queue[q] == v;
                                        assert(queue@[q] == v);
                                    }
                                }
                            }
                            assert forall|u: int, v: int|
                                0 <= u < n && 0 <= v < n && depth@[u] != usize::MAX && tree[u] < root && #[trigger] linked(
                                    g,
                                    u,
                                    v,
                                ) implies depth@[v] != usize::MAX && tree[v] == tree[u] by {
                                assert(u != next);
                                assert(old_depth[u] != usize::MAX);
                                assert(old_depth[v] != usize::MAX);
                            }
                            assert forall|q: int, v: int|
                                0 <= q < head - 1 && 0 <= v < n && #[trigger] linked(g, queue@[q] as int, v) implies depth@[v]
                                    != usize::MAX && tree[v] == root by {
                                assert(queue@[q] == old_queue[q]);
                                assert(linked(g, old_queue[q] as int, v));
                            }
                            assert forall|v: int|
                                0 <= v < n && #[trigger] depth@[v] != usize::MAX implies 0 <= tree[v] < n && (depth@[v]
                                    == 0 <==> parent@[v] is None) && (depth@[v] == 0 ==> tree[v] == v) by {
                                if v != next {
                                    assert(old_depth[v] != usize::MAX);
                                }
                            }
                            assert forall|v: int|
                                0 <= v < n && (#[trigger] parent@[v]) is Some implies tree[parent@[v]->0 as int]
                                    == tree[v] by {
                                if v != next {
                                    assert(old_parent[v] is Some);
                                    assert(old_depth[v] != usize::MAX);
                                    assert(old_depth[(old_parent[v]->0) as int] != usize::MAX);
                                }
                            }
                        }
                    } else {
                        proof {
                            lemma_linked_symmetric(g, node as int, next as int);
                            if tree[next as int] < root {
                                assert(linked(g, next as int, node as int));
                            }
                        }
                    }
                    k += 1;
                }
                proof {
                    assert forall|q: int, v: int|
                        0 <= q < head && 0 <= v < n && #[trigger] linked(g, queue@[q] as int, v) implies depth@[v]
                            != usize::MAX && tree[v] == root by {
                        if q == head - 1 {
                            let keep = |u: int| 0 <= u < g.node_count && linked(g, node as int, u);
                            assert(keep(v));
                            assert(lists_exactly(row@, keep));
                            let i = choose|i: int| 0 <= i < row@.len() && row@[i] == v;
                            assert(depth@[row@[i] as int] != usize::MAX);
                        }
                    }
                }
            }
            proof {
                assert forall|v: int| 0 <= v < n && #[trigger] depth@[v] != usize::MAX implies tree[v] < root + 1 by {
                }
                assert forall|u: int, v: int|
                    0 <= u < n && 0 <= v < n && depth@[u] != usize::MAX && #[trigger] linked(g, u, v) implies depth@[v]
                        != usize::MAX && tree[v] == tree[u] by {
                    if tree[u] == root {
                        let q = choose|q: int| 0 <= q < queue@.len() && queue@[q] == u;
                        assert(linked(g, queue@[q] as int, v));
                    }
                }
            }
        }
        root += 1;
    }
    proof {
        assert forall|u: int, v: int| 0 <= u < g.node_count && 0 <= v < g.node_count && #[trigger] linked(g, u, v) implies tree[u] == tree[v] by {
            assert(depth@[u] != usize::MAX);
        }
    }
    (parent, depth, Ghost(reached), Ghost(tree))
}

proof fn lemma_seen_zero(depth: Seq<usize>, k: int)
    requires
        0 <= k <= depth.len(),
        forall|v: int| 0 <= v < depth.len() ==> depth[v] == usize::MAX,
    ensures
        seen(depth, k) == 0,
    decreases k,
{
    if k > 0 {
        lemma_seen_zero(depth, k - 1);
    }
}

/// The first and last node of a walk.
pub open spec fn ends(c: Seq<int>) -> (int, int) {
    (c[0], c.last())
}

/// Pair `a` comes before pair `b` in `(low, high)` order.
pub open spec fn pair_before(a: (int, int), b: (int, int)) -> bool {
    a.0 < b.0 || (a.0 == b.0 && a.1 < b.1)
}

/// `c` is the fundamental cycle of a projection edge outside the forest:
/// a closed walk from the edge's low end up the forest and down to its high
/// end.
pub open spec fn basis_cycle(g: GraphModel, parent: Seq<Option<usize>>, c: Seq<int>) -> bool {
    &&& closed_walk(g, c)
    &&& c[0] < c.last()
    &&& linked(g, c[0], c.last())
    &&& !tree_edge(parent, c[0], c.last())
    &&& exists|w: Seq<usize>| w.map_values(|x: usize| x as int) == c && fundamental(parent, w, c[0], c.last())
}

/// `cs` holds, in increasing `(low, high)` order, the fundamental cycle of
/// every projection edge outside the forest `parent`, and nothing else.
pub open spec fn basis_of(g: GraphModel, parent: Seq<Option<usize>>, cs: Seq<Vec<NodeIndex>>) -> bool {
    &&& forall|k: int| 0 <= k < cs.len() ==> basis_cycle(g, parent, node_ints(#[trigger] cs[k]@))
    &&& forall|i: int, j: int|
        0 <= i < j < cs.len() ==> pair_before(ends(node_ints(#[trigger] cs[i]@)), ends(node_ints(#[trigger] cs[j]@)))
    &&& forall|u: int, v: int|
        0 <= u < v < g.node_count && #[trigger] linked(g, u, v) && !tree_edge(parent, u, v) ==> exists|k: int|
            0 <= k < cs.len() && ends(node_ints(#[trigger] cs[k]@)) == (u, v)
}

/// A fundamental cycle basis of the undirected projection: one closed walk
/// for each projection edge outside a breadth-first spanning forest, the
/// edges taken in increasing `(low, high)` order, each walk going up the
/// forest from the low end to the common ancestor and down to the high end.
/// The search over row `row` of node `source` has handled its first `k`
/// entries: the cycles found are basis cycles in increasing order, below
/// the next pair, and cover every earlier projection edge outside the forest.
#[verifier::opaque]
spec fn scan_state(
    g: GraphModel,
    parent: Seq<Option<usize>>,
    cs: Seq<Vec<NodeIndex>>,
    source: int,
    row: Seq<usize>,
    k: int,
) -> bool {
    &&& forall|c: int| 0 <= c < cs.len() ==> basis_cycle(g, parent, node_ints(#[trigger] cs[c]@))
    &&& forall|i: int, j: int|
        0 <= i < j < cs.len() ==> pair_before(ends(node_ints(#[trigger] cs[i]@)), ends(node_ints(#[trigger] cs[j]@)))
    &&& forall|c: int|
        0 <= c < cs.len() ==> ends(node_ints(#[trigger] cs[c]@)).0 < source || (ends(node_ints(cs[c]@)).0 == source && (k
            < row.len() ==> ends(node_ints(cs[c]@)).1 < row[k]))
    &&& forall|u: int, v: int|
        0 <= u < v < g.node_count && (u < source || (u == source && exists|j: int| 0 <= j < k && row[j] == v))
            && #[trigger] linked(g, u, v) && !tree_edge(parent, u, v) ==> exists|c: int|
            0 <= c < cs.len() && ends(node_ints(#[trigger] cs[c]@)) == (u, v)
}

/// One more row entry handled: either its cycle was appended, or it needs
/// none.
proof fn lemma_scan_step(
    g: GraphModel,
    parent: Seq<Option<usize>>,
    before: Seq<Vec<NodeIndex>>,
    after: Seq<Vec<NodeIndex>>,
    source: int,
    row: Seq<usize>,
    k: int,
)
    requires
        scan_state(g, parent, before, source, row, k),
        0 <= k < row.len(),
        forall|i: int, j: int| 0 <= i < j < row.len() ==> row[i] < row[j],
        ({
            let t = row[k] as int;
            if source < t && !tree_edge(parent, source, t) {
                &&& after.len() == before.len() + 1
                &&& forall|c: int| 0 <= c < before.len() ==> after[c] == before[c]
                &&& basis_cycle(g, parent, node_ints(after[before.len() as int]@))
                &&& ends(node_ints(after[before.len() as int]@)) == (source, t)
            } else {
                after == before
            }
        }),
    ensures
        scan_state(g, parent, after, source, row, k + 1),
{
    reveal(scan_state);
    let t = row[k] as int;
    let pushed = source < t && !tree_edge(parent, source, t);
    assert forall|c: int| 0 <= c < after.len() implies basis_cycle(g, parent, node_ints(#[trigger] after[c]@)) by {
        if c < before.len() {
            assert(after[c] == before[c]);
        }
    }
    assert forall|i: int, j: int| 0 <= i < j < after.len() implies pair_before(
        ends(node_ints(#[trigger] after[i]@)),
        ends(node_ints(#[trigger] after[j]@)),
    ) by {
        assert(after[i] == before[i]);
        if j < before.len() {
            assert(after[j] == before[j]);
        }
    }
    assert forall|c: int|
        0 <= c < after.len() implies ends(node_ints(#[trigger] after[c]@)).0 < source || (ends(node_ints(after[c]@)).0
            == source && (k + 1 < row.len() ==> ends(node_ints(after[c]@)).1 < row[k + 1])) by {
        if c < before.len() {
            assert(after[c] == before[c]);
        }
        if k + 1 < row.len() {
            assert(row[k] < row[k + 1]);
        }
    }
    assert forall|u: int, v: int|
        0 <= u < v < g.node_count && (u < source || (u == source && exists|j: int| 0 <= j < k + 1 && row[j] == v))
            && #[trigger] linked(g, u, v) && !tree_edge(parent, u, v) implies exists|c: int|
            0 <= c < after.len() && ends(node_ints(#[trigger] after[c]@)) == (u, v) by {
        if u == source && v == t {
            assert(pushed);
            assert(ends(node_ints(after[before.len() as int]@)) == (u, v));
        } else {
            if u == source {
                let j = choose|j: int| 0 <= j < k + 1 && row[j] == v;
                assert(j < k);
            }
            let c = choose|c: int| 0 <= c < before.len() && ends(node_ints(#[trigger] before[c]@)) == (u, v);
            assert(after[c] == before[c]);
        }
    }
}

/// A row fully handled lets the search move to the next node.
proof fn lemma_scan_row_done(
    g: GraphModel,
    parent: Seq<Option<usize>>,
    cs: Seq<Vec<NodeIndex>>,
    source: int,
    row: Seq<usize>,
    next_row: Seq<usize>,
)
    requires
        scan_state(g, parent, cs, source, row, row.len() as int),
        0 <= source,
        lists_exactly(row, |u: int| 0 <= u < g.node_count && linked(g, source, u)),
    ensures
        scan_state(g, parent, cs, source + 1, next_row, 0),
{
    reveal(scan_state);
    assert forall|u: int, v: int|
        0 <= u < v < g.node_count && (u < source + 1 || (u == source + 1 && exists|j: int| 0 <= j < 0 && next_row[j] == v))
            && #[trigger] linked(g, u, v) && !tree_edge(parent, u, v) implies exists|c: int|
            0 <= c < cs.len() && ends(node_ints(#[trigger] cs[c]@)) == (u, v) by {
        if u == source {
            let keep = |x: int| 0 <= x < g.node_count && linked(g, source, x);
            assert(keep(v));
            let j = choose|j: int| 0 <= j < row.len() && row[j] == v;
        }
    }
}

/// The cycle found for `source -- target` is a basis cycle.
proof fn lemma_found_cycle(
    g: GraphModel,
    parent: Seq<Option<usize>>,
    slots: Seq<usize>,
    c: Seq<int>,
    source: int,
    target: int,
)
    requires
        closed_walk(g, slots.map_values(|x: usize| x as int)),
        fundamental(parent, slots, source, target),
        c == slots.map_values(|x: usize| x as int),
        source < target,
        linked(g, source, target),
        !tree_edge(parent, source, target),
    ensures
        basis_cycle(g, parent, c),
        ends(c) == (source, target),
{
    let w = choose|up: Seq<usize>, top: Seq<usize>|
        {
            &&& climbs(parent, up)
            &&& climbs(parent, top)
            &&& up.len() >= 1
            &&& top.len() >= 1
            &&& up[0] == source
            &&& top[0] == target
            &&& up.last() == top.last()
            &&& forall|i: int, j: int|
                0 <= i < up.len() && 0 <= j < top.len() && (i < up.len() - 1 || j < top.len() - 1) ==> #[trigger] up[i]
                    != #[trigger] top[j]
            &&& slots == up + top.drop_last().reverse()
        };
    let up = w.0;
    let top = w.1;
    assert(slots[0] == up[0]);
    if top.len() >= 2 {
        assert(slots.last() == top.drop_last().reverse().last());
        assert(slots.last() == top[0]);
    } else {
        assert(top.drop_last().reverse().len() == 0);
        assert(slots =~= up);
        assert(slots.last() == up.last());
    }
    assert(c[0] == source);
    assert(c.last() == target);
}

/// The nodes at a list of slots.
fn slot_nodes(slots: &Vec<usize>, Ghost(n): Ghost<nat>) -> (r: Vec<NodeIndex>)
    requires
        n <= u32::MAX,
        forall|j: int| 0 <= j < slots@.len() ==> #[trigger] slots@[j] < n,
    ensures
        node_ints(r@) == slots@.map_values(|x: usize| x as int),
{
    let mut cycle: Vec<NodeIndex> = Vec::new();
    let mut i: usize = 0;
    while i < slots.len()
        invariant
            i <= slots@.len(),
            n <= u32::MAX,
            forall|j: int| 0 <= j < slots@.len() ==> #[trigger] slots@[j] < n,
            node_ints(cycle@) == slots@.take(i as int).map_values(|x: usize| x as int),
        decreases slots@.len() - i,
    {
        assert(slots@[i as int] < n);
        let ghost prior = cycle@;
        cycle.push(NodeIndex(slots[i] as u32));
        proof {
            assert(node_ints(prior).len() == prior.len());
            assert(slots@.take(i as int).map_values(|x: usize| x as int).len() == i);
            let want = slots@.take(i + 1).map_values(|x: usize| x as int);
            assert forall|j: int| 0 <= j < i + 1 implies node_ints(cycle@)[j] == want[j] by {
                if j < i {
                    assert(node_ints(prior)[j] == slots@.take(i as int).map_values(|x: usize| x as int)[j]);
                    assert(cycle@[j] == prior[j]);
                }
            }
            assert(node_ints(cycle@) =~= want);
        }
        i += 1;
    }
    assert(slots@.take(slots@.len() as int) =~= slots@);
    cycle
}

/// A fundamental cycle basis of the undirected projection: one closed walk
/// for each projection edge outside a breadth-first spanning forest, the
/// edges taken in increasing `(low, high)` order, each walk going up the
/// forest from the low end to the common ancestor and down to the high end.
pub fn cycle_basis(graph: &Topology) -> (r: Vec<Vec<NodeIndex>>)
    ensures
        forall|k: int| 0 <= k < r@.len() ==> closed_walk(graph@, node_ints(#[trigger] r@[k]@)),
        exists|parent: Seq<Option<usize>>, depth: Seq<usize>, tree: Seq<int>, reached: int|
            {
                &&& forest(graph@, parent, depth, reached)
                &&& forall|v: int| 0 <= v < graph@.node_count ==> #[trigger] depth[v] != usize::MAX
                &&& rooted(graph@, parent, depth, tree)
                &&& spans(graph@, tree)
                &&& basis_of(graph@, parent, r@)
            },
{
    let n = graph.node_count();
    let rows = projection(graph);
    let ghost g = graph@;
    let (parent, depth, Ghost(reached), Ghost(tree)) = bfs_forest(&rows, Ghost(g));
    let mut cycles: Vec<Vec<NodeIndex>> = Vec::new();
    let mut source: usize = 0;
    proof {
        reveal(scan_state);
        if n > 0 {
            assert(scan_state(g, parent@, cycles@, 0, rows@[0]@, 0));
        }
    }
    while source < n
        invariant
            n == g.node_count <= u32::MAX,
            g == graph@,
            source <= n,
            projection_rows(g, rows@),
            forest(g, parent@, depth@, reached),
            forall|v: int| 0 <= v < g.node_count ==> #[trigger] depth@[v] != usize::MAX,
            rooted(g, parent@, depth@, tree),
            spans(g, tree),
            source < n ==> scan_state(g, parent@, cycles@, source as int, rows@[source as int]@, 0),
            source == n ==> scan_state(g, parent@, cycles@, n as int, Seq::<usize>::empty(), 0),
        decreases n - source,
    {
        let row = &rows[source];
        proof {
            assert(lists_exactly(rows@[source as int]@, |u: int| 0 <= u < g.node_count && linked(g, source as int, u)));
        }
        let mut k: usize = 0;
        while k < row.len()
            invariant
                n == g.node_count <= u32::MAX,
                g == graph@,
                source < n,
                k <= row@.len(),
                row@ == rows@[source as int]@,
                lists_exactly(row@, |u: int| 0 <= u < g.node_count && linked(g, source as int, u)),
                forest(g, parent@, depth@, reached),
                forall|v: int| 0 <= v < g.node_count ==> #[trigger] depth@[v] != usize::MAX,
                rooted(g, parent@, depth@, tree),
                spans(g, tree),
                scan_state(g, parent@, cycles@, source as int, row@, k as int),
            decreases row@.len() - k,
        {
            let target = row[k];
            proof {
                assert(0 <= row@[k as int] < g.node_count && linked(g, source as int, row@[k as int] as int));
            }
            let in_tree = parent[target] == Some(source) || parent[source] == Some(target);
            let ghost before = cycles@;
            if source < target && !in_tree {
                proof {
                    assert(!tree_edge(parent@, source as int, target as int));
                    assert(tree[source as int] == tree[target as int]);
                }
                match fundamental_cycle(source, target, &parent, &depth, Ghost(g), Ghost(reached), Ghost(tree)) {
                    Some(slots) => {
                        let cycle = slot_nodes(&slots, Ghost(g.node_count));
                        proof {
                            lemma_found_cycle(g, parent@, slots@, node_ints(cycle@), source as int, target as int);
                        }
                        cycles.push(cycle);
                        proof {
                            assert(cycles@[before.len() as int] == cycle);
                        }
                    },
                    None => {},
                }
            } else {
                proof {
                    assert(!(source < target && !tree_edge(parent@, source as int, target as int)));
                }
            }
            proof {
                lemma_scan_step(g, parent@, before, cycles@, source as int, row@, k as int);
            }
            k += 1;
        }
        proof {
            let next_row = if source + 1 < n { rows@[source + 1]@ } else { Seq::<usize>::empty() };
            lemma_scan_row_done(g, parent@, cycles@, source as int, row@, next_row);
        }
        source += 1;
    }
    proof {
        reveal(scan_state);
        assert forall|k: int| 0 <= k < cycles@.len() implies closed_walk(graph@, node_ints(#[trigger] cycles@[k]@)) by {
            assert(basis_cycle(g, parent@, node_ints(cycles@[k]@)));
        }
        assert forall|u: int, v: int|
            0 <= u < v < g.node_count && #[trigger] linked(g, u, v) && !tree_edge(parent@, u, v) implies exists|k: int|
                0 <= k < cycles@.len() && ends(node_ints(#[trigger] cycles@[k]@)) == (u, v) by {
            assert(u < n);
        }
        assert(basis_of(g, parent@, cycles@));
    }
    cycles
}

} // verus!
