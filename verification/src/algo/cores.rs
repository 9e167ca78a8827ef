//! Core numbers of the undirected projection, by repeatedly removing a
//! node of least remaining degree.
use super::projection::{linked, lists_exactly, projection, projection_rows};
use crate::topology::{NodeIndex, Topology};
use vstd::prelude::*;

verus! {

/// How many of the first `k` nodes of `row` satisfy `keep`.
pub open spec fn count_where(row: Seq<usize>, keep: spec_fn(int) -> bool, k: int) -> int
    decreases k,
{
    if k <= 0 {
        0
    } else {
        count_where(row, keep, k - 1) + if keep(row[k - 1] as int) {
            1int
        } else {
            0
        }
    }
}

/// How many nodes of `row` satisfy `keep`.
pub open spec fn count_all(row: Seq<usize>, keep: spec_fn(int) -> bool) -> int {
    count_where(row, keep, row.len() as int)
}

/// Every node of `member` among the first `n` has at least `k` neighbours
/// that are members too.
pub open spec fn dense(rows: Seq<Vec<usize>>, member: spec_fn(int) -> bool, k: int, n: int) -> bool {
    forall|w: int| 0 <= w < n && #[trigger] member(w) ==> count_all(rows[w]@, member) >= k
}

/// `core` holds the core numbers of the graph whose neighbour rows are
/// `rows`: each node has at least `core[v]` neighbours with core at least
/// `core[v]`, and no set of nodes that each have `k` neighbours inside it
/// holds a node with core below `k`.
pub open spec fn core_numbers(rows: Seq<Vec<usize>>, core: Seq<int>, n: int) -> bool {
    &&& core.len() == n
    &&& forall|v: int|
        0 <= v < n ==> count_all(rows[v]@, |u: int| core[u] >= core[v]) >= #[trigger] core[v]
    &&& forall|member: spec_fn(int) -> bool, k: int|
        #[trigger] dense(rows, member, k, n) ==> forall|w: int| 0 <= w < n && member(w) ==> #[trigger] core[w] >= k
}

proof fn lemma_count_bound(row: Seq<usize>, keep: spec_fn(int) -> bool, k: int)
    requires
        0 <= k,
    ensures
        0 <= count_where(row, keep, k) <= k,
    decreases k,
{
    if k > 0 {
        lemma_count_bound(row, keep, k - 1);
    }
}

proof fn lemma_count_weaker(row: Seq<usize>, keep: spec_fn(int) -> bool, wider: spec_fn(int) -> bool, k: int)
    requires
        0 <= k <= row.len(),
        forall|j: int| 0 <= j < k && #[trigger] keep(row[j] as int) ==> wider(row[j] as int),
    ensures
        count_where(row, keep, k) <= count_where(row, wider, k),
    decreases k,
{
    if k > 0 {
        lemma_count_weaker(row, keep, wider, k - 1);
    }
}

proof fn lemma_count_same(row: Seq<usize>, keep: spec_fn(int) -> bool, other: spec_fn(int) -> bool, k: int)
    requires
        0 <= k <= row.len(),
        forall|j: int| 0 <= j < k ==> (#[trigger] keep(row[j] as int) <==> other(row[j] as int)),
    ensures
        count_where(row, keep, k) == count_where(row, other, k),
    decreases k,
{
    if k > 0 {
        lemma_count_same(row, keep, other, k - 1);
    }
}

/// Dropping one node from `keep` lowers the count of an increasing row by
/// one when the row holds it, and keeps it otherwise.
proof fn lemma_count_drop(row: Seq<usize>, keep: spec_fn(int) -> bool, after: spec_fn(int) -> bool, x: int, k: int)
    requires
        0 <= k <= row.len(),
        forall|i: int, j: int| 0 <= i < j < row.len() ==> row[i] < row[j],
        keep(x),
        !after(x),
        forall|j: int| 0 <= j < row.len() && row[j] != x ==> (#[trigger] keep(row[j] as int) <==> after(row[j] as int)),
    ensures
        count_where(row, after, k) == count_where(row, keep, k) - if exists|j: int| 0 <= j < k && row[j] == x {
            1int
        } else {
            0
        },
    decreases k,
{
    if k > 0 {
        lemma_count_drop(row, keep, after, x, k - 1);
        if row[k - 1] == x {
            assert(!exists|j: int| 0 <= j < k - 1 && row[j] == x);
        } else {
            if exists|j: int| 0 <= j < k && row[j] == x {
                let j = choose|j: int| 0 <= j < k && row[j] == x;
                assert(j < k - 1);
            }
        }
    }
}

proof fn lemma_count_present(row: Seq<usize>, keep: spec_fn(int) -> bool, j: int, k: int)
    requires
        0 <= j < k <= row.len(),
        keep(row[j] as int),
    ensures
        count_where(row, keep, k) >= 1,
    decreases k,
{
    lemma_count_bound(row, keep, k - 1);
    if j < k - 1 {
        lemma_count_present(row, keep, j, k - 1);
    }
}

/// How many of the first `k` flags are clear.
pub open spec fn remaining(removed: Seq<bool>, k: int) -> int
    decreases k,
{
    if k <= 0 {
        0
    } else {
        remaining(removed, k - 1) + if !removed[k - 1] {
            1int
        } else {
            0
        }
    }
}

pub(crate) proof fn lemma_remaining_set(removed: Seq<bool>, x: int, k: int)
    requires
        0 <= x < removed.len(),
        0 <= k <= removed.len(),
        !removed[x],
    ensures
        remaining(removed.update(x, true), k) == remaining(removed, k) - if x < k {
            1int
        } else {
            0
        },
    decreases k,
{
    if k > 0 {
        lemma_remaining_set(removed, x, k - 1);
    }
}

pub(crate) proof fn lemma_remaining_bound(removed: Seq<bool>, k: int)
    requires
        0 <= k <= removed.len(),
    ensures
        0 <= remaining(removed, k) <= k,
        remaining(removed, k) == 0 ==> forall|v: int| 0 <= v < k ==> removed[v],
    decreases k,
{
    if k > 0 {
        lemma_remaining_bound(removed, k - 1);
    }
}

/// The rows name nodes below `n`, never the node itself.
pub open spec fn rows_bounded(rows: Seq<Vec<usize>>, n: int) -> bool {
    forall|v: int, j: int| 0 <= v < n && 0 <= j < rows[v]@.len() ==> #[trigger] rows[v]@[j] < n && rows[v]@[j] != v
}

/// Each row is in increasing order.
pub open spec fn rows_sorted(rows: Seq<Vec<usize>>, n: int) -> bool {
    forall|v: int, i: int, j: int|
        0 <= v < n && 0 <= i < j < rows[v]@.len() ==> #[trigger] rows[v]@[i] < #[trigger] rows[v]@[j]
}

/// Row `u` holds `v`.
pub open spec fn has_entry(rows: Seq<Vec<usize>>, u: int, v: int) -> bool {
    exists|i: int| 0 <= i < rows[u]@.len() && rows[u]@[i] == v
}

/// Each node is in the rows of its neighbours.
pub open spec fn rows_symmetric(rows: Seq<Vec<usize>>, n: int) -> bool {
    forall|v: int, j: int|
        #![trigger rows[v]@[j]]
        0 <= v < n && 0 <= j < rows[v]@.len() ==> has_entry(rows, rows[v]@[j] as int, v)
}

/// The rows of a graph's undirected projection on `n` nodes.
pub open spec fn neighbourly(rows: Seq<Vec<usize>>, n: int) -> bool {
    &&& rows.len() == n
    &&& rows_bounded(rows, n)
    &&& rows_sorted(rows, n)
    &&& rows_symmetric(rows, n)
}

proof fn lemma_projection_neighbourly(g: crate::topology::GraphModel, rows: Seq<Vec<usize>>)
    requires
        projection_rows(g, rows),
    ensures
        neighbourly(rows, g.node_count as int),
{
    let n = g.node_count as int;
    assert(rows_bounded(rows, n)) by {
        assert forall|v: int, j: int| 0 <= v < n && 0 <= j < rows[v]@.len() implies #[trigger] rows[v]@[j] < n
            && rows[v]@[j] != v by {
            assert(lists_exactly(rows[v]@, |u: int| 0 <= u < g.node_count && linked(g, v, u)));
        }
    }
    assert(rows_sorted(rows, n)) by {
        assert forall|v: int, i: int, j: int| 0 <= v < n && 0 <= i < j < rows[v]@.len() implies #[trigger] rows[v]@[i]
            < #[trigger] rows[v]@[j] by {
            assert(lists_exactly(rows[v]@, |u: int| 0 <= u < g.node_count && linked(g, v, u)));
        }
    }
    assert(rows_symmetric(rows, n)) by {
        assert forall|v: int, j: int|
            #![trigger rows[v]@[j]]
            0 <= v < n && 0 <= j < rows[v]@.len() implies has_entry(rows, rows[v]@[j] as int, v) by {
            lemma_symmetric_entry(g, rows, v, j);
        }
    }
}

proof fn lemma_symmetric_entry(g: crate::topology::GraphModel, rows: Seq<Vec<usize>>, v: int, j: int)
    requires
        projection_rows(g, rows),
        0 <= v < g.node_count,
        0 <= j < rows[v]@.len(),
    ensures
        has_entry(rows, rows[v]@[j] as int, v),
{
    let u = rows[v]@[j] as int;
    let here = |x: int| 0 <= x < g.node_count && linked(g, v, x);
    assert(lists_exactly(rows[v]@, here));
    assert(here(rows[v]@[j] as int));
    let e = choose|e: int|
        0 <= e < g.edges.len() && ((#[trigger] g.edges[e].0 == v && g.edges[e].1 == u) || (g.edges[e].0 == u
            && g.edges[e].1 == v));
    assert(g.edges[e] == g.edges[e]);
    assert(linked(g, u, v));
    let there = |x: int| 0 <= x < g.node_count && linked(g, u, x);
    assert(lists_exactly(rows[u]@, there));
    assert(there(v));
    let i = choose|i: int| 0 <= i < rows[u]@.len() && rows[u]@[i] == v;
    assert(rows[u]@[i] == v);
}

proof fn lemma_count_everything(row: Seq<usize>, keep: spec_fn(int) -> bool, k: int)
    requires
        0 <= k <= row.len(),
        forall|j: int| 0 <= j < k ==> #[trigger] keep(row[j] as int),
    ensures
        count_where(row, keep, k) == k,
    decreases k,
{
    if k > 0 {
        lemma_count_everything(row, keep, k - 1);
    }
}

/// Remaining degrees count remaining neighbours.
pub open spec fn degrees_counted(rows: Seq<Vec<usize>>, removed: Seq<bool>, degree: Seq<usize>, n: int) -> bool {
    forall|v: int| 0 <= v < n && !#[trigger] removed[v] ==> degree[v] == count_all(rows[v]@, |u: int| !removed[u])
}

/// Removed nodes have cores up to the level.
pub open spec fn removed_below(removed: Seq<bool>, core: Seq<usize>, level: int, n: int) -> bool {
    forall|v: int| 0 <= v < n && #[trigger] removed[v] ==> core[v] <= level
}

/// Each removed node has, among its neighbours, at least its core in nodes
/// that remain or have a core at least as high.
pub open spec fn removed_supported(rows: Seq<Vec<usize>>, removed: Seq<bool>, core: Seq<usize>, n: int) -> bool {
    forall|v: int|
        0 <= v < n && #[trigger] removed[v] ==> count_all(rows[v]@, |u: int| !removed[u] || core[u] >= core[v])
            >= core[v]
}

/// Each remaining node has, among its neighbours, at least `level` nodes
/// that remain or have a core of at least `level`.
pub open spec fn level_reached(rows: Seq<Vec<usize>>, removed: Seq<bool>, core: Seq<usize>, level: int, n: int) -> bool {
    forall|v: int|
        0 <= v < n && !#[trigger] removed[v] ==> count_all(rows[v]@, |u: int| !removed[u] || core[u] >= level)
            >= level
}

/// No dense set has lost a node below its density, and once it loses one
/// the level is at least its density.
pub open spec fn dense_kept(rows: Seq<Vec<usize>>, removed: Seq<bool>, core: Seq<usize>, level: int, n: int) -> bool {
    forall|member: spec_fn(int) -> bool, k: int|
        #[trigger] dense(rows, member, k, n) ==> ((exists|w: int| 0 <= w < n && member(w) && removed[w]) ==> level
            >= k) && forall|w: int| 0 <= w < n && member(w) && #[trigger] removed[w] ==> core[w] >= k
}

/// The facts that hold between peeling steps.
pub open spec fn peeling(rows: Seq<Vec<usize>>, removed: Seq<bool>, degree: Seq<usize>, core: Seq<usize>, level: int, n: int) -> bool {
    &&& removed.len() == n
    &&& degree.len() == n
    &&& core.len() == n
    &&& degrees_counted(rows, removed, degree, n)
    &&& removed_below(removed, core, level, n)
    &&& removed_supported(rows, removed, core, n)
    &&& level_reached(rows, removed, core, level, n)
    &&& dense_kept(rows, removed, core, level, n)
}

proof fn lemma_entry_symmetric(rows: Seq<Vec<usize>>, n: int, u: int, v: int)
    requires
        neighbourly(rows, n),
        0 <= u < n,
        has_entry(rows, u, v),
    ensures
        has_entry(rows, v, u),
{
    let i = choose|i: int| 0 <= i < rows[u]@.len() && rows[u]@[i] == v;
    assert(rows[u]@[i] == v);
}

proof fn lemma_step_degrees(
    rows: Seq<Vec<usize>>,
    old_removed: Seq<bool>,
    old_degree: Seq<usize>,
    rs: Seq<bool>,
    degree: Seq<usize>,
    s: int,
    n: int,
)
    requires
        neighbourly(rows, n),
        old_removed.len() == n,
        degrees_counted(rows, old_removed, old_degree, n),
        0 <= s < n,
        !old_removed[s],
        rs == old_removed.update(s, true),
        forall|x: int|
            0 <= x < n && x != s && !rs[x] ==> #[trigger] degree[x] == old_degree[x] - if has_entry(rows, s, x) {
                1int
            } else {
                0
            },
    ensures
        degrees_counted(rows, rs, degree, n),
{
    assert forall|x: int| 0 <= x < n && !#[trigger] rs[x] implies degree[x] == count_all(rows[x]@, |u: int| !rs[u]) by {
        assert(x != s);
        assert(!old_removed[x]);
        assert forall|j: int|
            #![trigger rows[x]@[j]]
            0 <= j < rows[x]@.len() && rows[x]@[j] != s implies ((|u: int| !old_removed[u])(
            rows[x]@[j] as int,
        ) <==> (|u: int| !rs[u])(rows[x]@[j] as int)) by {
            assert(rows[x]@[j] < n);
        }
        lemma_count_drop(rows[x]@, |u: int| !old_removed[u], |u: int| !rs[u], s, rows[x]@.len() as int);
        if has_entry(rows, x, s) {
            lemma_entry_symmetric(rows, n, x, s);
        }
        if has_entry(rows, s, x) {
            lemma_entry_symmetric(rows, n, s, x);
        }
    }
}

proof fn lemma_raised_level(
    rows: Seq<Vec<usize>>,
    removed: Seq<bool>,
    degree: Seq<usize>,
    core: Seq<usize>,
    level: int,
    c: int,
    n: int,
)
    requires
        neighbourly(rows, n),
        removed.len() == n,
        degrees_counted(rows, removed, degree, n),
        level_reached(rows, removed, core, level, n),
        forall|x: int| 0 <= x < n && !removed[x] ==> c <= #[trigger] degree[x],
    ensures
        level_reached(rows, removed, core, if level < c { c } else { level }, n),
{
    let l = if level < c { c } else { level };
    if level < c {
        assert forall|x: int| 0 <= x < n && !#[trigger] removed[x] implies count_all(
            rows[x]@,
            |u: int| !removed[u] || core[u] >= l,
        ) >= l by {
            assert forall|j: int|
                #![trigger rows[x]@[j]]
                0 <= j < rows[x]@.len() && (|u: int| !removed[u])(rows[x]@[j] as int) implies (|u: int| !removed[u]
                || core[u] >= l)(rows[x]@[j] as int) by {
            }
            lemma_count_weaker(rows[x]@, |u: int| !removed[u], |u: int| !removed[u] || core[u] >= l, rows[x]@.len() as int);
            assert(degree[x] >= c);
        }
    }
}

proof fn lemma_step_reach(
    rows: Seq<Vec<usize>>,
    old_removed: Seq<bool>,
    old_core: Seq<usize>,
    rs: Seq<bool>,
    cs: Seq<usize>,
    l: int,
    s: int,
    n: int,
)
    requires
        neighbourly(rows, n),
        old_removed.len() == n,
        old_core.len() == n,
        level_reached(rows, old_removed, old_core, l, n),
        0 <= s < n,
        !old_removed[s],
        l >= 0,
        rs == old_removed.update(s, true),
        cs == old_core.update(s, l as usize),
        l <= usize::MAX,
    ensures
        level_reached(rows, rs, cs, l, n),
        count_all(rows[s]@, |u: int| !rs[u] || cs[u] >= cs[s]) >= cs[s],
{
    assert forall|x: int| 0 <= x < n && !#[trigger] rs[x] implies count_all(rows[x]@, |u: int| !rs[u] || cs[u] >= l)
        >= l by {
        assert(!old_removed[x]);
        assert forall|j: int|
            #![trigger rows[x]@[j]]
            0 <= j < rows[x]@.len() implies ((|u: int| !old_removed[u] || old_core[u] >= l)(
            rows[x]@[j] as int,
        ) <==> (|u: int| !rs[u] || cs[u] >= l)(rows[x]@[j] as int)) by {
            assert(rows[x]@[j] < n);
        }
        lemma_count_same(
            rows[x]@,
            |u: int| !old_removed[u] || old_core[u] >= l,
            |u: int| !rs[u] || cs[u] >= l,
            rows[x]@.len() as int,
        );
    }
    assert(cs[s] == l);
    assert forall|j: int|
            #![trigger rows[s]@[j]]
            0 <= j < rows[s]@.len() implies ((|u: int| !old_removed[u] || old_core[u] >= l)(
        rows[s]@[j] as int,
    ) <==> (|u: int| !rs[u] || cs[u] >= cs[s])(rows[s]@[j] as int)) by {
        assert(rows[s]@[j] < n && rows[s]@[j] != s);
    }
    lemma_count_same(
        rows[s]@,
        |u: int| !old_removed[u] || old_core[u] >= l,
        |u: int| !rs[u] || cs[u] >= cs[s],
        rows[s]@.len() as int,
    );
}

proof fn lemma_step_supported(
    rows: Seq<Vec<usize>>,
    old_removed: Seq<bool>,
    old_core: Seq<usize>,
    old_level: int,
    rs: Seq<bool>,
    cs: Seq<usize>,
    l: int,
    s: int,
    n: int,
)
    requires
        neighbourly(rows, n),
        old_removed.len() == n,
        old_core.len() == n,
        removed_supported(rows, old_removed, old_core, n),
        removed_below(old_removed, old_core, old_level, n),
        old_level <= l,
        0 <= s < n,
        !old_removed[s],
        rs == old_removed.update(s, true),
        cs == old_core.update(s, l as usize),
        0 <= l <= usize::MAX,
        count_all(rows[s]@, |u: int| !rs[u] || cs[u] >= cs[s]) >= cs[s],
    ensures
        removed_supported(rows, rs, cs, n),
        removed_below(rs, cs, l, n),
{
    assert forall|x: int| 0 <= x < n && #[trigger] rs[x] implies count_all(rows[x]@, |u: int| !rs[u] || cs[u] >= cs[x])
        >= cs[x] by {
        if x != s {
            assert(old_removed[x]);
            assert(old_core[x] <= old_level);
            assert forall|j: int|
                #![trigger rows[x]@[j]]
                0 <= j < rows[x]@.len() && (|u: int| !old_removed[u] || old_core[u] >= old_core[x])(rows[x]@[j] as int)
                implies (|u: int| !rs[u] || cs[u] >= cs[x])(rows[x]@[j] as int) by {
                assert(rows[x]@[j] < n);
            }
            lemma_count_weaker(
                rows[x]@,
                |u: int| !old_removed[u] || old_core[u] >= old_core[x],
                |u: int| !rs[u] || cs[u] >= cs[x],
                rows[x]@.len() as int,
            );
        }
    }
    assert forall|x: int| 0 <= x < n && #[trigger] rs[x] implies cs[x] <= l by {
        if x != s {
            assert(old_removed[x]);
        }
    }
}

proof fn lemma_step_dense(
    rows: Seq<Vec<usize>>,
    old_removed: Seq<bool>,
    old_degree: Seq<usize>,
    old_core: Seq<usize>,
    old_level: int,
    rs: Seq<bool>,
    cs: Seq<usize>,
    l: int,
    s: int,
    n: int,
)
    requires
        neighbourly(rows, n),
        old_removed.len() == n,
        old_core.len() == n,
        degrees_counted(rows, old_removed, old_degree, n),
        dense_kept(rows, old_removed, old_core, old_level, n),
        old_level <= l,
        old_degree[s] <= l,
        0 <= s < n,
        !old_removed[s],
        rs == old_removed.update(s, true),
        cs == old_core.update(s, l as usize),
        0 <= l <= usize::MAX,
    ensures
        dense_kept(rows, rs, cs, l, n),
{
    assert forall|member: spec_fn(int) -> bool, k: int| #[trigger] dense(rows, member, k, n) implies ((exists|w: int|
        0 <= w < n && member(w) && rs[w]) ==> l >= k) && forall|w: int|
        0 <= w < n && member(w) && #[trigger] rs[w] ==> cs[w] >= k by {
        let before = exists|w: int| 0 <= w < n && member(w) && old_removed[w];
        if member(s) && !before {
            assert(count_all(rows[s]@, member) >= k);
            assert forall|q: int|
                #![trigger rows[s]@[q]]
                0 <= q < rows[s]@.len() && member(rows[s]@[q] as int) implies (|u: int| !old_removed[u])(
                rows[s]@[q] as int,
            ) by {
                assert(rows[s]@[q] < n);
            }
            lemma_count_weaker(rows[s]@, member, |u: int| !old_removed[u], rows[s]@.len() as int);
            assert(old_degree[s] >= k);
        }
        if exists|w: int| 0 <= w < n && member(w) && rs[w] {
            let w = choose|w: int| 0 <= w < n && member(w) && rs[w];
            if w != s {
                assert(old_removed[w]);
            }
        }
        assert forall|w: int| 0 <= w < n && member(w) && #[trigger] rs[w] implies cs[w] >= k by {
            if w != s {
                assert(old_removed[w]);
            }
        }
    }
}

/// The core number of every node of the undirected projection of
/// `graph`, in node order: the largest `k` such that the node lies in a
/// set whose members each have at least `k` neighbours in the set.
pub fn k_core_numbers(graph: &Topology) -> (r: Vec<(NodeIndex, usize)>)
    ensures
        r@.len() == graph@.node_count,
        forall|v: int| 0 <= v < r@.len() ==> (#[trigger] r@[v]).0 == NodeIndex(v as u32),
        exists|rows: Seq<Vec<usize>>|
            projection_rows(graph@, rows) && core_numbers(
                rows,
                r@.map_values(|p: (NodeIndex, usize)| p.1 as int),
                graph@.node_count as int,
            ),
{
    let n = graph.node_count();
    let rows = projection(graph);
    proof {
        lemma_projection_neighbourly(graph@, rows@);
    }
    let mut removed: Vec<bool> = Vec::new();
    let mut degree: Vec<usize> = Vec::new();
    let mut core: Vec<usize> = Vec::new();
    let mut v: usize = 0;
    while v < n
        invariant
            v <= n,
            neighbourly(rows@, n as int),
            removed@.len() == v,
            degree@.len() == v,
            core@.len() == v,
            forall|w: int| 0 <= w < v ==> !#[trigger] removed@[w] && core@[w] == 0 && degree@[w] == rows@[w]@.len(),
        decreases n - v,
    {
        removed.push(false);
        degree.push(rows[v].len());
        core.push(0);
        v += 1;
    }
    let mut level: usize = 0;
    proof {
        assert forall|w: int| 0 <= w < n && !#[trigger] removed@[w] implies degree@[w] == count_all(
            rows@[w]@,
            |u: int| !removed@[u],
        ) by {
            assert forall|j: int|
                #![trigger rows@[w]@[j]]
                0 <= j < rows@[w]@.len() implies (|u: int| !removed@[u])(
                rows@[w]@[j] as int,
            ) by {
                assert(rows@[w]@[j] < n);
            }
            lemma_count_everything(rows@[w]@, |u: int| !removed@[u], rows@[w]@.len() as int);
        }
        assert forall|w: int| 0 <= w < n && !#[trigger] removed@[w] implies count_all(
            rows@[w]@,
            |u: int| !removed@[u] || core@[u] >= level,
        ) >= level by {
            lemma_count_bound(rows@[w]@, |u: int| !removed@[u] || core@[u] >= level, rows@[w]@.len() as int);
        }
        lemma_remaining_bound(removed@, n as int);
    }
    loop
        invariant
            n == graph@.node_count <= u32::MAX,
            neighbourly(rows@, n as int),
            projection_rows(graph@, rows@),
            peeling(rows@, removed@, degree@, core@, level as int, n as int),
        ensures
            peeling(rows@, removed@, degree@, core@, level as int, n as int),
            forall|x: int| 0 <= x < n ==> #[trigger] removed@[x],
        decreases remaining(removed@, n as int),
    {
        let mut best: usize = n;
        let mut w: usize = 0;
        while w < n
            invariant
                w <= n,
                removed@.len() == n,
                degree@.len() == n,
                best == n ==> forall|x: int| 0 <= x < w ==> #[trigger] removed@[x],
                best < n ==> best < w && !removed@[best as int] && forall|x: int|
                    0 <= x < w && !#[trigger] removed@[x] ==> degree@[best as int] <= degree@[x],
                best <= n,
            decreases n - w,
        {
            if !removed[w] && (best == n || degree[w] < degree[best]) {
                best = w;
            }
            w += 1;
        }
        if best == n {
            break;
        }
        let sel = best;
        let c = degree[sel];
        let ghost old_removed = removed@;
        let ghost old_degree = degree@;
        let ghost old_core = core@;
        let ghost old_level = level as int;
        let new_level = if level < c {
            c
        } else {
            level
        };
        proof {
            lemma_remaining_set(removed@, sel as int, n as int);
            lemma_remaining_bound(removed@.update(sel as int, true), n as int);
            lemma_count_bound(rows@[sel as int]@, |u: int| !old_removed[u], rows@[sel as int]@.len() as int);
        }
        removed.set(sel, true);
        core.set(sel, new_level);
        level = new_level;
        let row = &rows[sel];
        let mut j: usize = 0;
        while j < row.len()
            invariant
                j <= row@.len(),
                row@ == rows@[sel as int]@,
                neighbourly(rows@, n as int),
                n == rows@.len(),
                sel < n,
                removed@ == old_removed.update(sel as int, true),
                old_removed.len() == n,
                !old_removed[sel as int],
                degree@.len() == n,
                forall|x: int|
                    0 <= x < n && !#[trigger] old_removed[x] ==> old_degree[x] == count_all(
                        rows@[x]@,
                        |u: int| !old_removed[u],
                    ),
                forall|x: int|
                    0 <= x < n && x != sel && !removed@[x] ==> #[trigger] degree@[x] == old_degree[x] - if exists|i: int|
                        0 <= i < j && row@[i] == x {
                        1int
                    } else {
                        0
                    },
                forall|x: int| 0 <= x < n && (x == sel || old_removed[x]) ==> #[trigger] degree@[x] == old_degree[x],
            decreases row@.len() - j,
        {
            let u = row[j];
            proof {
                assert(rows@[sel as int]@[j as int] < n);
            }
            if !removed[u] {
                proof {
                    assert(u != sel);
                    assert(has_entry(rows@, u as int, sel as int)) by {
                        assert(rows_symmetric(rows@, n as int));
                        assert(has_entry(rows@, rows@[sel as int]@[j as int] as int, sel as int));
                    }
                    let i = choose|i: int| 0 <= i < rows@[u as int]@.len() && rows@[u as int]@[i] == sel;
                    lemma_count_present(rows@[u as int]@, |u: int| !old_removed[u], i, rows@[u as int]@.len() as int);
                    assert(!exists|i: int| 0 <= i < j && row@[i] == u as int) by {
                        if exists|i: int| 0 <= i < j && row@[i] == u as int {
                            let i = choose|i: int| 0 <= i < j && row@[i] == u as int;
                            assert(rows@[sel as int]@[i] < rows@[sel as int]@[j as int]);
                        }
                    }
                }
                let d = degree[u];
                degree.set(u, d - 1);
            }
            j += 1;
        }
        proof {
            let rs = removed@;
            let cs = core@;
            let s = sel as int;
            let l = level as int;
            assert forall|x: int| 0 <= x < n && x != s && !rs[x] implies #[trigger] degree@[x] == old_degree[x]
                - if has_entry(rows@, s, x) {
                1int
            } else {
                0
            } by {
                if exists|i: int| 0 <= i < row@.len() && row@[i] == x {
                    let i = choose|i: int| 0 <= i < row@.len() && row@[i] == x;
                    assert(rows@[s]@[i] == x);
                }
                if has_entry(rows@, s, x) {
                    let i = choose|i: int| 0 <= i < rows@[s]@.len() && rows@[s]@[i] == x;
                    assert(row@[i] == x);
                }
            }
            lemma_step_degrees(rows@, old_removed, old_degree, rs, degree@, s, n as int);
            assert forall|x: int| 0 <= x < n && !old_removed[x] implies c <= #[trigger] old_degree[x] by {
            }
            lemma_raised_level(rows@, old_removed, old_degree, old_core, old_level, c as int, n as int);
            lemma_step_reach(rows@, old_removed, old_core, rs, cs, l, s, n as int);
            lemma_step_supported(rows@, old_removed, old_core, old_level, rs, cs, l, s, n as int);
            lemma_step_dense(rows@, old_removed, old_degree, old_core, old_level, rs, cs, l, s, n as int);
        }
    }
    let mut r: Vec<(NodeIndex, usize)> = Vec::new();
    let mut v: usize = 0;
    while v < n
        invariant
            v <= n <= u32::MAX,
            core@.len() == n,
            r@.len() == v,
            forall|w: int| 0 <= w < v ==> #[trigger] r@[w] == (NodeIndex(w as u32), core@[w]),
        decreases n - v,
    {
        r.push((NodeIndex(v as u32), core[v]));
        v += 1;
    }
    proof {
        let cs = r@.map_values(|p: (NodeIndex, usize)| p.1 as int);
        assert forall|w: int| 0 <= w < n implies cs[w] == core@[w] as int by {
            assert(r@[w] == (NodeIndex(w as u32), core@[w]));
        }
        assert forall|w: int| 0 <= w < n implies #[trigger] removed@[w] by {
        }
        assert forall|x: int| 0 <= x < n implies count_all(rows@[x]@, |u: int| cs[u] >= cs[x]) >= #[trigger] cs[x] by {
            assert(removed@[x]);
            assert forall|k: int|
                #![trigger rows@[x]@[k]]
                0 <= k < rows@[x]@.len() implies ((|u: int| !removed@[u] || core@[u] >= core@[x])(
                rows@[x]@[k] as int,
            ) <==> (|u: int| cs[u] >= cs[x])(rows@[x]@[k] as int)) by {
                assert(rows@[x]@[k] < n);
                assert(removed@[rows@[x]@[k] as int]);
            }
            lemma_count_same(
                rows@[x]@,
                |u: int| !removed@[u] || core@[u] >= core@[x],
                |u: int| cs[u] >= cs[x],
                rows@[x]@.len() as int,
            );
        }
        assert forall|member: spec_fn(int) -> bool, k: int| #[trigger] dense(rows@, member, k, n as int) implies forall|w: int|
            0 <= w < n && member(w) ==> #[trigger] cs[w] >= k by {
            assert forall|w: int| 0 <= w < n && member(w) implies #[trigger] cs[w] >= k by {
                assert(removed@[w]);
            }
        }
    }
    r
}

} // verus!
