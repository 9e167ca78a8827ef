use vstd::prelude::*;

verus! {

/// Which endpoint of an edge a compressed adjacency row is keyed by:
/// `0` the source, `1` the target, `2` either endpoint (undirected incidence).
pub open spec fn touches(p: (int, int), mode: int, v: int) -> bool {
    if mode == 0 {
        p.0 == v
    } else if mode == 1 {
        p.1 == v
    } else {
        p.0 == v || p.1 == v
    }
}

/// The indexes, in increasing order, of the first `k` edges that touch `v`.
pub open spec fn adj_list(edges: Seq<(int, int)>, k: nat, mode: int, v: int) -> Seq<int>
    decreases k,
{
    if k == 0 {
        Seq::empty()
    } else {
        let prev = adj_list(edges, (k - 1) as nat, mode, v);
        if touches(edges[k - 1], mode, v) {
            prev.push(k - 1)
        } else {
            prev
        }
    }
}

/// Total row length of the nodes below `n`.
pub open spec fn sum_lens(edges: Seq<(int, int)>, k: nat, mode: int, n: nat) -> nat
    decreases n,
{
    if n == 0 {
        0
    } else {
        sum_lens(edges, k, mode, (n - 1) as nat) + adj_list(edges, k, mode, n - 1).len()
    }
}

/// How many of the nodes below `n` an edge with endpoints `p` touches.
pub open spec fn weight(p: (int, int), mode: int, n: int) -> int {
    if mode == 0 {
        if 0 <= p.0 < n { 1int } else { 0int }
    } else if mode == 1 {
        if 0 <= p.1 < n { 1int } else { 0int }
    } else {
        (if 0 <= p.0 < n { 1int } else { 0int }) + (if 0 <= p.1 < n && p.1 != p.0 { 1int } else { 0int })
    }
}

/// Total incidences of the first `k` edges on the nodes below `n`.
pub open spec fn total_weight(edges: Seq<(int, int)>, k: nat, mode: int, n: int) -> int
    decreases k,
{
    if k == 0 {
        0
    } else {
        total_weight(edges, (k - 1) as nat, mode, n) + weight(edges[k - 1], mode, n)
    }
}

/// Every endpoint is a node below `n`.
pub open spec fn endpoints_valid(edges: Seq<(int, int)>, n: int) -> bool {
    forall|e: int| 0 <= e < edges.len() ==> 0 <= #[trigger] edges[e].0 < n && 0 <= edges[e].1 < n
}

/// Undirected incidences of an edge list: one for a self-loop, two otherwise.
pub open spec fn incidences(edges: Seq<(int, int)>, k: nat) -> int
    decreases k,
{
    if k == 0 {
        0
    } else {
        incidences(edges, (k - 1) as nat) + (if edges[k - 1].0 == edges[k - 1].1 { 1int } else { 2int })
    }
}

pub proof fn lemma_adj_prefix(edges: Seq<(int, int)>, k1: nat, k2: nat, mode: int, v: int)
    requires
        k1 <= k2,
        k2 <= edges.len(),
    ensures
        adj_list(edges, k1, mode, v).len() <= adj_list(edges, k2, mode, v).len(),
        adj_list(edges, k1, mode, v) =~= adj_list(edges, k2, mode, v).subrange(
            0,
            adj_list(edges, k1, mode, v).len() as int,
        ),
    decreases k2 - k1,
{
    if k1 < k2 {
        lemma_adj_prefix(edges, k1, (k2 - 1) as nat, mode, v);
    }
}

/// Rows are strictly increasing and hold exactly the touching edges.
pub proof fn lemma_adj_members(edges: Seq<(int, int)>, k: nat, mode: int, v: int)
    requires
        k <= edges.len(),
    ensures
        forall|i: int, j: int|
            0 <= i < j < adj_list(edges, k, mode, v).len() ==> adj_list(edges, k, mode, v)[i]
                < adj_list(edges, k, mode, v)[j],
        forall|i: int|
            0 <= i < adj_list(edges, k, mode, v).len() ==> 0 <= #[trigger] adj_list(
                edges,
                k,
                mode,
                v,
            )[i] < k && touches(edges[adj_list(edges, k, mode, v)[i]], mode, v),
        forall|e: int|
            0 <= e < k && touches(#[trigger] edges[e], mode, v) ==> adj_list(
                edges,
                k,
                mode,
                v,
            ).contains(e),
    decreases k,
{
    if k > 0 {
        let km = (k - 1) as nat;
        lemma_adj_members(edges, km, mode, v);
        let prev = adj_list(edges, km, mode, v);
        let cur = adj_list(edges, k, mode, v);
        assert forall|e: int| 0 <= e < k && touches(#[trigger] edges[e], mode, v) implies cur.contains(e) by {
            if e < k - 1 {
                assert(prev.contains(e));
                let w = choose|w: int| 0 <= w < prev.len() && prev[w] == e;
                assert(cur[w] == e);
            } else {
                assert(cur[cur.len() - 1] == e);
            }
        }
    }
}

proof fn lemma_weight_step(p: (int, int), mode: int, n: nat)
    ensures
        weight(p, mode, n + 1 as int) == weight(p, mode, n as int) + (if touches(p, mode, n as int) { 1int } else { 0int }),
{
}

proof fn lemma_sum_step(edges: Seq<(int, int)>, k: nat, mode: int, n: nat)
    requires
        k < edges.len(),
    ensures
        sum_lens(edges, k + 1, mode, n) == sum_lens(edges, k, mode, n) + weight(edges[k as int], mode, n as int),
    decreases n,
{
    if n > 0 {
        lemma_sum_step(edges, k, mode, (n - 1) as nat);
        lemma_weight_step(edges[k as int], mode, (n - 1) as nat);
    }
}

/// The rows of the nodes below `n` together hold every incidence.
pub proof fn lemma_sum_total(edges: Seq<(int, int)>, k: nat, mode: int, n: nat)
    requires
        k <= edges.len(),
    ensures
        sum_lens(edges, k, mode, n) == total_weight(edges, k, mode, n as int),
    decreases k,
{
    if k == 0 {
        lemma_sum_zero(edges, mode, n);
    } else {
        lemma_sum_total(edges, (k - 1) as nat, mode, n);
        lemma_sum_step(edges, (k - 1) as nat, mode, n);
    }
}

proof fn lemma_sum_zero(edges: Seq<(int, int)>, mode: int, n: nat)
    ensures
        sum_lens(edges, 0, mode, n) == 0,
    decreases n,
{
    if n > 0 {
        lemma_sum_zero(edges, mode, (n - 1) as nat);
    }
}

/// With valid endpoints, a directed row family has exactly one entry per edge.
pub proof fn lemma_total_directed(edges: Seq<(int, int)>, k: nat, mode: int, n: int)
    requires
        k <= edges.len(),
        endpoints_valid(edges, n),
        mode == 0 || mode == 1,
    ensures
        total_weight(edges, k, mode, n) == k,
    decreases k,
{
    if k > 0 {
        lemma_total_directed(edges, (k - 1) as nat, mode, n);
        assert(0 <= edges[k - 1].0 < n);
    }
}

/// With valid endpoints, undirected incidence rows hold one entry per self-loop
/// and two per other edge.
pub proof fn lemma_total_undirected(edges: Seq<(int, int)>, k: nat, n: int)
    requires
        k <= edges.len(),
        endpoints_valid(edges, n),
    ensures
        total_weight(edges, k, 2, n) == incidences(edges, k),
    decreases k,
{
    if k > 0 {
        lemma_total_undirected(edges, (k - 1) as nat, n);
        assert(0 <= edges[k - 1].0 < n);
    }
}

/// Prefix sums of row lengths are monotone.
pub proof fn lemma_sum_mono(edges: Seq<(int, int)>, k: nat, mode: int, a: nat, b: nat)
    requires
        a <= b,
    ensures
        sum_lens(edges, k, mode, a) <= sum_lens(edges, k, mode, b),
    decreases b - a,
{
    if a < b {
        lemma_sum_mono(edges, k, mode, a, (b - 1) as nat);
    }
}

pub proof fn lemma_incidences_bound(edges: Seq<(int, int)>, k: nat)
    ensures
        k <= incidences(edges, k) <= 2 * k,
    decreases k,
{
    if k > 0 {
        lemma_incidences_bound(edges, (k - 1) as nat);
    }
}

} // verus!
