//! Deterministic asynchronous label propagation over the undirected
//! projection.
use super::projection::{linked, lists_exactly, projection, projection_rows};
use crate::topology::{GraphModel, NodeIndex, Topology};
use vstd::prelude::*;

verus! {

/// How many of the first `k` nodes of `row` carry label `l`.
pub open spec fn tally_to(row: Seq<usize>, labels: Seq<int>, l: int, k: int) -> int
    decreases k,
{
    if k <= 0 {
        0
    } else {
        tally_to(row, labels, l, k - 1) + if labels[row[k - 1] as int] == l {
            1int
        } else {
            0
        }
    }
}

/// How many nodes of `row` carry label `l`.
pub open spec fn tally(row: Seq<usize>, labels: Seq<int>, l: int) -> int {
    tally_to(row, labels, l, row.len() as int)
}

/// `l` is the label most frequent among the nodes of `row`, the smallest
/// such label on a tie.
pub open spec fn preferred(row: Seq<usize>, labels: Seq<int>, l: int) -> bool {
    &&& exists|k: int| 0 <= k < row.len() && labels[row[k] as int] == l
    &&& forall|k: int|
        0 <= k < row.len() ==> {
            let other = labels[#[trigger] row[k] as int];
            tally(row, labels, other) < tally(row, labels, l) || (tally(row, labels, other) == tally(row, labels, l)
                && l <= other)
        }
}

/// What a label propagation reports: each community's members, each node's
/// community, the sweeps made, and whether labels settled.
pub struct CommunitiesView {
    pub groups: Seq<Seq<int>>,
    pub nodes: Seq<int>,
    pub memberships: Seq<int>,
    pub iterations: nat,
    pub converged: bool,
}

/// Communities found by label propagation.
#[derive(Debug, Clone, PartialEq, Eq)]
pub struct Communities {
    groups: Vec<Vec<NodeIndex>>,
    memberships: Vec<(NodeIndex, usize)>,
    iterations: usize,
    converged: bool,
}

/// The nodes of each group, as positions.
pub open spec fn group_ints(groups: Seq<Vec<NodeIndex>>) -> Seq<Seq<int>> {
    groups.map_values(|g: Vec<NodeIndex>| g@.map_values(|v: NodeIndex| v.0 as int))
}

impl View for Communities {
    type V = CommunitiesView;

    closed spec fn view(&self) -> CommunitiesView {
        CommunitiesView {
            groups: group_ints(self.groups@),
            nodes: self.memberships@.map_values(|m: (NodeIndex, usize)| m.0.0 as int),
            memberships: self.memberships@.map_values(|m: (NodeIndex, usize)| m.1 as int),
            iterations: self.iterations as nat,
            converged: self.converged,
        }
    }
}

/// `m` numbers the communities of `n` nodes and `groups` lists each
/// community's members in increasing order; no community is empty.
pub open spec fn partition(n: nat, groups: Seq<Seq<int>>, m: Seq<int>) -> bool {
    &&& m.len() == n
    &&& forall|v: int| 0 <= v < n ==> 0 <= #[trigger] m[v] < groups.len()
    &&& forall|c: int| 0 <= c < groups.len() ==> #[trigger] groups[c].len() > 0
    &&& forall|c: int|
        0 <= c < groups.len() ==> lists_members(#[trigger] groups[c], m, c)
}

/// `members` lists, in increasing order, exactly the nodes numbered `c`.
pub open spec fn lists_members(members: Seq<int>, m: Seq<int>, c: int) -> bool {
    &&& forall|i: int, j: int| 0 <= i < j < members.len() ==> members[i] < members[j]
    &&& forall|i: int| 0 <= i < members.len() ==> 0 <= #[trigger] members[i] < m.len() && m[members[i]] == c
    &&& forall|v: int| 0 <= v < m.len() && #[trigger] m[v] == c ==> members.contains(v)
}

/// Every node with neighbours is in the community most frequent among
/// them, the lowest-numbered on a tie.
pub open spec fn settled(g: GraphModel, rows: Seq<Vec<usize>>, m: Seq<int>) -> bool {
    forall|v: int|
        0 <= v < g.node_count && rows[v]@.len() > 0 ==> preferred(#[trigger] rows[v]@, m, m[v])
}

impl Communities {
    /// Each community's members, in increasing order.
    pub fn groups(&self) -> (r: &[Vec<NodeIndex>])
        ensures
            group_ints(r@) == self@.groups,
    {
        self.groups.as_slice()
    }

    /// Each node with its community, in node order.
    pub fn memberships(&self) -> (r: &[(NodeIndex, usize)])
        ensures
            r@.map_values(|m: (NodeIndex, usize)| m.1 as int) == self@.memberships,
    {
        self.memberships.as_slice()
    }

    /// The number of sweeps made.
    pub fn iterations(&self) -> (r: usize)
        ensures
            r == self@.iterations,
    {
        self.iterations
    }

    /// Whether a sweep changed no label.
    pub fn converged(&self) -> (r: bool)
        ensures
            r == self@.converged,
    {
        self.converged
    }
}

/// Labels as integers.
pub open spec fn ints(labels: Seq<usize>) -> Seq<int> {
    labels.map_values(|l: usize| l as int)
}

proof fn lemma_tally_bound(row: Seq<usize>, labels: Seq<int>, l: int, k: int)
    requires
        0 <= k,
    ensures
        0 <= tally_to(row, labels, l, k) <= k,
    decreases k,
{
    if k > 0 {
        lemma_tally_bound(row, labels, l, k - 1);
    }
}

/// How many nodes of `row` carry label `l`.
fn count_label(row: &Vec<usize>, labels: &Vec<usize>, l: usize) -> (r: usize)
    requires
        forall|k: int| 0 <= k < row@.len() ==> #[trigger] row@[k] < labels@.len(),
    ensures
        r == tally(row@, ints(labels@), l as int),
{
    let mut count: usize = 0;
    let mut k: usize = 0;
    while k < row.len()
        invariant
            k <= row@.len(),
            forall|j: int| 0 <= j < row@.len() ==> #[trigger] row@[j] < labels@.len(),
            count == tally_to(row@, ints(labels@), l as int, k as int),
            count <= k,
        decreases row@.len() - k,
    {
        if labels[row[k]] == l {
            count += 1;
        }
        k += 1;
    }
    count
}

/// The label most frequent among the nodes of `row`, the smallest on a tie.
fn select_label(row: &Vec<usize>, labels: &Vec<usize>) -> (r: usize)
    requires
        row@.len() > 0,
        forall|k: int| 0 <= k < row@.len() ==> #[trigger] row@[k] < labels@.len(),
    ensures
        preferred(row@, ints(labels@), r as int),
{
    let ghost lab = ints(labels@);
    let mut best = labels[row[0]];
    let mut best_count = count_label(row, labels, best);
    let ghost mut witness: int = 0;
    let mut k: usize = 1;
    while k < row.len()
        invariant
            1 <= k <= row@.len(),
            lab == ints(labels@),
            forall|j: int| 0 <= j < row@.len() ==> #[trigger] row@[j] < labels@.len(),
            0 <= witness < k,
            lab[row@[witness] as int] == best as int,
            best_count == tally(row@, lab, best as int),
            forall|j: int|
                0 <= j < k ==> {
                    let other = lab[#[trigger] row@[j] as int];
                    tally(row@, lab, other) < best_count || (tally(row@, lab, other) == best_count && best as int
                        <= other)
                },
        decreases row@.len() - k,
    {
        let l = labels[row[k]];
        let c = count_label(row, labels, l);
        if c > best_count || (c == best_count && l < best) {
            best = l;
            best_count = c;
            proof {
                witness = k as int;
            }
        }
        k += 1;
    }
    best
}

proof fn lemma_tally_positive(row: Seq<usize>, labels: Seq<int>, l: int, k: int)
    requires
        0 <= k,
        tally_to(row, labels, l, k) != 0,
    ensures
        exists|j: int| 0 <= j < k && labels[row[j] as int] == l,
    decreases k,
{
    if k > 0 && labels[row[k - 1] as int] != l {
        lemma_tally_positive(row, labels, l, k - 1);
    }
}

proof fn lemma_tally_same(row: Seq<usize>, a: Seq<int>, b: Seq<int>, x: int, y: int, k: int)
    requires
        0 <= k <= row.len(),
        forall|j: int| 0 <= j < k ==> (a[#[trigger] row[j] as int] == x <==> b[row[j] as int] == y),
    ensures
        tally_to(row, a, x, k) == tally_to(row, b, y, k),
    decreases k,
{
    if k > 0 {
        lemma_tally_same(row, a, b, x, y, k - 1);
    }
}

/// Some label below `l` that occurs has rank `c`.
pub open spec fn has_rank(present: Seq<bool>, rank: Seq<usize>, l: int, c: int) -> bool {
    exists|a: int| 0 <= a < l && present[a] && #[trigger] rank[a] == c
}

/// The label a node whose neighbours are `row` takes under `labels`.
pub open spec fn chosen(row: Seq<usize>, labels: Seq<int>) -> int {
    choose|l: int| preferred(row, labels, l)
}

/// `labels` after the first `v` nodes of a sweep took, in order, each the
/// label chosen among its neighbours, if it has any.
pub open spec fn sweep(rows: Seq<Vec<usize>>, labels: Seq<int>, v: nat) -> Seq<int>
    decreases v,
{
    if v == 0 {
        labels
    } else {
        let l = sweep(rows, labels, (v - 1) as nat);
        let w = v - 1;
        if rows[w]@.len() > 0 {
            l.update(w, chosen(rows[w]@, l))
        } else {
            l
        }
    }
}

/// The labels of `n` nodes after `it` full sweeps, from each node's own
/// number.
pub open spec fn swept(rows: Seq<Vec<usize>>, n: nat, it: nat) -> Seq<int>
    decreases it,
{
    if it == 0 {
        Seq::new(n, |v: int| v)
    } else {
        sweep(rows, swept(rows, n, (it - 1) as nat), n)
    }
}

/// At most one label is preferred.
proof fn lemma_preferred_unique(row: Seq<usize>, labels: Seq<int>, a: int, b: int)
    requires
        preferred(row, labels, a),
        preferred(row, labels, b),
    ensures
        a == b,
{
    let ka = choose|k: int| 0 <= k < row.len() && labels[row[k] as int] == a;
    let kb = choose|k: int| 0 <= k < row.len() && labels[row[k] as int] == b;
    assert(labels[row[kb] as int] == b);
    assert(labels[row[ka] as int] == a);
}

/// A sweep keeps the number of labels.
proof fn lemma_sweep_len(rows: Seq<Vec<usize>>, labels: Seq<int>, v: nat)
    requires
        v <= labels.len(),
    ensures
        sweep(rows, labels, v).len() == labels.len(),
    decreases v,
{
    if v > 0 {
        lemma_sweep_len(rows, labels, (v - 1) as nat);
    }
}

/// A sweep leaves the nodes it has not reached yet as they were.
proof fn lemma_sweep_ahead(rows: Seq<Vec<usize>>, labels: Seq<int>, v: nat, w: int)
    requires
        v <= w < labels.len(),
    ensures
        sweep(rows, labels, v)[w] == labels[w],
        sweep(rows, labels, v).len() == labels.len(),
    decreases v,
{
    if v > 0 {
        lemma_sweep_ahead(rows, labels, (v - 1) as nat, w);
    }
}

/// Every node with neighbours holds a label most frequent among them.
pub open spec fn fixed(rows: Seq<Vec<usize>>, labels: Seq<int>, n: int) -> bool {
    forall|v: int| 0 <= v < n && rows[v]@.len() > 0 ==> preferred(#[trigger] rows[v]@, labels, labels[v])
}

proof fn lemma_renumbered(rows: Seq<Vec<usize>>, labels: Seq<int>, m: Seq<int>, n: int)
    requires
        rows.len() == n,
        labels.len() == n,
        m.len() == n,
        forall|v: int, k: int| 0 <= v < n && 0 <= k < rows[v]@.len() ==> #[trigger] rows[v]@[k] < n,
        forall|u: int, w: int|
            0 <= u < n && 0 <= w < n ==> (#[trigger] labels[u] == #[trigger] labels[w] <==> m[u] == m[w]) && (
            labels[u] <= labels[w] <==> m[u] <= m[w]),
        fixed(rows, labels, n),
    ensures
        fixed(rows, m, n),
{
    assert forall|v: int| 0 <= v < n && rows[v]@.len() > 0 implies preferred(#[trigger] rows[v]@, m, m[v]) by {
        let row = rows[v]@;
        assert(preferred(row, labels, labels[v]));
        let k0 = choose|k: int| 0 <= k < row.len() && labels[row[k] as int] == labels[v];
        assert(row[k0] < n);
        assert(m[row[k0] as int] == m[v]);
        assert forall|x: int| 0 <= x < n implies tally(row, labels, labels[x]) == tally(row, m, m[x]) by {
            assert forall|j: int| 0 <= j < row.len() implies (labels[#[trigger] row[j] as int] == labels[x] <==> m[
                row[j] as int] == m[x]) by {
                assert(rows[v]@[j] < n);
            }
            lemma_tally_same(row, labels, m, labels[x], m[x], row.len() as int);
        }
        assert forall|k: int| 0 <= k < row.len() implies {
            let other = m[#[trigger] row[k] as int];
            tally(row, m, other) < tally(row, m, m[v]) || (tally(row, m, other) == tally(row, m, m[v]) && m[v]
                <= other)
        } by {
            assert(rows[v]@[k] < n);
            let u = row[k] as int;
            assert(tally(row, labels, labels[u]) == tally(row, m, m[u]));
            assert(tally(row, labels, labels[v]) == tally(row, m, m[v]));
        }
    }
}

/// Deterministic asynchronous label propagation over the undirected
/// projection. Every node starts with its own label; each sweep visits the
/// nodes in order and gives each node with neighbours the label most
/// frequent among them, the smallest on a tie, until a sweep changes
/// nothing or `max_iterations` sweeps are made. Communities are then
/// numbered by increasing label.
#[verifier::rlimit(100)]
#[verifier::spinoff_prover]
pub fn label_propagation_communities(graph: &Topology, max_iterations: usize) -> (r: Communities)
    ensures
        partition(graph@.node_count, r@.groups, r@.memberships),
        r@.nodes == Seq::new(graph@.node_count, |v: int| v),
        r@.iterations <= max_iterations,
        !r@.converged ==> r@.iterations == max_iterations,
        graph@.node_count == 0 ==> r@.converged,
        r@.converged ==> exists|rows: Seq<Vec<usize>>|
            projection_rows(graph@, rows) && fixed(rows, r@.memberships, graph@.node_count as int),
        exists|rows: Seq<Vec<usize>>|
            {
                let n = graph@.node_count;
                let it = r@.iterations;
                let last = swept(rows, n, it);
                &&& #[trigger] projection_rows(graph@, rows)
                &&& forall|i: int| 1 <= i < it ==> #[trigger] swept(rows, n, i as nat) != swept(rows, n, (i - 1) as nat)
                &&& r@.converged ==> n == 0 || (it >= 1 && last == swept(rows, n, (it - 1) as nat))
                &&& !r@.converged && it >= 1 ==> last != swept(rows, n, (it - 1) as nat)
                &&& forall|u: int, w: int|
                    0 <= u < n && 0 <= w < n ==> (#[trigger] last[u] == #[trigger] last[w] <==> r@.memberships[u]
                        == r@.memberships[w]) && (last[u] <= last[w] <==> r@.memberships[u] <= r@.memberships[w])
            },
{
    let n = graph.node_count();
    let rows = projection(graph);
    let ghost g = graph@;
    proof {
        assert forall|v: int, k: int| 0 <= v < n && 0 <= k < rows@[v]@.len() implies #[trigger] rows@[v]@[k] < n by {
            assert(lists_exactly(rows@[v]@, |u: int| 0 <= u < g.node_count && linked(g, v, u)));
        }
    }
    let mut labels: Vec<usize> = Vec::new();
    let mut v: usize = 0;
    while v < n
        invariant
            v <= n,
            labels@.len() == v,
            forall|w: int| 0 <= w < v ==> #[trigger] labels@[w] == w,
        decreases n - v,
    {
        labels.push(v);
        v += 1;
    }
    let mut converged = n == 0;
    let mut iterations: usize = 0;
    proof {
        assert(ints(labels@) =~= swept(rows@, n as nat, 0));
    }
    while iterations < max_iterations
        invariant_except_break
            converged == (n == 0),
            iterations >= 1 ==> swept(rows@, n as nat, iterations as nat) != swept(
                rows@,
                n as nat,
                (iterations - 1) as nat,
            ),
        invariant
            ints(labels@) == swept(rows@, n as nat, iterations as nat),
            forall|i: int|
                1 <= i < iterations ==> #[trigger] swept(rows@, n as nat, i as nat) != swept(
                    rows@,
                    n as nat,
                    (i - 1) as nat,
                ),
            n == g.node_count,
            rows@.len() == n,
            forall|v: int, k: int| 0 <= v < n && 0 <= k < rows@[v]@.len() ==> #[trigger] rows@[v]@[k] < n,
            labels@.len() == n,
            forall|w: int| 0 <= w < n ==> #[trigger] labels@[w] < n,
            iterations <= max_iterations,
        ensures
            iterations <= max_iterations,
            labels@.len() == n,
            forall|w: int| 0 <= w < n ==> #[trigger] labels@[w] < n,
            (converged && fixed(rows@, ints(labels@), n as int)) || (iterations == max_iterations && converged == (n
                == 0)),
            ints(labels@) == swept(rows@, n as nat, iterations as nat),
            forall|i: int|
                1 <= i < iterations ==> #[trigger] swept(rows@, n as nat, i as nat) != swept(
                    rows@,
                    n as nat,
                    (i - 1) as nat,
                ),
            converged ==> n == 0 || (iterations >= 1 && swept(rows@, n as nat, iterations as nat) == swept(
                rows@,
                n as nat,
                (iterations - 1) as nat,
            )),
            !converged && iterations >= 1 ==> swept(rows@, n as nat, iterations as nat) != swept(
                rows@,
                n as nat,
                (iterations - 1) as nat,
            ),
        decreases max_iterations - iterations,
    {
        let ghost start = ints(labels@);
        let ghost prior = iterations;
        iterations += 1;
        let mut changed = false;
        let mut v: usize = 0;
        proof {
            lemma_sweep_len(rows@, start, 0);
        }
        while v < n
            invariant
                start.len() == n,
                ints(labels@) == sweep(rows@, start, v as nat),
                changed == exists|w: int| 0 <= w < v && #[trigger] ints(labels@)[w] != start[w],
                v <= n,
                n == g.node_count,
                rows@.len() == n,
                forall|v: int, k: int| 0 <= v < n && 0 <= k < rows@[v]@.len() ==> #[trigger] rows@[v]@[k] < n,
                labels@.len() == n,
                forall|w: int| 0 <= w < n ==> #[trigger] labels@[w] < n,
                !changed ==> forall|w: int|
                    0 <= w < v && rows@[w]@.len() > 0 ==> preferred(#[trigger] rows@[w]@, ints(labels@), labels@[w] as int),
            decreases n - v,
        {
            let row = &rows[v];
            let ghost before = ints(labels@);
            let ghost was = changed;
            proof {
                lemma_sweep_ahead(rows@, start, v as nat, v as int);
            }
            if row.len() > 0 {
                let selected = select_label(row, &labels);
                proof {
                    let e = choose|k: int| 0 <= k < row@.len() && ints(labels@)[row@[k] as int] == selected as int;
                    assert(row@[e] < n);
                    let c = chosen(rows@[v as int]@, before);
                    assert(preferred(rows@[v as int]@, before, c));
                    lemma_preferred_unique(rows@[v as int]@, before, c, selected as int);
                }
                if selected != labels[v] {
                    labels.set(v, selected);
                    changed = true;
                }
                proof {
                    assert(ints(labels@) =~= before.update(v as int, selected as int));
                }
            } else {
                proof {
                    assert(sweep(rows@, start, (v + 1) as nat) == before);
                }
            }
            proof {
                assert(ints(labels@) == sweep(rows@, start, (v + 1) as nat));
                assert(before[v as int] == start[v as int]);
                assert(changed == exists|w: int| 0 <= w < v + 1 && #[trigger] ints(labels@)[w] != start[w]) by {
                    if changed && !was {
                        assert(ints(labels@)[v as int] != start[v as int]);
                    }
                    if was {
                        let w = choose|w: int| 0 <= w < v && #[trigger] before[w] != start[w];
                        assert(ints(labels@)[w] == before[w]);
                    }
                    if exists|w: int| 0 <= w < v + 1 && #[trigger] ints(labels@)[w] != start[w] {
                        let w = choose|w: int| 0 <= w < v + 1 && #[trigger] ints(labels@)[w] != start[w];
                        if w < v {
                            assert(ints(labels@)[w] == before[w]);
                        }
                    }
                }
            }
            v += 1;
        }
        proof {
            assert(ints(labels@) == swept(rows@, n as nat, iterations as nat));
            if changed {
                let w = choose|w: int| 0 <= w < n && #[trigger] ints(labels@)[w] != start[w];
                assert(swept(rows@, n as nat, iterations as nat) != swept(rows@, n as nat, prior as nat));
            } else {
                assert(ints(labels@) =~= start);
            }
        }
        if !changed {
            converged = true;
            break;
        }
    }
    let mut present: Vec<bool> = Vec::new();
    let mut l: usize = 0;
    while l < n
        invariant
            l <= n,
            present@.len() == l,
            forall|x: int| 0 <= x < l ==> !#[trigger] present@[x],
        decreases n - l,
    {
        present.push(false);
        l += 1;
    }
    let mut v: usize = 0;
    while v < n
        invariant
            v <= n,
            present@.len() == n,
            labels@.len() == n,
            forall|w: int| 0 <= w < n ==> #[trigger] labels@[w] < n,
            forall|x: int| 0 <= x < n ==> (#[trigger] present@[x] <==> exists|w: int| 0 <= w < v && labels@[w] == x),
        decreases n - v,
    {
        let ghost before = present@;
        present.set(labels[v], true);
        proof {
            assert forall|x: int| 0 <= x < n implies (#[trigger] present@[x] <==> exists|w: int|
                0 <= w < v + 1 && labels@[w] == x) by {
                if x != labels@[v as int] {
                    assert(present@[x] == before[x]);
                    if exists|w: int| 0 <= w < v + 1 && labels@[w] == x {
                        let w = choose|w: int| 0 <= w < v + 1 && labels@[w] == x;
                        assert(w < v);
                    }
                }
            }
        }
        v += 1;
    }
    let mut rank: Vec<usize> = Vec::new();
    let mut count: usize = 0;
    let mut l: usize = 0;
    while l < n
        invariant
            l <= n,
            present@.len() == n,
            rank@.len() == l,
            count <= l,
            forall|a: int, b: int|
                0 <= a < b < l ==> #[trigger] rank@[a] <= #[trigger] rank@[b] && (present@[a] ==> rank@[a] < rank@[b]),
            forall|a: int| 0 <= a < l ==> #[trigger] rank@[a] <= count && (present@[a] ==> rank@[a] < count),
            forall|c: int| 0 <= c < count ==> #[trigger] has_rank(present@, rank@, l as int, c),
        decreases n - l,
    {
        let ghost old_rank = rank@;
        let ghost old_count = count;
        rank.push(count);
        if present[l] {
            count += 1;
        }
        proof {
            assert forall|c: int| 0 <= c < count implies #[trigger] has_rank(present@, rank@, l + 1, c) by {
                if c < old_count {
                    assert(has_rank(present@, old_rank, l as int, c));
                    let a = choose|a: int| 0 <= a < l && present@[a] && #[trigger] old_rank[a] == c;
                    assert(rank@[a] == c);
                } else {
                    assert(rank@[l as int] == c);
                }
            }
        }
        l += 1;
    }
    let mut memberships: Vec<(NodeIndex, usize)> = Vec::new();
    let mut m: Vec<usize> = Vec::new();
    let mut v: usize = 0;
    while v < n
        invariant
            v <= n <= u32::MAX,
            labels@.len() == n,
            rank@.len() == n,
            forall|w: int| 0 <= w < n ==> #[trigger] labels@[w] < n,
            m@.len() == v,
            memberships@.len() == v,
            forall|w: int| 0 <= w < v ==> #[trigger] m@[w] == rank@[labels@[w] as int],
            forall|w: int| 0 <= w < v ==> #[trigger] memberships@[w] == (NodeIndex(w as u32), m@[w]),
        decreases n - v,
    {
        let c = rank[labels[v]];
        m.push(c);
        memberships.push((NodeIndex(v as u32), c));
        v += 1;
    }
    let mut groups: Vec<Vec<NodeIndex>> = Vec::new();
    let mut c: usize = 0;
    while c < count
        invariant
            c <= count,
            n <= u32::MAX,
            m@.len() == n,
            groups@.len() == c,
            forall|d: int| 0 <= d < c ==> lists_members(
                (#[trigger] groups@[d])@.map_values(|x: NodeIndex| x.0 as int),
                ints(m@),
                d,
            ),
        decreases count - c,
    {
        let mut members: Vec<NodeIndex> = Vec::new();
        let mut v: usize = 0;
        while v < n
            invariant
                v <= n <= u32::MAX,
                m@.len() == n,
                forall|i: int| 0 <= i < members@.len() ==> #[trigger] members@[i].0 < v,
                forall|i: int, j: int| 0 <= i < j < members@.len() ==> members@[i].0 < members@[j].0,
                forall|i: int| 0 <= i < members@.len() ==> m@[#[trigger] members@[i].0 as int] == c,
                forall|w: int| 0 <= w < v && m@[w] == c ==> exists|i: int| 0 <= i < members@.len() && #[trigger] members@[i].0 == w,
            decreases n - v,
        {
            if m[v] == c {
                let ghost before = members@;
                members.push(NodeIndex(v as u32));
                proof {
                    assert forall|w: int| 0 <= w < v + 1 && m@[w] == c implies exists|i: int|
                        0 <= i < members@.len() && #[trigger] members@[i].0 == w by {
                        if w < v {
                            let i = choose|i: int| 0 <= i < before.len() && #[trigger] before[i].0 == w;
                            assert(members@[i] == before[i]);
                        } else {
                            assert(members@[before.len() as int].0 == w);
                        }
                    }
                }
            }
            v += 1;
        }
        proof {
            let ms = members@.map_values(|x: NodeIndex| x.0 as int);
            assert forall|w: int| 0 <= w < ints(m@).len() && #[trigger] ints(m@)[w] == c implies ms.contains(w) by {
                assert(m@[w] == c);
                let i = choose|i: int| 0 <= i < members@.len() && #[trigger] members@[i].0 == w;
                assert(ms[i] == w);
            }
        }
        groups.push(members);
        c += 1;
    }
    let r = Communities { groups, memberships, iterations, converged };
    proof {
        let mi = ints(m@);
        assert(r@.memberships =~= mi);
        assert(r@.nodes =~= Seq::new(n as nat, |v: int| v));
        assert forall|u: int, w: int| 0 <= u < n && 0 <= w < n implies (#[trigger] ints(labels@)[u] == #[trigger] ints(
            labels@,
        )[w] <==> mi[u] == mi[w]) && (ints(labels@)[u] <= ints(labels@)[w] <==> mi[u] <= mi[w]) by {
            let a = labels@[u] as int;
            let b = labels@[w] as int;
            assert(present@[a]);
            assert(present@[b]);
            if a < b {
                assert(rank@[a] < rank@[b]);
            } else if b < a {
                assert(rank@[b] < rank@[a]);
            }
        }
        if converged && n > 0 {
            lemma_renumbered(rows@, ints(labels@), mi, n as int);
        }
        assert forall|v: int| 0 <= v < n implies 0 <= #[trigger] mi[v] < r@.groups.len() by {
            assert(present@[labels@[v] as int]);
        }
        assert forall|d: int| 0 <= d < r@.groups.len() implies #[trigger] r@.groups[d].len() > 0 by {
            assert(has_rank(present@, rank@, n as int, d));
            let a = choose|a: int| 0 <= a < n && present@[a] && #[trigger] rank@[a] == d;
            let w = choose|w: int| 0 <= w < n && labels@[w] == a;
            assert(mi[w] == d);
            assert(r@.groups[d] == groups@[d]@.map_values(|x: NodeIndex| x.0 as int));
            assert(lists_members(r@.groups[d], mi, d));
            assert(r@.groups[d].contains(w));
        }
        assert forall|d: int| 0 <= d < r@.groups.len() implies lists_members(#[trigger] r@.groups[d], mi, d) by {
            assert(r@.groups[d] == groups@[d]@.map_values(|x: NodeIndex| x.0 as int));
        }
    }
    r
}

} // verus!
