use crate::error::{GraphError, Result};
use crate::topology::{builds, lemma_pairs_push, pairs, EdgeEndpoints, NodeIndex, Topology};
use vstd::prelude::*;

verus! {

/// Edges `0 -> 1 -> ... -> n-1`.
pub open spec fn path_edges(n: nat) -> Seq<(int, int)> {
    Seq::new((if n == 0 { 0 } else { n - 1 }) as nat, |i: int| (i, i + 1))
}

/// One directed cycle through `0..n`; a single node gets a self-loop.
pub open spec fn cycle_edges(n: nat) -> Seq<(int, int)> {
    Seq::new(n, |i: int| (i, if i + 1 == n { 0 } else { i + 1 }))
}

/// Edges from node zero to every other node.
pub open spec fn star_edges(n: nat) -> Seq<(int, int)> {
    Seq::new((if n == 0 { 0 } else { n - 1 }) as nat, |i: int| (0, i + 1))
}

/// The edges from `s` to the targets below `t`, skipping `s` itself.
pub open spec fn complete_row(s: int, t: nat) -> Seq<(int, int)>
    decreases t,
{
    if t == 0 {
        Seq::empty()
    } else if t - 1 == s {
        complete_row(s, (t - 1) as nat)
    } else {
        complete_row(s, (t - 1) as nat).push((s, t - 1))
    }
}

/// All edges between distinct nodes whose source is below `s`, source-major.
pub open spec fn complete_prefix(n: nat, s: nat) -> Seq<(int, int)>
    decreases s,
{
    if s == 0 {
        Seq::empty()
    } else {
        complete_prefix(n, (s - 1) as nat) + complete_row(s - 1, n)
    }
}

/// Edges from each of the `left` nodes to each of the `right` nodes after them.
pub open spec fn bipartite_prefix(left: nat, right: nat, s: nat) -> Seq<(int, int)>
    decreases s,
{
    if s == 0 {
        Seq::empty()
    } else {
        bipartite_prefix(left, right, (s - 1) as nat) + Seq::new(
            right,
            |j: int| (s - 1, left + j),
        )
    }
}

/// The rightward and downward edges of grid cell `(row, col)`.
pub open spec fn grid_cell(rows: nat, cols: nat, row: int, col: int) -> Seq<(int, int)> {
    let source = row * cols + col;
    (if col + 1 < cols { seq![(source, source + 1)] } else { Seq::empty() }) + (if row + 1
        < rows {
        seq![(source, source + cols)]
    } else {
        Seq::empty()
    })
}

/// The grid edges of the first `col` cells of `row`.
pub open spec fn grid_cells(rows: nat, cols: nat, row: int, col: nat) -> Seq<(int, int)>
    decreases col,
{
    if col == 0 {
        Seq::empty()
    } else {
        grid_cells(rows, cols, row, (col - 1) as nat) + grid_cell(rows, cols, row, col - 1)
    }
}

/// The grid edges of the first `row` rows, row-major.
pub open spec fn grid_rows(rows: nat, cols: nat, row: nat) -> Seq<(int, int)>
    decreases row,
{
    if row == 0 {
        Seq::empty()
    } else {
        grid_rows(rows, cols, (row - 1) as nat) + grid_cells(rows, cols, row - 1, cols)
    }
}

/// `r` is a topology over `n` nodes with exactly `edges`, or, when `n`
/// exceeds compact capacity, the capacity error.
pub open spec fn generated(r: Result<Topology>, n: nat, edges: Seq<(int, int)>) -> bool {
    if n > u32::MAX {
        r == Err::<Topology, GraphError>(
            GraphError::IndexCapacityExceeded { category: "nodes", count: n as usize },
        )
    } else {
        r matches Ok(t) && t@.node_count == n && t@.edges == edges
    }
}

fn compact(index: usize) -> (r: NodeIndex)
    requires
        index <= u32::MAX,
    ensures
        r.0 == index,
{
    NodeIndex::new(index as u32)
}

/// Builds a topology from generated edges whose endpoints are all below `n`.
fn finish(node_count: usize, edges: Vec<EdgeEndpoints<NodeIndex>>, Ghost(expected): Ghost<
    Seq<(int, int)>,
>) -> (r: Result<Topology>)
    requires
        node_count <= u32::MAX,
        edges@.len() <= u32::MAX,
        pairs(edges@) == expected,
        forall|i: int|
            0 <= i < expected.len() ==> 0 <= #[trigger] expected[i].0 < node_count && 0
                <= expected[i].1 < node_count,
    ensures
        generated(r, node_count as nat, expected),
{
    let r = Topology::try_from_edges(node_count, edges);
    proof {
        assert(builds(node_count, edges@, r));
        if r is Err {
            let e = r->Err_0;
            let f = choose|f: int|
                0 <= f < expected.len() && crate::topology::csr::invalid_at(
                    expected,
                    node_count as int,
                    f,
                ) && (forall|g: int|
                    0 <= g < f ==> !crate::topology::csr::invalid_at(expected, node_count as int, g))
                    && e == crate::topology::csr::endpoint_error(expected, node_count as int, f);
            assert(0 <= expected[f].0 < node_count);
        }
    }
    r
}

fn capacity_nodes(node_count: usize) -> (r: Result<Topology>)
    requires
        node_count > u32::MAX,
    ensures
        generated(r, node_count as nat, Seq::empty()),
{
    Err(GraphError::IndexCapacityExceeded { category: "nodes", count: node_count })
}

/// Generates `0 -> 1 -> ... -> n-1`.
///
/// # Errors
///
/// Returns an error if the requested topology exceeds compact capacity.
pub fn path_topology(node_count: usize) -> (r: Result<Topology>)
    ensures
        generated(r, node_count as nat, path_edges(node_count as nat)),
{
    if node_count > u32::MAX as usize {
        return capacity_nodes(node_count);
    }
    let mut edges: Vec<EdgeEndpoints<NodeIndex>> = Vec::new();
    let mut target: usize = 1;
    while target < node_count
        invariant
            1 <= target,
            node_count <= u32::MAX,
            target <= node_count || target == 1,
            pairs(edges@) == path_edges(target as nat),
        decreases node_count - target,
    {
        let ghost before_push = edges@;
        edges.push(EdgeEndpoints::new(compact(target - 1), compact(target)));
        proof {
            lemma_pairs_push(before_push, edges@.last());
        }
        target = target + 1;
        proof {
            assert(pairs(edges@) =~= path_edges(target as nat));
        }
    }
    proof {
        if node_count == 0 {
            assert(path_edges(1).len() == 0);
            assert(path_edges(0).len() == 0);
            assert(pairs(edges@).len() == 0);
            assert(pairs(edges@) =~= path_edges(0));
        }
    }
    finish(node_count, edges, Ghost(path_edges(node_count as nat)))
}

/// Generates one directed cycle, including a self-loop for one node.
///
/// # Errors
///
/// Returns an error if the requested topology exceeds compact capacity.
pub fn cycle_topology(node_count: usize) -> (r: Result<Topology>)
    ensures
        generated(r, node_count as nat, cycle_edges(node_count as nat)),
{
    if node_count > u32::MAX as usize {
        return capacity_nodes(node_count);
    }
    let mut edges: Vec<EdgeEndpoints<NodeIndex>> = Vec::new();
    let mut source: usize = 0;
    while source < node_count
        invariant
            source <= node_count <= u32::MAX,
            pairs(edges@) == cycle_edges(node_count as nat).take(source as int),
        decreases node_count - source,
    {
        let next = if source + 1 == node_count {
            0
        } else {
            source + 1
        };
        let ghost before_push = edges@;
        edges.push(EdgeEndpoints::new(compact(source), compact(next)));
        proof {
            lemma_pairs_push(before_push, edges@.last());
        }
        source = source + 1;
        proof {
            assert(pairs(edges@) =~= cycle_edges(node_count as nat).take(source as int));
        }
    }
    proof {
        assert(cycle_edges(node_count as nat).take(node_count as int) =~= cycle_edges(
            node_count as nat,
        ));
    }
    finish(node_count, edges, Ghost(cycle_edges(node_count as nat)))
}

/// Generates a directed star with node zero as its center.
///
/// # Errors
///
/// Returns an error if the requested topology exceeds compact capacity.
pub fn star_topology(node_count: usize) -> (r: Result<Topology>)
    ensures
        generated(r, node_count as nat, star_edges(node_count as nat)),
{
    if node_count > u32::MAX as usize {
        return capacity_nodes(node_count);
    }
    let mut edges: Vec<EdgeEndpoints<NodeIndex>> = Vec::new();
    let mut target: usize = 1;
    while target < node_count
        invariant
            1 <= target,
            node_count <= u32::MAX,
            target <= node_count || target == 1,
            pairs(edges@) == star_edges(target as nat),
        decreases node_count - target,
    {
        let ghost before_push = edges@;
        edges.push(EdgeEndpoints::new(compact(0), compact(target)));
        proof {
            lemma_pairs_push(before_push, edges@.last());
        }
        target = target + 1;
        proof {
            assert(pairs(edges@) =~= star_edges(target as nat));
        }
    }
    proof {
        if node_count == 0 {
            assert(star_edges(1).len() == 0);
            assert(star_edges(0).len() == 0);
            assert(pairs(edges@).len() == 0);
            assert(pairs(edges@) =~= star_edges(0));
        }
    }
    finish(node_count, edges, Ghost(star_edges(node_count as nat)))
}

proof fn lemma_complete_row_len(s: int, t: nat)
    ensures
        complete_row(s, t).len() == if 0 <= s < t { t - 1 } else { t as int },
        forall|i: int|
            0 <= i < complete_row(s, t).len() ==> #[trigger] complete_row(s, t)[i].0 == s && 0
                <= complete_row(s, t)[i].1 < t,
    decreases t,
{
    if t > 0 {
        lemma_complete_row_len(s, (t - 1) as nat);
    }
}

proof fn lemma_complete_prefix(n: nat, s: nat)
    requires
        s <= n,
    ensures
        complete_prefix(n, s).len() == s * (if n == 0 { 0 } else { n - 1 }),
        forall|i: int|
            0 <= i < complete_prefix(n, s).len() ==> 0 <= #[trigger] complete_prefix(n, s)[i].0 < s
                && 0 <= complete_prefix(n, s)[i].1 < n,
    decreases s,
{
    if s > 0 {
        lemma_complete_prefix(n, (s - 1) as nat);
        lemma_complete_row_len(s - 1, n);
        let prev = complete_prefix(n, (s - 1) as nat);
        let row = complete_row(s - 1, n);
        assert forall|i: int|
            0 <= i < complete_prefix(n, s).len() implies 0 <= #[trigger] complete_prefix(n, s)[i].0
            < s && 0 <= complete_prefix(n, s)[i].1 < n by {
            if i >= prev.len() {
                assert(complete_prefix(n, s)[i] == row[i - prev.len()]);
            } else {
                assert(complete_prefix(n, s)[i] == prev[i]);
            }
        }
        assert((s - 1) * (if n == 0 { 0 } else { n - 1 }) + (if n == 0 { 0 } else { n - 1 }) == s
            * (if n == 0 { 0 } else { n - 1 })) by (nonlinear_arith);
    }
}

/// Generates all directed edges between distinct nodes.
///
/// # Errors
///
/// Returns an error if the requested topology exceeds compact capacity.
pub fn complete_topology(node_count: usize) -> (r: Result<Topology>)
    ensures
        match r {
            Ok(t) => t@.node_count == node_count && t@.edges == complete_prefix(
                node_count as nat,
                node_count as nat,
            ),
            Err(e) => {
                ||| node_count * (if node_count == 0 { 0 } else { node_count - 1 }) > usize::MAX
                    && e == (GraphError::IndexCapacityExceeded {
                    category: "generated edges",
                    count: usize::MAX,
                })
                ||| node_count * (if node_count == 0 { 0 } else { node_count - 1 }) <= usize::MAX
                    && node_count * (if node_count == 0 { 0 } else { node_count - 1 }) > u32::MAX
                    && e == (GraphError::IndexCapacityExceeded {
                    category: "generated edges",
                    count: (node_count * (if node_count == 0 { 0 } else { node_count - 1 })) as usize,
                })
            },
        },
{
    let less = if node_count == 0 {
        0
    } else {
        node_count - 1
    };
    let edge_count = match node_count.checked_mul(less) {
        Some(count) => count,
        None => {
            return Err(
                GraphError::IndexCapacityExceeded { category: "generated edges", count: usize::MAX },
            )
        },
    };
    if edge_count > u32::MAX as usize {
        return Err(GraphError::IndexCapacityExceeded { category: "generated edges", count: edge_count });
    }
    proof {
        if node_count > u32::MAX {
            assert(node_count * less > u32::MAX) by (nonlinear_arith)
                requires
                    node_count > u32::MAX,
                    less == node_count - 1,
            ;
        }
    }
    let mut edges: Vec<EdgeEndpoints<NodeIndex>> = Vec::new();
    let mut source: usize = 0;
    while source < node_count
        invariant
            source <= node_count <= u32::MAX,
            less == (if node_count == 0 { 0 } else { node_count - 1 }),
            pairs(edges@) == complete_prefix(node_count as nat, source as nat),
        decreases node_count - source,
    {
        let mut target: usize = 0;
        while target < node_count
            invariant
                target <= node_count <= u32::MAX,
                source < node_count,
                pairs(edges@) == complete_prefix(node_count as nat, source as nat) + complete_row(
                    source as int,
                    target as nat,
                ),
            decreases node_count - target,
        {
            if target != source {
                let ghost before_push = edges@;
                edges.push(EdgeEndpoints::new(compact(source), compact(target)));
                proof {
                    lemma_pairs_push(before_push, edges@.last());
                }
            }
            target = target + 1;
            proof {
                assert(pairs(edges@) =~= complete_prefix(node_count as nat, source as nat)
                    + complete_row(source as int, target as nat));
            }
        }
        source = source + 1;
    }
    proof {
        lemma_complete_prefix(node_count as nat, node_count as nat);
    }
    let r = finish(node_count, edges, Ghost(complete_prefix(node_count as nat, node_count as nat)));
    r
}

proof fn lemma_bipartite_prefix(left: nat, right: nat, s: nat)
    ensures
        bipartite_prefix(left, right, s).len() == s * right,
        forall|i: int|
            0 <= i < bipartite_prefix(left, right, s).len() ==> 0 <= #[trigger] bipartite_prefix(
                left,
                right,
                s,
            )[i].0 < s && left <= bipartite_prefix(left, right, s)[i].1 < left + right,
    decreases s,
{
    if s > 0 {
        lemma_bipartite_prefix(left, right, (s - 1) as nat);
        let prev = bipartite_prefix(left, right, (s - 1) as nat);
        let cur = bipartite_prefix(left, right, s);
        assert forall|i: int| 0 <= i < cur.len() implies 0 <= #[trigger] cur[i].0 < s && left
            <= cur[i].1 < left + right by {
            if i < prev.len() {
                assert(cur[i] == prev[i]);
            }
        }
        let sm = (s - 1) as nat;
        assert(sm * right + right == s * right) by (nonlinear_arith)
            requires
                sm == s - 1,
        ;
        assert(cur.len() == prev.len() + right);
    } else {
        assert(s * right == 0) by (nonlinear_arith)
            requires
                s == 0,
        ;
    }
}

/// Generates all directed edges from the left partition to the right.
///
/// # Errors
///
/// Returns an error if dimensions or compact capacity overflow.
pub fn complete_bipartite_topology(left: usize, right: usize) -> (r: Result<Topology>)
    ensures
        match r {
            Ok(t) => t@.node_count == left + right && t@.edges == bipartite_prefix(
                left as nat,
                right as nat,
                left as nat,
            ),
            Err(e) => {
                ||| left + right > usize::MAX && e == (GraphError::ArithmeticOverflow {
                    operation: "bipartite node count",
                })
                ||| left + right <= usize::MAX && left * right > usize::MAX && e == (
                GraphError::ArithmeticOverflow { operation: "bipartite edge count" })
                ||| left + right <= usize::MAX && left * right <= usize::MAX && left * right
                    > u32::MAX && e == (GraphError::IndexCapacityExceeded {
                    category: "generated edges",
                    count: (left * right) as usize,
                })
                ||| left + right <= usize::MAX && left * right <= u32::MAX && left + right
                    > u32::MAX && e == (GraphError::IndexCapacityExceeded {
                    category: "nodes",
                    count: (left + right) as usize,
                })
            },
        },
{
    let node_count = match left.checked_add(right) {
        Some(count) => count,
        None => return Err(GraphError::ArithmeticOverflow { operation: "bipartite node count" }),
    };
    let edge_count = match left.checked_mul(right) {
        Some(count) => count,
        None => return Err(GraphError::ArithmeticOverflow { operation: "bipartite edge count" }),
    };
    if edge_count > u32::MAX as usize {
        return Err(GraphError::IndexCapacityExceeded { category: "generated edges", count: edge_count });
    }
    if node_count > u32::MAX as usize {
        return Err(GraphError::IndexCapacityExceeded { category: "nodes", count: node_count });
    }
    let mut edges: Vec<EdgeEndpoints<NodeIndex>> = Vec::new();
    let mut source: usize = 0;
    while source < left
        invariant
            source <= left,
            node_count == left + right <= u32::MAX,
            pairs(edges@) == bipartite_prefix(left as nat, right as nat, source as nat),
        decreases left - source,
    {
        let mut target: usize = left;
        while target < node_count
            invariant
                left <= target <= node_count,
                source < left,
                node_count == left + right <= u32::MAX,
                pairs(edges@) == bipartite_prefix(left as nat, right as nat, source as nat) + Seq::new(
                    (target - left) as nat,
                    |j: int| (source as int, left + j),
                ),
            decreases node_count - target,
        {
            let ghost before_push = edges@;
            edges.push(EdgeEndpoints::new(compact(source), compact(target)));
            proof {
                lemma_pairs_push(before_push, edges@.last());
            }
            target = target + 1;
            proof {
                assert(pairs(edges@) =~= bipartite_prefix(left as nat, right as nat, source as nat)
                    + Seq::new((target - left) as nat, |j: int| (source as int, left + j)));
            }
        }
        source = source + 1;
        proof {
            assert(pairs(edges@) =~= bipartite_prefix(left as nat, right as nat, source as nat));
        }
    }
    proof {
        lemma_bipartite_prefix(left as nat, right as nat, left as nat);
    }
    finish(node_count, edges, Ghost(bipartite_prefix(left as nat, right as nat, left as nat)))
}

proof fn lemma_grid_cells(rows: nat, cols: nat, row: int, col: nat)
    requires
        0 <= row < rows,
        col <= cols,
    ensures
        forall|i: int|
            0 <= i < grid_cells(rows, cols, row, col).len() ==> 0 <= #[trigger] grid_cells(
                rows,
                cols,
                row,
                col,
            )[i].0 < rows * cols && 0 <= grid_cells(rows, cols, row, col)[i].1 < rows * cols,
        grid_cells(rows, cols, row, col).len() == (if col == cols && cols > 0 {
            col - 1
        } else {
            col as int
        }) + (if row + 1 < rows {
            col as int
        } else {
            0
        }),
    decreases col,
{
    if col > 0 {
        lemma_grid_cells(rows, cols, row, (col - 1) as nat);
        let prev = grid_cells(rows, cols, row, (col - 1) as nat);
        let cell = grid_cell(rows, cols, row, col - 1);
        let source = row * cols + col - 1;
        assert(0 <= source < rows * cols && (row + 1 < rows ==> source + cols < rows * cols) && (
        col < cols ==> source + 1 < rows * cols)) by (nonlinear_arith)
            requires
                0 <= row < rows,
                0 < col <= cols,
                source == row * cols + col - 1,
        ;
        assert forall|i: int|
            0 <= i < grid_cells(rows, cols, row, col).len() implies 0 <= #[trigger] grid_cells(
            rows,
            cols,
            row,
            col,
        )[i].0 < rows * cols && 0 <= grid_cells(rows, cols, row, col)[i].1 < rows * cols by {
            if i < prev.len() {
                assert(grid_cells(rows, cols, row, col)[i] == prev[i]);
            } else {
                assert(grid_cells(rows, cols, row, col)[i] == cell[i - prev.len()]);
            }
        }
    }
}

proof fn lemma_grid_rows(rows: nat, cols: nat, row: nat)
    requires
        row <= rows,
    ensures
        forall|i: int|
            0 <= i < grid_rows(rows, cols, row).len() ==> 0 <= #[trigger] grid_rows(rows, cols, row)[i].0
                < rows * cols && 0 <= grid_rows(rows, cols, row)[i].1 < rows * cols,
        grid_rows(rows, cols, row).len() == row * (if cols > 0 { cols - 1 } else { 0 }) + (if row
            == rows && rows > 0 {
            row - 1
        } else {
            row as int
        }) * cols,
    decreases row,
{
    if row > 0 {
        lemma_grid_rows(rows, cols, (row - 1) as nat);
        lemma_grid_cells(rows, cols, row - 1, cols);
        let prev = grid_rows(rows, cols, (row - 1) as nat);
        let cells = grid_cells(rows, cols, row - 1, cols);
        assert forall|i: int|
            0 <= i < grid_rows(rows, cols, row).len() implies 0 <= #[trigger] grid_rows(
            rows,
            cols,
            row,
        )[i].0 < rows * cols && 0 <= grid_rows(rows, cols, row)[i].1 < rows * cols by {
            if i < prev.len() {
                assert(grid_rows(rows, cols, row)[i] == prev[i]);
            } else {
                assert(grid_rows(rows, cols, row)[i] == cells[i - prev.len()]);
            }
        }
        let c1: int = if cols > 0 { cols - 1 } else { 0 };
        assert((row - 1) * c1 + c1 == row * c1) by (nonlinear_arith);
        assert((row - 1) * cols + cols == row * cols) by (nonlinear_arith);
        assert((row - 2) * cols + cols == (row - 1) * cols) by (nonlinear_arith);
    }
}

/// The node of grid cell `(row, col)` in a grid with `cols` columns,
/// numbered row by row.
pub open spec fn grid_at(cols: int, row: int, col: int) -> int {
    row * cols + col
}

/// The edge from cell `(row, col)` to its right neighbour `(row, col + 1)`.
pub open spec fn right_link(cols: int, row: int, col: int) -> (int, int) {
    (grid_at(cols, row, col), grid_at(cols, row, col + 1))
}

/// The edge from cell `(row, col)` to the cell below it, `(row + 1, col)`.
pub open spec fn down_link(cols: int, row: int, col: int) -> (int, int) {
    (grid_at(cols, row, col), grid_at(cols, row + 1, col))
}

/// `(u, v)` joins a cell of a `rows` by `cols` grid to its right neighbour
/// or to the cell below it.
pub open spec fn grid_link(rows: int, cols: int, u: int, v: int) -> bool {
    exists|r: int, c: int|
        0 <= r < rows && 0 <= c < cols && #[trigger] grid_at(cols, r, c) == u && ((c + 1 < cols && v == u + 1) || (
        r + 1 < rows && v == u + cols))
}

/// Pair `a` comes strictly before pair `b`, source first.
pub open spec fn pair_before(a: (int, int), b: (int, int)) -> bool {
    a.0 < b.0 || (a.0 == b.0 && a.1 < b.1)
}

/// `edges` are the edges of a `rows` by `cols` grid: each runs rightward to
/// the next cell of its row or downward to the cell below, every such edge
/// is there, and they come once each, by source and then by target.
pub open spec fn grid_shaped(rows: int, cols: int, edges: Seq<(int, int)>) -> bool {
    &&& forall|i: int| 0 <= i < edges.len() ==> grid_link(rows, cols, (#[trigger] edges[i]).0, edges[i].1)
    &&& forall|r: int, c: int|
        0 <= r < rows && 0 <= c < cols && c + 1 < cols ==> edges.contains(#[trigger] right_link(cols, r, c))
    &&& forall|r: int, c: int|
        0 <= r < rows && 0 <= c < cols && r + 1 < rows ==> edges.contains(#[trigger] down_link(cols, r, c))
    &&& forall|i: int, j: int| 0 <= i < j < edges.len() ==> pair_before(#[trigger] edges[i], #[trigger] edges[j])
}

/// What two joined lists hold.
proof fn lemma_concat_contains<A>(a: Seq<A>, b: Seq<A>, x: A)
    ensures
        (a + b).contains(x) <==> (a.contains(x) || b.contains(x)),
{
    if (a + b).contains(x) {
        let i = choose|i: int| 0 <= i < (a + b).len() && (a + b)[i] == x;
        if i < a.len() {
            assert(a[i] == x);
        } else {
            assert(b[i - a.len()] == x);
        }
    }
    if a.contains(x) {
        let i = choose|i: int| 0 <= i < a.len() && a[i] == x;
        assert((a + b)[i] == x);
    }
    if b.contains(x) {
        let i = choose|i: int| 0 <= i < b.len() && b[i] == x;
        assert((a + b)[a.len() + i] == x);
    }
}

/// The first `col` cells of grid row `row` give grid edges out of that row,
/// every rightward and downward edge of those cells, in order.
proof fn lemma_grid_cells_shape(rows: nat, cols: nat, row: int, col: nat)
    requires
        0 <= row < rows,
        col <= cols,
    ensures
        forall|i: int|
            0 <= i < grid_cells(rows, cols, row, col).len() ==> grid_link(
                rows as int,
                cols as int,
                (#[trigger] grid_cells(rows, cols, row, col)[i]).0,
                grid_cells(rows, cols, row, col)[i].1,
            ) && grid_at(cols as int, row, 0) <= grid_cells(rows, cols, row, col)[i].0 < grid_at(
                cols as int,
                row,
                col as int,
            ),
        forall|c: int|
            0 <= c < col && c + 1 < cols ==> grid_cells(rows, cols, row, col).contains(
                #[trigger] right_link(cols as int, row, c),
            ),
        forall|c: int|
            0 <= c < col && row + 1 < rows ==> grid_cells(rows, cols, row, col).contains(
                #[trigger] down_link(cols as int, row, c),
            ),
        forall|i: int, j: int|
            0 <= i < j < grid_cells(rows, cols, row, col).len() ==> pair_before(
                #[trigger] grid_cells(rows, cols, row, col)[i],
                #[trigger] grid_cells(rows, cols, row, col)[j],
            ),
    decreases col,
{
    if col > 0 {
        let c0 = col - 1;
        lemma_grid_cells_shape(rows, cols, row, (col - 1) as nat);
        let prev = grid_cells(rows, cols, row, (col - 1) as nat);
        let cell = grid_cell(rows, cols, row, c0);
        let all = grid_cells(rows, cols, row, col);
        assert(all == prev + cell);
        let u = grid_at(cols as int, row, c0);
        assert(u == row * cols + c0);
        assert(grid_at(cols as int, row + 1, c0) == u + cols) by (nonlinear_arith)
            requires
                u == row * cols + c0,
        ;
        assert(grid_at(cols as int, row, c0 + 1) == u + 1);
        assert(grid_at(cols as int, row, col as int) == u + 1);
        assert(grid_at(cols as int, row, 0) <= u) by (nonlinear_arith)
            requires
                u == row * cols + c0,
                c0 >= 0,
        ;
        assert forall|i: int| 0 <= i < cell.len() implies grid_link(rows as int, cols as int, (#[trigger] cell[i]).0, cell[i].1)
            && cell[i].0 == u by {
            assert(grid_at(cols as int, row, c0) == u);
        }
        assert forall|i: int| 0 <= i < all.len() implies grid_link(
            rows as int,
            cols as int,
            (#[trigger] all[i]).0,
            all[i].1,
        ) && grid_at(cols as int, row, 0) <= all[i].0 < grid_at(cols as int, row, col as int) by {
            if i < prev.len() {
                assert(all[i] == prev[i]);
            } else {
                assert(all[i] == cell[i - prev.len()]);
            }
        }
        assert forall|c: int| 0 <= c < col && c + 1 < cols implies all.contains(#[trigger] right_link(cols as int, row, c)) by {
            lemma_concat_contains(prev, cell, right_link(cols as int, row, c));
            if c == c0 {
                assert(cell[0] == right_link(cols as int, row, c));
            }
        }
        assert forall|c: int| 0 <= c < col && row + 1 < rows implies all.contains(#[trigger] down_link(cols as int, row, c)) by {
            lemma_concat_contains(prev, cell, down_link(cols as int, row, c));
            if c == c0 {
                assert(cell[cell.len() - 1] == down_link(cols as int, row, c));
            }
        }
        assert forall|i: int, j: int| 0 <= i < j < all.len() implies pair_before(#[trigger] all[i], #[trigger] all[j]) by {
            if j < prev.len() {
                assert(all[i] == prev[i] && all[j] == prev[j]);
            } else if i < prev.len() {
                assert(all[i] == prev[i] && all[j] == cell[j - prev.len()]);
            } else {
                assert(all[i] == cell[i - prev.len()] && all[j] == cell[j - prev.len()]);
                assert(cell.len() == 2);
                assert(c0 + 1 < cols);
            }
        }
    }
}

/// The first `row` rows of a grid give grid edges out of those rows, every
/// rightward and downward edge of their cells, in order.
proof fn lemma_grid_rows_shape(rows: nat, cols: nat, row: nat)
    requires
        row <= rows,
    ensures
        forall|i: int|
            0 <= i < grid_rows(rows, cols, row).len() ==> grid_link(
                rows as int,
                cols as int,
                (#[trigger] grid_rows(rows, cols, row)[i]).0,
                grid_rows(rows, cols, row)[i].1,
            ) && grid_rows(rows, cols, row)[i].0 < grid_at(cols as int, row as int, 0),
        forall|r: int, c: int|
            0 <= r < row && 0 <= c < cols && c + 1 < cols ==> grid_rows(rows, cols, row).contains(
                #[trigger] right_link(cols as int, r, c),
            ),
        forall|r: int, c: int|
            0 <= r < row && 0 <= c < cols && r + 1 < rows ==> grid_rows(rows, cols, row).contains(
                #[trigger] down_link(cols as int, r, c),
            ),
        forall|i: int, j: int|
            0 <= i < j < grid_rows(rows, cols, row).len() ==> pair_before(
                #[trigger] grid_rows(rows, cols, row)[i],
                #[trigger] grid_rows(rows, cols, row)[j],
            ),
    decreases row,
{
    if row > 0 {
        let r0 = row - 1;
        lemma_grid_rows_shape(rows, cols, (row - 1) as nat);
        lemma_grid_cells_shape(rows, cols, r0, cols);
        let prev = grid_rows(rows, cols, (row - 1) as nat);
        let cells = grid_cells(rows, cols, r0, cols);
        let all = grid_rows(rows, cols, row);
        assert(all == prev + cells);
        assert(grid_at(cols as int, r0, cols as int) == grid_at(cols as int, row as int, 0)) by (nonlinear_arith)
            requires
                r0 == row - 1,
        ;
        assert forall|i: int| 0 <= i < all.len() implies grid_link(
            rows as int,
            cols as int,
            (#[trigger] all[i]).0,
            all[i].1,
        ) && all[i].0 < grid_at(cols as int, row as int, 0) by {
            if i < prev.len() {
                assert(all[i] == prev[i]);
                assert(grid_at(cols as int, r0, 0) <= grid_at(cols as int, row as int, 0)) by (nonlinear_arith)
                    requires
                        r0 == row - 1,
                ;
            } else {
                assert(all[i] == cells[i - prev.len()]);
            }
        }
        assert forall|r: int, c: int| 0 <= r < row && 0 <= c < cols && c + 1 < cols implies all.contains(
            #[trigger] right_link(cols as int, r, c),
        ) by {
            lemma_concat_contains(prev, cells, right_link(cols as int, r, c));
        }
        assert forall|r: int, c: int| 0 <= r < row && 0 <= c < cols && r + 1 < rows implies all.contains(
            #[trigger] down_link(cols as int, r, c),
        ) by {
            lemma_concat_contains(prev, cells, down_link(cols as int, r, c));
        }
        assert forall|i: int, j: int| 0 <= i < j < all.len() implies pair_before(#[trigger] all[i], #[trigger] all[j]) by {
            if j < prev.len() {
                assert(all[i] == prev[i] && all[j] == prev[j]);
            } else if i < prev.len() {
                assert(all[i] == prev[i] && all[j] == cells[j - prev.len()]);
                assert(grid_at(cols as int, r0, 0) == grid_at(cols as int, row as int - 1, 0));
            } else {
                assert(all[i] == cells[i - prev.len()] && all[j] == cells[j - prev.len()]);
            }
        }
    }
}

/// A generated grid holds exactly its rightward and downward edges: every
/// edge runs from a cell to the next cell of its row or to the cell below
/// it, each such edge is present, and the edges come once each in order of
/// source and then target.
pub proof fn grid_edges_run_right_and_down(rows: nat, cols: nat)
    ensures
        grid_shaped(rows as int, cols as int, grid_rows(rows, cols, rows)),
{
    lemma_grid_rows_shape(rows, cols, rows);
}

/// `x`, or `usize::MAX` when it does not fit.
pub open spec fn saturated(x: int) -> int {
    if x > usize::MAX {
        usize::MAX as int
    } else {
        x
    }
}

/// How many edges a grid has: its rightward and its downward edges, each
/// count saturated at `usize::MAX`.
pub open spec fn grid_edge_total(rows: int, columns: int) -> int {
    saturated(rows * (if columns > 0 { columns - 1 } else { 0 })) + saturated(columns * (if rows > 0 {
        rows - 1
    } else {
        0
    }))
}

/// A grid is refused when its node count does not fit `usize`, or its edge
/// count or node count does not fit `u32`.
pub open spec fn grid_fails(rows: int, columns: int) -> bool {
    rows * columns > usize::MAX || grid_edge_total(rows, columns) > u32::MAX || rows * columns > u32::MAX
}

/// The error a refused grid gives: overflowing dimensions first, then too
/// many edges, then too many nodes.
pub open spec fn grid_error(rows: int, columns: int) -> GraphError {
    if rows * columns > usize::MAX {
        GraphError::ArithmeticOverflow { operation: "grid dimensions" }
    } else if grid_edge_total(rows, columns) > u32::MAX {
        GraphError::IndexCapacityExceeded {
            category: "generated edges",
            count: saturated(grid_edge_total(rows, columns)) as usize,
        }
    } else {
        GraphError::IndexCapacityExceeded { category: "nodes", count: (rows * columns) as usize }
    }
}

/// Generates a directed rectangular grid with rightward and downward edges.
///
/// # Errors
///
/// Returns an error if dimensions or compact capacity overflow.
pub fn grid_topology(rows: usize, columns: usize) -> (r: Result<Topology>)
    ensures
        match r {
            Ok(t) => t@.node_count == rows * columns && t@.edges == grid_rows(
                rows as nat,
                columns as nat,
                rows as nat,
            ),
            Err(e) => e == grid_error(rows as int, columns as int),
        },
        r is Err <==> grid_fails(rows as int, columns as int),
        r matches Ok(t) ==> grid_shaped(rows as int, columns as int, t@.edges),
{
    proof {
        grid_edges_run_right_and_down(rows as nat, columns as nat);
    }
    let node_count = match rows.checked_mul(columns) {
        Some(count) => count,
        None => return Err(GraphError::ArithmeticOverflow { operation: "grid dimensions" }),
    };
    let columns_less = if columns == 0 {
        0
    } else {
        columns - 1
    };
    let rows_less = if rows == 0 {
        0
    } else {
        rows - 1
    };
    let horizontal = saturating_product(rows, columns_less);
    let vertical = saturating_product(columns, rows_less);
    let total = match horizontal.checked_add(vertical) {
        Some(total) => total,
        None => {
            return Err(
                GraphError::IndexCapacityExceeded { category: "generated edges", count: usize::MAX },
            )
        },
    };
    if total > u32::MAX as usize {
        return Err(GraphError::IndexCapacityExceeded { category: "generated edges", count: total });
    }
    if node_count > u32::MAX as usize {
        return Err(GraphError::IndexCapacityExceeded { category: "nodes", count: node_count });
    }
    let mut edges: Vec<EdgeEndpoints<NodeIndex>> = Vec::new();
    let mut row: usize = 0;
    let mut source: usize = 0;
    while row < rows
        invariant
            row <= rows,
            node_count == rows * columns <= u32::MAX,
            source == row * columns,
            pairs(edges@) == grid_rows(rows as nat, columns as nat, row as nat),
        decreases rows - row,
    {
        let mut column: usize = 0;
        while column < columns
            invariant
                row < rows,
                column <= columns,
                node_count == rows * columns <= u32::MAX,
                source == row * columns + column,
                pairs(edges@) == grid_rows(rows as nat, columns as nat, row as nat) + grid_cells(
                    rows as nat,
                    columns as nat,
                    row as int,
                    column as nat,
                ),
            decreases columns - column,
        {
            proof {
                assert(source < rows * columns && (row + 1 < rows ==> source + columns < rows
                    * columns)) by (nonlinear_arith)
                    requires
                        row < rows,
                        column < columns,
                        source == row * columns + column,
                ;
            }
            let ghost before = pairs(edges@);
            if column + 1 < columns {
                let ghost before_push = edges@;
                edges.push(EdgeEndpoints::new(compact(source), compact(source + 1)));
                proof {
                    lemma_pairs_push(before_push, edges@.last());
                }
            }
            if row + 1 < rows {
                let ghost before_push = edges@;
                edges.push(EdgeEndpoints::new(compact(source), compact(source + columns)));
                proof {
                    lemma_pairs_push(before_push, edges@.last());
                }
            }
            proof {
                assert(pairs(edges@) =~= before + grid_cell(
                    rows as nat,
                    columns as nat,
                    row as int,
                    column as int,
                ));
            }
            column = column + 1;
            source = source + 1;
        }
        proof {
            assert(row * columns + columns == (row + 1) * columns) by (nonlinear_arith);
        }
        row = row + 1;
    }
    proof {
        lemma_grid_rows(rows as nat, columns as nat, rows as nat);
        assert(rows * columns_less <= rows * columns && columns * rows_less <= rows * columns) by (nonlinear_arith)
            requires
                columns_less <= columns,
                rows_less <= rows,
        ;
        assert(rows * columns_less == horizontal);
        assert(columns * rows_less == vertical);
        assert(rows_less * columns == columns * rows_less) by (nonlinear_arith);
    }
    let r = finish(node_count, edges, Ghost(grid_rows(rows as nat, columns as nat, rows as nat)));
    r
}

fn saturating_product(a: usize, b: usize) -> (r: usize)
    ensures
        r == if a * b > usize::MAX { usize::MAX as int } else { a * b },
{
    match a.checked_mul(b) {
        Some(product) => product,
        None => usize::MAX,
    }
}

} // verus!
