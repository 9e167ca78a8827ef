use super::index::{EdgeEndpoints, EdgeIndex, NodeIndex};
use super::model::{
    adj_list, endpoints_valid, incidences, lemma_adj_prefix, lemma_sum_mono, lemma_sum_total,
    lemma_total_directed, lemma_total_undirected, sum_lens, touches,
};
use crate::error::{GraphError, Result};
use vstd::prelude::*;

verus! {

/// Endpoint pairs of an edge list, as integers.
pub open spec fn pairs(endpoints: Seq<EdgeEndpoints<NodeIndex>>) -> Seq<(int, int)> {
    endpoints.map_values(|e: EdgeEndpoints<NodeIndex>| (e.source.0 as int, e.target.0 as int))
}

/// Appending an edge appends its endpoint pair.
pub proof fn lemma_pairs_push(s: Seq<EdgeEndpoints<NodeIndex>>, x: EdgeEndpoints<NodeIndex>)
    ensures
        pairs(s.push(x)) == pairs(s).push((x.source.0 as int, x.target.0 as int)),
        pairs(s).len() == s.len(),
{
    assert(pairs(s.push(x)) =~= pairs(s).push((x.source.0 as int, x.target.0 as int)));
}

/// Edge indexes as integers.
pub open spec fn edge_ints(s: Seq<EdgeIndex>) -> Seq<int> {
    s.map_values(|e: EdgeIndex| e.0 as int)
}

/// Whether edge `e` has an endpoint outside `0..n`.
pub open spec fn invalid_at(edges: Seq<(int, int)>, n: int, e: int) -> bool {
    !(0 <= edges[e].0 < n) || !(0 <= edges[e].1 < n)
}

/// The error that endpoint validation reports for the first invalid edge.
pub open spec fn endpoint_error(edges: Seq<(int, int)>, n: int, e: int) -> GraphError {
    GraphError::InvalidTopologyEndpoint {
        edge: e as usize,
        node: (if !(0 <= edges[e].0 < n) { edges[e].0 } else { edges[e].1 }) as usize,
        node_count: n as usize,
    }
}

/// `r` reports the first edge with an out-of-range endpoint.
pub open spec fn reports_first_invalid(edges: Seq<(int, int)>, n: int, r: GraphError) -> bool {
    exists|e: int|
        0 <= e < edges.len() && invalid_at(edges, n, e) && (forall|f: int|
            0 <= f < e ==> !invalid_at(edges, n, f)) && r == endpoint_error(edges, n, e)
}

/// A compressed adjacency index: row `v` is `edges[offsets[v]..offsets[v + 1]]`.
#[derive(Debug, PartialEq, Eq)]
pub(crate) struct Csr {
    pub(crate) offsets: Vec<u32>,
    pub(crate) edges: Vec<EdgeIndex>,
}

impl Csr {
    pub(crate) fn duplicate(&self) -> (r: Self)
        ensures
            r.offsets@ == self.offsets@,
            r.edges@ == self.edges@,
            forall|e: Seq<(int, int)>, mode: int, n: nat|
                self.indexes(e, mode, n) ==> #[trigger] r.indexes(e, mode, n),
    {
        let r = Csr {
            offsets: crate::util::copied(self.offsets.as_slice()),
            edges: crate::util::copied(self.edges.as_slice()),
        };
        proof {
            assert forall|e: Seq<(int, int)>, mode: int, n: nat|
                self.indexes(e, mode, n) implies #[trigger] r.indexes(e, mode, n) by {
                assert forall|v: int| 0 <= v < n implies #[trigger] r.row(v) == adj_list(
                    e,
                    e.len(),
                    mode,
                    v,
                ) by {
                    assert(r.row(v) == self.row(v));
                }
            }
        }
        r
    }
}

impl Csr {
    pub(crate) open spec fn row(&self, v: int) -> Seq<int> {
        edge_ints(self.edges@.subrange(self.offsets@[v] as int, self.offsets@[v + 1] as int))
    }

    /// Row offsets are monotone and end at the entry count.
    pub(crate) open spec fn shaped(&self, n: nat) -> bool {
        &&& self.offsets@.len() == n + 1
        &&& self.offsets@[0] == 0
        &&& forall|v: int| 0 <= v < n ==> self.offsets@[v] <= #[trigger] self.offsets@[v + 1]
        &&& self.offsets@[n as int] == self.edges@.len()
    }

    /// Row `v` lists, in increasing order, exactly the edges that touch `v`.
    pub(crate) open spec fn indexes(&self, edges: Seq<(int, int)>, mode: int, n: nat) -> bool {
        &&& self.shaped(n)
        &&& forall|v: int| 0 <= v < n ==> #[trigger] self.row(v) == adj_list(edges, edges.len(), mode, v)
    }

    /// The row of `node`, or an empty slice outside the index.
    pub(crate) fn get(&self, node: usize) -> (r: &[EdgeIndex])
        requires
            self.offsets@.len() >= 1,
            self.shaped((self.offsets@.len() - 1) as nat),
        ensures
            node + 1 < self.offsets@.len() ==> edge_ints(r@) == self.row(node as int),
            node + 1 >= self.offsets@.len() ==> r@.len() == 0,
    {
        if node >= self.offsets.len() - 1 {
            return &[];
        }
        let start = self.offsets[node];
        let end = self.offsets[node + 1];
        proof {
            let n = (self.offsets@.len() - 1) as nat;
            assert(self.offsets@[node as int] <= self.offsets@[node + 1]);
            lemma_offsets_bounded(self, n, (node + 1) as int);
        }
        &self.edges.as_slice()[start as usize..end as usize]
    }

    pub(crate) fn offsets(&self) -> (r: &[u32])
        ensures
            r@ == self.offsets@,
    {
        self.offsets.as_slice()
    }

    pub(crate) fn edges(&self) -> (r: &[EdgeIndex])
        ensures
            r@ == self.edges@,
    {
        self.edges.as_slice()
    }

    /// Builds the outgoing and incoming indexes of a directed edge list.
    pub(crate) fn try_build_pair(node_count: usize, endpoints: &[EdgeEndpoints<NodeIndex>]) -> (r:
        Result<(Self, Self)>)
        requires
            node_count <= u32::MAX,
            endpoints@.len() <= u32::MAX,
        ensures
            match r {
                Ok((out, inc)) => {
                    &&& endpoints_valid(pairs(endpoints@), node_count as int)
                    &&& out.indexes(pairs(endpoints@), 0, node_count as nat)
                    &&& inc.indexes(pairs(endpoints@), 1, node_count as nat)
                },
                Err(e) => reports_first_invalid(pairs(endpoints@), node_count as int, e),
            },
    {
        let ghost edges = pairs(endpoints@);
        let m = endpoints.len();
        let mut outgoing_counts: Vec<u32> = vec_of_zeros(node_count);
        let mut incoming_counts: Vec<u32> = vec_of_zeros(node_count);
        let mut edge: usize = 0;
        while edge < m
            invariant
                m == endpoints@.len() == edges.len(),
                m <= u32::MAX,
                node_count <= u32::MAX,
                edge <= m,
                edges == pairs(endpoints@),
                outgoing_counts@.len() == node_count,
                incoming_counts@.len() == node_count,
                forall|f: int| 0 <= f < edge ==> !invalid_at(edges, node_count as int, f),
                forall|v: int|
                    0 <= v < node_count ==> #[trigger] outgoing_counts@[v] == adj_list(
                        edges,
                        edge as nat,
                        0,
                        v,
                    ).len(),
                forall|v: int|
                    0 <= v < node_count ==> #[trigger] incoming_counts@[v] == adj_list(
                        edges,
                        edge as nat,
                        1,
                        v,
                    ).len(),
            decreases m - edge,
        {
            let endpoints_here = endpoints[edge];
            let source = endpoints_here.source.index();
            let target = endpoints_here.target.index();
            proof {
                assert(edges[edge as int] == (source as int, target as int));
            }
            if source >= node_count {
                proof {
                    assert(invalid_at(edges, node_count as int, edge as int));
                }
                return Err(GraphError::InvalidTopologyEndpoint { edge, node: source, node_count });
            }
            if target >= node_count {
                proof {
                    assert(invalid_at(edges, node_count as int, edge as int));
                }
                return Err(GraphError::InvalidTopologyEndpoint { edge, node: target, node_count });
            }
            proof {
                lemma_adj_prefix(edges, edge as nat, m as nat, 0, source as int);
                lemma_adj_prefix(edges, edge as nat, m as nat, 1, target as int);
                lemma_adj_len_bound(edges, edge as nat, 0, source as int);
                lemma_adj_len_bound(edges, edge as nat, 1, target as int);
            }
            let c = outgoing_counts[source];
            outgoing_counts.set(source, c + 1);
            let c = incoming_counts[target];
            incoming_counts.set(target, c + 1);
            edge = edge + 1;
        }
        proof {
            assert(endpoints_valid(edges, node_count as int)) by {
                assert forall|e: int| 0 <= e < edges.len() implies 0 <= #[trigger] edges[e].0
                    < node_count && 0 <= edges[e].1 < node_count by {
                    assert(!invalid_at(edges, node_count as int, e));
                }
            }
            lemma_sum_total(edges, m as nat, 0, node_count as nat);
            lemma_sum_total(edges, m as nat, 1, node_count as nat);
            lemma_total_directed(edges, m as nat, 0, node_count as int);
            lemma_total_directed(edges, m as nat, 1, node_count as int);
        }
        let outgoing = Self::fill(node_count, endpoints, &outgoing_counts, 0);
        let incoming = Self::fill(node_count, endpoints, &incoming_counts, 1);
        Ok((outgoing, incoming))
    }

    /// Builds the undirected incidence index: a self-loop occupies one entry
    /// of its node's row, any other edge one entry in each endpoint's row.
    pub(crate) fn try_build_undirected(node_count: usize, endpoints: &[EdgeEndpoints<NodeIndex>]) -> (r:
        Result<Self>)
        requires
            node_count <= u32::MAX,
            endpoints@.len() <= u32::MAX,
        ensures
            match r {
                Ok(csr) => {
                    &&& endpoints_valid(pairs(endpoints@), node_count as int)
                    &&& incidences(pairs(endpoints@), endpoints@.len()) <= u32::MAX
                    &&& csr.indexes(pairs(endpoints@), 2, node_count as nat)
                },
                Err(e) => {
                    ||| reports_first_invalid(pairs(endpoints@), node_count as int, e)
                    ||| {
                        &&& endpoints_valid(pairs(endpoints@), node_count as int)
                        &&& incidences(pairs(endpoints@), endpoints@.len()) > u32::MAX
                        &&& e == GraphError::IndexCapacityExceeded {
                            category: "csr entries",
                            count: saturating_double(endpoints@.len() as usize),
                        }
                    }
                },
            },
    {
        let ghost edges = pairs(endpoints@);
        let m = endpoints.len();
        let mut counts: Vec<u32> = vec_of_zeros(node_count);
        let mut edge: usize = 0;
        while edge < m
            invariant
                m == endpoints@.len() == edges.len(),
                m <= u32::MAX,
                node_count <= u32::MAX,
                edge <= m,
                edges == pairs(endpoints@),
                counts@.len() == node_count,
                forall|f: int| 0 <= f < edge ==> !invalid_at(edges, node_count as int, f),
                forall|v: int|
                    0 <= v < node_count ==> #[trigger] counts@[v] == adj_list(
                        edges,
                        edge as nat,
                        2,
                        v,
                    ).len(),
            decreases m - edge,
        {
            let endpoints_here = endpoints[edge];
            let source = endpoints_here.source.index();
            let target = endpoints_here.target.index();
            proof {
                assert(edges[edge as int] == (source as int, target as int));
            }
            if source >= node_count {
                proof {
                    assert(invalid_at(edges, node_count as int, edge as int));
                }
                return Err(GraphError::InvalidTopologyEndpoint { edge, node: source, node_count });
            }
            proof {
                lemma_adj_len_bound(edges, edge as nat, 2, source as int);
            }
            let c = counts[source];
            counts.set(source, c + 1);
            if source != target {
                if target >= node_count {
                    proof {
                        assert(invalid_at(edges, node_count as int, edge as int));
                    }
                    return Err(
                        GraphError::InvalidTopologyEndpoint { edge, node: target, node_count },
                    );
                }
                proof {
                    lemma_adj_len_bound(edges, edge as nat, 2, target as int);
                }
                let c = counts[target];
                counts.set(target, c + 1);
            }
            edge = edge + 1;
        }
        proof {
            assert(endpoints_valid(edges, node_count as int)) by {
                assert forall|e: int| 0 <= e < edges.len() implies 0 <= #[trigger] edges[e].0
                    < node_count && 0 <= edges[e].1 < node_count by {
                    assert(!invalid_at(edges, node_count as int, e));
                }
            }
            lemma_sum_total(edges, m as nat, 2, node_count as nat);
            lemma_total_undirected(edges, m as nat, node_count as int);
        }
        if !totals_fit(&counts) {
            proof {
                lemma_prefix_is_sum(edges, counts@, 2, node_count as nat);
            }
            return Err(
                GraphError::IndexCapacityExceeded {
                    category: "csr entries",
                    count: double_saturating(m),
                },
            );
        }
        proof {
            lemma_prefix_is_sum(edges, counts@, 2, node_count as nat);
        }
        Ok(Self::fill(node_count, endpoints, &counts, 2))
    }

    /// Builds one direction (`mode` 0: outgoing, 1: incoming) of a directed
    /// index, validating every endpoint in edge order.
    pub(crate) fn try_build_rows(
        node_count: usize,
        endpoints: &[EdgeEndpoints<NodeIndex>],
        mode: u8,
    ) -> (r: Result<Self>)
        requires
            node_count <= u32::MAX,
            endpoints@.len() <= u32::MAX,
            mode <= 1,
        ensures
            match r {
                Ok(csr) => {
                    &&& endpoints_valid(pairs(endpoints@), node_count as int)
                    &&& csr.indexes(pairs(endpoints@), mode as int, node_count as nat)
                },
                Err(e) => reports_first_invalid(pairs(endpoints@), node_count as int, e),
            },
    {
        let ghost edges = pairs(endpoints@);
        let m = endpoints.len();
        let counts = match count_rows(node_count, endpoints, mode) {
            Ok(counts) => counts,
            Err(e) => return Err(e),
        };
        proof {
            lemma_sum_total(edges, m as nat, mode as int, node_count as nat);
            lemma_total_directed(edges, m as nat, mode as int, node_count as int);
        }
        Ok(Self::fill(node_count, endpoints, &counts, mode))
    }

    /// Lays out the rows whose lengths are `counts`, placing edges in index order.
    fn fill(
        node_count: usize,
        endpoints: &[EdgeEndpoints<NodeIndex>],
        counts: &Vec<u32>,
        mode: u8,
    ) -> (r: Self)
        requires
            node_count <= u32::MAX,
            endpoints@.len() <= u32::MAX,
            mode <= 2,
            endpoints_valid(pairs(endpoints@), node_count as int),
            counts@.len() == node_count,
            forall|v: int|
                0 <= v < node_count ==> #[trigger] counts@[v] == adj_list(
                    pairs(endpoints@),
                    endpoints@.len(),
                    mode as int,
                    v,
                ).len(),
            sum_lens(pairs(endpoints@), endpoints@.len(), mode as int, node_count as nat)
                <= u32::MAX,
        ensures
            r.indexes(pairs(endpoints@), mode as int, node_count as nat),
    {
        let ghost edges = pairs(endpoints@);
        let ghost md = mode as int;
        let m = endpoints.len();
        let ghost total = sum_lens(edges, m as nat, md, node_count as nat);
        proof {
            lemma_prefix_is_sum(edges, counts@, md, node_count as nat);
        }
        let offsets = prefix_offsets(counts);
        let ghost starts = Seq::new(
            (node_count + 1) as nat,
            |v: int| sum_lens(edges, m as nat, md, v as nat) as int,
        );
        proof {
            assert forall|v: int| 0 <= v <= node_count implies offsets@[v] == #[trigger] starts[v] by {
                lemma_prefix_is_sum(edges, counts@, md, v as nat);
            }
            assert forall|v: int| 0 <= v < node_count implies starts[v] <= #[trigger] starts[v + 1] by {
                lemma_sum_mono(edges, m as nat, md, v as nat, (v + 1) as nat);
            }
        }
        let mut cursors: Vec<u32> = Vec::new();
        let mut i: usize = 0;
        while i < node_count
            invariant
                i <= node_count,
                offsets@.len() == node_count + 1,
                cursors@.len() == i,
                forall|v: int| 0 <= v < i ==> cursors@[v] == offsets@[v],
            decreases node_count - i,
        {
            cursors.push(offsets[i]);
            i = i + 1;
        }
        let total_exec = offsets[node_count];
        let mut out: Vec<EdgeIndex> = vec_of_edges(total_exec as usize);
        let ghost mut rows: Seq<Seq<int>> = Seq::new(node_count as nat, |v: int| Seq::<int>::empty());
        proof {
            assert(filled(out@, cursors@, starts, rows, node_count as int));
            assert forall|v: int| 0 <= v < node_count implies #[trigger] rows[v] == adj_list(
                edges,
                0,
                md,
                v,
            ) by {}
        }
        let mut edge: usize = 0;
        while edge < m
            invariant
                m == endpoints@.len() == edges.len(),
                m <= u32::MAX,
                node_count <= u32::MAX,
                edge <= m,
                md == mode as int,
                mode <= 2,
                edges == pairs(endpoints@),
                endpoints_valid(edges, node_count as int),
                starts.len() == node_count + 1,
                forall|v: int|
                    0 <= v <= node_count ==> #[trigger] starts[v] == sum_lens(
                        edges,
                        m as nat,
                        md,
                        v as nat,
                    ),
                filled(out@, cursors@, starts, rows, node_count as int),
                rows.len() == node_count,
                forall|v: int|
                    0 <= v < node_count ==> #[trigger] rows[v] == adj_list(edges, edge as nat, md, v),
            decreases m - edge,
        {
            let endpoints_here = endpoints[edge];
            let source = endpoints_here.source.index();
            let target = endpoints_here.target.index();
            let compact = EdgeIndex::new(edge as u32);
            proof {
                assert(edges[edge as int] == (source as int, target as int));
                assert(0 <= edges[edge as int].0 < node_count);
            }
            let ghost next_rows = Seq::new(
                node_count as nat,
                |v: int| adj_list(edges, (edge + 1) as nat, md, v),
            );
            if mode == 0 || mode == 2 {
                proof {
                    lemma_row_room(edges, edge as nat, m as nat, md, source as int, node_count as nat);
                }
                place(&mut out, &mut cursors, source, compact, Ghost(starts), Ghost(rows), Ghost(node_count as int));
                proof {
                    rows = rows.update(source as int, rows[source as int].push(edge as int));
                }
            }
            if mode == 1 || (mode == 2 && source != target) {
                proof {
                    lemma_row_room(edges, edge as nat, m as nat, md, target as int, node_count as nat);
                }
                place(&mut out, &mut cursors, target, compact, Ghost(starts), Ghost(rows), Ghost(node_count as int));
                proof {
                    rows = rows.update(target as int, rows[target as int].push(edge as int));
                }
            }
            proof {
                assert(rows =~= next_rows);
            }
            edge = edge + 1;
        }
        let r = Csr { offsets, edges: out };
        proof {
            lemma_filled_rows(&r, cursors@, starts, rows, edges, m as nat, md, node_count as nat);
        }
        r
    }
}

/// Once every row is complete, the index lists exactly those rows.
proof fn lemma_filled_rows(
    r: &Csr,
    cursors: Seq<u32>,
    starts: Seq<int>,
    rows: Seq<Seq<int>>,
    edges: Seq<(int, int)>,
    m: nat,
    md: int,
    n: nat,
)
    requires
        m == edges.len(),
        r.offsets@.len() == n + 1,
        forall|v: int| 0 <= v <= n ==> r.offsets@[v] == #[trigger] starts[v],
        forall|v: int| 0 <= v <= n ==> #[trigger] starts[v] == sum_lens(edges, m, md, v as nat),
        filled(r.edges@, cursors, starts, rows, n as int),
        forall|v: int| 0 <= v < n ==> #[trigger] rows[v] == adj_list(edges, m, md, v),
    ensures
        r.indexes(edges, md, n),
{
    assert forall|v: int| 0 <= v < n implies #[trigger] r.row(v) == adj_list(edges, m, md, v) by {
        assert(cursors[v] == starts[v] + rows[v].len());
        assert(starts[v + 1] == sum_lens(edges, m, md, (v + 1) as nat));
        assert(starts[v] == sum_lens(edges, m, md, v as nat));
        lemma_starts_bound(starts, n as int, v + 1);
        let row = r.row(v);
        assert(row.len() == rows[v].len());
        assert forall|j: int| 0 <= j < row.len() implies row[j] == rows[v][j] by {
            assert(r.edges@[starts[v] + j].0 as int == rows[v][j]);
        }
        assert(row =~= rows[v]);
    }
    assert forall|v: int| 0 <= v < n implies r.offsets@[v] <= #[trigger] r.offsets@[v + 1] by {
        assert(starts[v] <= starts[v + 1]);
    }
}

/// Validates every endpoint in edge order and counts the row lengths of `mode`.
fn count_rows(node_count: usize, endpoints: &[EdgeEndpoints<NodeIndex>], mode: u8) -> (r: Result<
    Vec<u32>,
>)
    requires
        node_count <= u32::MAX,
        endpoints@.len() <= u32::MAX,
        mode <= 2,
    ensures
        match r {
            Ok(counts) => {
                &&& endpoints_valid(pairs(endpoints@), node_count as int)
                &&& counts@.len() == node_count
                &&& forall|v: int|
                    0 <= v < node_count ==> #[trigger] counts@[v] == adj_list(
                        pairs(endpoints@),
                        endpoints@.len(),
                        mode as int,
                        v,
                    ).len()
            },
            Err(e) => reports_first_invalid(pairs(endpoints@), node_count as int, e),
        },
{
    let ghost edges = pairs(endpoints@);
    let m = endpoints.len();
    let mut counts: Vec<u32> = vec_of_zeros(node_count);
    let mut edge: usize = 0;
    while edge < m
        invariant
            m == endpoints@.len() == edges.len(),
            m <= u32::MAX,
            node_count <= u32::MAX,
            mode <= 2,
            edge <= m,
            edges == pairs(endpoints@),
            counts@.len() == node_count,
            forall|f: int| 0 <= f < edge ==> !invalid_at(edges, node_count as int, f),
            forall|v: int|
                0 <= v < node_count ==> #[trigger] counts@[v] == adj_list(
                    edges,
                    edge as nat,
                    mode as int,
                    v,
                ).len(),
        decreases m - edge,
    {
        let endpoints_here = endpoints[edge];
        let source = endpoints_here.source.index();
        let target = endpoints_here.target.index();
        proof {
            assert(edges[edge as int] == (source as int, target as int));
        }
        if source >= node_count {
            proof {
                assert(invalid_at(edges, node_count as int, edge as int));
            }
            return Err(GraphError::InvalidTopologyEndpoint { edge, node: source, node_count });
        }
        if target >= node_count {
            proof {
                assert(invalid_at(edges, node_count as int, edge as int));
            }
            return Err(GraphError::InvalidTopologyEndpoint { edge, node: target, node_count });
        }
        proof {
            lemma_adj_len_bound(edges, edge as nat, mode as int, source as int);
            lemma_adj_len_bound(edges, edge as nat, mode as int, target as int);
        }
        if mode == 0 || mode == 2 {
            let c = counts[source];
            counts.set(source, c + 1);
        }
        if mode == 1 || (mode == 2 && source != target) {
            let c = counts[target];
            counts.set(target, c + 1);
        }
        edge = edge + 1;
    }
    proof {
        assert(endpoints_valid(edges, node_count as int)) by {
            assert forall|e: int| 0 <= e < edges.len() implies 0 <= #[trigger] edges[e].0
                < node_count && 0 <= edges[e].1 < node_count by {
                assert(!invalid_at(edges, node_count as int, e));
            }
        }
    }
    Ok(counts)
}

/// Row contents placed so far: row `v` starts at `starts[v]`, holds `rows[v]`,
/// and its cursor sits just after it, never past the next row.
pub open spec fn filled(
    out: Seq<EdgeIndex>,
    cursors: Seq<u32>,
    starts: Seq<int>,
    rows: Seq<Seq<int>>,
    n: int,
) -> bool {
    &&& cursors.len() == n
    &&& rows.len() == n
    &&& starts.len() == n + 1
    &&& starts[0] == 0
    &&& starts[n] == out.len()
    &&& out.len() <= u32::MAX
    &&& forall|v: int| 0 <= v < n ==> starts[v] <= #[trigger] starts[v + 1]
    &&& forall|v: int|
        0 <= v < n ==> #[trigger] cursors[v] == starts[v] + rows[v].len() && starts[v]
            + rows[v].len() <= starts[v + 1]
    &&& forall|v: int, j: int|
        0 <= v < n && 0 <= j < rows[v].len() ==> out[starts[v] + j].0 as int == #[trigger] rows[v][j]
}

/// Appends `edge` to the row of `node`.
fn place(
    out: &mut Vec<EdgeIndex>,
    cursors: &mut Vec<u32>,
    node: usize,
    edge: EdgeIndex,
    Ghost(starts): Ghost<Seq<int>>,
    Ghost(rows): Ghost<Seq<Seq<int>>>,
    Ghost(n): Ghost<int>,
)
    requires
        filled(old(out)@, old(cursors)@, starts, rows, n),
        0 <= node < n,
        starts[node as int] + rows[node as int].len() + 1 <= starts[node + 1],
    ensures
        filled(
            final(out)@,
            final(cursors)@,
            starts,
            rows.update(node as int, rows[node as int].push(edge.0 as int)),
            n,
        ),
{
    let slot = cursors[node];
    proof {
        assert(old(cursors)@[node as int] == starts[node as int] + rows[node as int].len());
        lemma_starts_bound(starts, n, node as int + 1);
    }
    let ghost pre = out@;
    assert(slot == starts[node as int] + rows[node as int].len());
    out.set(slot as usize, edge);
    assert(out@ == pre.update(slot as int, edge));
    cursors.set(node, slot + 1);
    proof {
        let new_rows = rows.update(node as int, rows[node as int].push(edge.0 as int));
        assert(out@ == pre.update(slot as int, edge));
        assert forall|v: int| 0 <= v < n implies #[trigger] cursors@[v] == starts[v]
            + new_rows[v].len() && starts[v] + new_rows[v].len() <= starts[v + 1] by {
            assert(old(cursors)@[v] == starts[v] + rows[v].len());
        }
        assert forall|v: int, j: int|
            0 <= v < n && 0 <= j < new_rows[v].len() implies out@[starts[v] + j].0 as int
            == #[trigger] new_rows[v][j] by {
            assert(old(cursors)@[v] == starts[v] + rows[v].len());
            lemma_starts_bound(starts, n, v + 1);
            lemma_starts_mono(starts, n, 0, v);
            assert(starts[v] + j < pre.len());
            if v == node as int {
                if j < rows[v].len() {
                    assert(starts[v] + j < slot);
                    assert(pre[starts[v] + j].0 as int == rows[v][j]);
                    assert(out@[starts[v] + j] == pre[starts[v] + j]);
                }
            } else {
                assert(pre[starts[v] + j].0 as int == rows[v][j]);
                if v < node {
                    lemma_starts_mono(starts, n, v + 1, node as int);
                } else {
                    lemma_starts_mono(starts, n, node as int + 1, v);
                }
                assert(starts[v] + j != slot);
                assert(out@[starts[v] + j] == pre[starts[v] + j]);
            }
        }
    }
}

proof fn lemma_starts_mono(starts: Seq<int>, n: int, a: int, b: int)
    requires
        0 <= a <= b <= n,
        starts.len() == n + 1,
        forall|v: int| 0 <= v < n ==> starts[v] <= #[trigger] starts[v + 1],
    ensures
        starts[a] <= starts[b],
    decreases b - a,
{
    if a < b {
        lemma_starts_mono(starts, n, a, b - 1);
        assert(starts[b - 1] <= starts[(b - 1) + 1]);
    }
}

proof fn lemma_starts_bound(starts: Seq<int>, n: int, a: int)
    requires
        0 <= a <= n,
        starts.len() == n + 1,
        forall|v: int| 0 <= v < n ==> starts[v] <= #[trigger] starts[v + 1],
    ensures
        starts[a] <= starts[n],
{
    lemma_starts_mono(starts, n, a, n);
}

proof fn lemma_offsets_bounded(csr: &Csr, n: nat, a: int)
    requires
        csr.shaped(n),
        0 <= a <= n,
    ensures
        csr.offsets@[a] <= csr.edges@.len(),
    decreases n - a,
{
    if a < n {
        lemma_offsets_bounded(csr, n, a + 1);
    }
}

/// Row `v` still has room for the edge that comes next.
proof fn lemma_row_room(edges: Seq<(int, int)>, k: nat, m: nat, mode: int, v: int, n: nat)
    requires
        k < m,
        m == edges.len(),
        0 <= v < n,
        touches(edges[k as int], mode, v),
    ensures
        sum_lens(edges, m, mode, v as nat) + adj_list(edges, k, mode, v).len() + 1 <= sum_lens(
            edges,
            m,
            mode,
            (v + 1) as nat,
        ),
{
    lemma_adj_prefix(edges, k + 1, m, mode, v);
}

proof fn lemma_adj_len_bound(edges: Seq<(int, int)>, k: nat, mode: int, v: int)
    ensures
        adj_list(edges, k, mode, v).len() <= k,
    decreases k,
{
    if k > 0 {
        lemma_adj_len_bound(edges, (k - 1) as nat, mode, v);
    }
}

/// Sum of the first `n` counts.
pub open spec fn prefix(counts: Seq<u32>, n: nat) -> int
    decreases n,
{
    if n == 0 {
        0
    } else {
        prefix(counts, (n - 1) as nat) + counts[n - 1]
    }
}

proof fn lemma_prefix_is_sum(edges: Seq<(int, int)>, counts: Seq<u32>, mode: int, n: nat)
    requires
        n <= counts.len(),
        forall|v: int| 0 <= v < n ==> #[trigger] counts[v] == adj_list(edges, edges.len(), mode, v).len(),
    ensures
        prefix(counts, n) == sum_lens(edges, edges.len(), mode, n),
    decreases n,
{
    if n > 0 {
        lemma_prefix_is_sum(edges, counts, mode, (n - 1) as nat);
    }
}

proof fn lemma_prefix_mono(counts: Seq<u32>, a: nat, b: nat)
    requires
        a <= b <= counts.len(),
    ensures
        prefix(counts, a) <= prefix(counts, b),
    decreases b - a,
{
    if a < b {
        lemma_prefix_mono(counts, a, (b - 1) as nat);
    }
}

/// Whether every running total of `counts` fits a `u32`.
fn totals_fit(counts: &Vec<u32>) -> (r: bool)
    ensures
        r == (prefix(counts@, counts@.len()) <= u32::MAX),
{
    let mut total: u64 = 0;
    let mut i: usize = 0;
    while i < counts.len()
        invariant
            i <= counts@.len(),
            total == prefix(counts@, i as nat),
            total <= u32::MAX,
        decreases counts@.len() - i,
    {
        let next = total + counts[i] as u64;
        if next > u32::MAX as u64 {
            proof {
                lemma_prefix_mono(counts@, (i + 1) as nat, counts@.len());
            }
            return false;
        }
        total = next;
        i = i + 1;
    }
    true
}

/// Running totals of `counts`, starting at zero.
fn prefix_offsets(counts: &Vec<u32>) -> (r: Vec<u32>)
    requires
        prefix(counts@, counts@.len()) <= u32::MAX,
    ensures
        r@.len() == counts@.len() + 1,
        forall|v: int| 0 <= v <= counts@.len() ==> r@[v] == #[trigger] prefix(counts@, v as nat),
{
    let mut offsets: Vec<u32> = Vec::new();
    offsets.push(0);
    let mut total: u32 = 0;
    let mut i: usize = 0;
    while i < counts.len()
        invariant
            i <= counts@.len(),
            prefix(counts@, counts@.len()) <= u32::MAX,
            total == prefix(counts@, i as nat),
            offsets@.len() == i + 1,
            forall|v: int| 0 <= v <= i ==> offsets@[v] == #[trigger] prefix(counts@, v as nat),
        decreases counts@.len() - i,
    {
        proof {
            lemma_prefix_mono(counts@, (i + 1) as nat, counts@.len());
        }
        total = total + counts[i];
        offsets.push(total);
        i = i + 1;
    }
    offsets
}

/// `2 * count`, saturating at `usize::MAX`.
pub open spec fn saturating_double(count: usize) -> usize {
    if 2 * count > usize::MAX { usize::MAX } else { (2 * count) as usize }
}

pub(crate) fn double_saturating(count: usize) -> (r: usize)
    ensures
        r == saturating_double(count),
{
    match count.checked_mul(2) {
        Some(doubled) => doubled,
        None => usize::MAX,
    }
}

fn vec_of_zeros(n: usize) -> (r: Vec<u32>)
    ensures
        r@.len() == n,
        forall|i: int| 0 <= i < n ==> r@[i] == 0,
{
    let mut v: Vec<u32> = Vec::new();
    let mut i: usize = 0;
    while i < n
        invariant
            i <= n,
            v@.len() == i,
            forall|j: int| 0 <= j < i ==> v@[j] == 0,
        decreases n - i,
    {
        v.push(0);
        i = i + 1;
    }
    v
}

fn vec_of_edges(n: usize) -> (r: Vec<EdgeIndex>)
    ensures
        r@.len() == n,
{
    let mut v: Vec<EdgeIndex> = Vec::new();
    let mut i: usize = 0;
    while i < n
        invariant
            i <= n,
            v@.len() == i,
        decreases n - i,
    {
        v.push(EdgeIndex::new(0));
        i = i + 1;
    }
    v
}

} // verus!
