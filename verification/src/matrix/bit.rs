use super::bits::{
    bit, lemma_clear_bit, lemma_count_bound, lemma_count_change, lemma_count_zero, lemma_set_bit,
    lemma_test_bit, set_count,
};
use crate::error::{GraphError, Result};
use crate::algo::reach::{lemma_node_ints_push, node_ints};
use crate::topology::{builds, pairs, EdgeEndpoints, NodeIndex, Topology};
use vstd::prelude::*;

verus! {

/// The abstract content of a bit matrix: its side and one cell per ordered
/// pair `(source, target)`, at position `source * size + target`.
pub struct BitModel {
    pub size: nat,
    pub cells: Seq<bool>,
}

impl BitModel {
    /// Whether the directed relation `source -> target` is present.
    pub open spec fn has(self, source: int, target: int) -> bool {
        0 <= source < self.size && 0 <= target < self.size && self.cells[source * self.size + target]
    }
}

/// How many cells are set.
pub open spec fn true_count(cells: Seq<bool>) -> nat
    decreases cells.len(),
{
    if cells.len() == 0 {
        0
    } else {
        true_count(cells.drop_last()) + if cells.last() {
            1nat
        } else {
            0nat
        }
    }
}

/// The pairs `(source, target)` of the set cells among the first `k`, in
/// cell order.
pub open spec fn set_pairs(m: BitModel, k: nat) -> Seq<(int, int)>
    decreases k,
{
    if k == 0 || m.size == 0 {
        Seq::empty()
    } else {
        let rest = set_pairs(m, (k - 1) as nat);
        if m.cells[k - 1] {
            rest.push(((k - 1) / (m.size as int), (k - 1) % (m.size as int)))
        } else {
            rest
        }
    }
}

/// The nodes `v` below `k`, in increasing order, for which `keep(v)` holds.
pub open spec fn nodes_where(k: nat, keep: spec_fn(int) -> bool) -> Seq<int>
    decreases k,
{
    if k == 0 {
        Seq::empty()
    } else {
        let rest = nodes_where((k - 1) as nat, keep);
        if keep(k - 1) {
            rest.push(k - 1)
        } else {
            rest
        }
    }
}

/// A dense directed adjacency matrix with one bit per ordered node pair.
#[derive(Debug)]
pub struct BitMatrix {
    node_count: u32,
    edge_count: usize,
    words: Vec<u64>,
}

impl View for BitMatrix {
    type V = BitModel;

    closed spec fn view(&self) -> BitModel {
        let n = self.node_count as nat;
        BitModel { size: n, cells: Seq::new(n * n, |k: int| bit(self.words@, k)) }
    }
}

proof fn lemma_slot(n: int, s: int, t: int)
    requires
        0 <= s < n,
        0 <= t < n,
    ensures
        0 <= s * n + t < n * n,
        (s * n + t) / n == s,
        (s * n + t) % n == t,
{
    assert(0 <= s * n + t < n * n) by (nonlinear_arith)
        requires
            0 <= s < n,
            0 <= t < n,
    ;
    vstd::arithmetic::div_mod::lemma_fundamental_div_mod_converse(s * n + t, n, s, t);
}

proof fn lemma_count_cells(words: Seq<u64>, k: nat)
    ensures
        set_count(words, k) == true_count(Seq::new(k, |j: int| bit(words, j))),
    decreases k,
{
    if k > 0 {
        lemma_count_cells(words, (k - 1) as nat);
        assert(Seq::new(k, |j: int| bit(words, j)).drop_last() =~= Seq::new((k - 1) as nat, |j: int| bit(words, j)));
    }
}

impl BitMatrix {
    /// The word table covers every cell and the edge count counts the set
    /// cells.
    pub closed spec fn wf(&self) -> bool {
        let n = self.node_count as int;
        &&& n * n <= usize::MAX
        &&& self.words@.len() == (n * n + 63) / 64
        &&& self.edge_count == set_count(self.words@, (n * n) as nat)
    }

    /// An empty matrix over `node_count` nodes.
    pub fn try_new(node_count: usize) -> (r: Result<Self>)
        ensures
            match r {
                Ok(m) => m.wf() && node_count <= u32::MAX && node_count * node_count + 63 <= usize::MAX && m@.size
                    == node_count && forall|k: int| 0 <= k < m@.cells.len() ==> !#[trigger] m@.cells[k],
                Err(e) => if node_count > u32::MAX {
                    e == GraphError::IndexCapacityExceeded { category: "bit matrix nodes", count: node_count }
                } else if node_count * node_count > usize::MAX {
                    e == GraphError::ArithmeticOverflow { operation: "bit matrix dimensions" }
                } else {
                    node_count * node_count + 63 > usize::MAX && e == GraphError::ArithmeticOverflow {
                        operation: "bit matrix word count",
                    }
                },
            },
    {
        if node_count > u32::MAX as usize {
            return Err(GraphError::IndexCapacityExceeded { category: "bit matrix nodes", count: node_count });
        }
        let cells = match node_count.checked_mul(node_count) {
            Some(c) => c,
            None => {
                return Err(GraphError::ArithmeticOverflow { operation: "bit matrix dimensions" });
            },
        };
        let padded = match cells.checked_add(63) {
            Some(c) => c,
            None => {
                return Err(GraphError::ArithmeticOverflow { operation: "bit matrix word count" });
            },
        };
        let word_count = padded / 64;
        let words = crate::util::filled_vec(0u64, word_count);
        proof {
            lemma_count_zero(words@, cells as nat);
        }
        let m = BitMatrix { node_count: node_count as u32, edge_count: 0, words };
        proof {
            assert forall|k: int| 0 <= k < m@.cells.len() implies !#[trigger] m@.cells[k] by {
                assert(0 <= k / 64 < words@.len());
                super::bits::lemma_zero_bits((k % 64) as u64);
            }
        }
        Ok(m)
    }

    pub fn node_count(&self) -> (r: usize)
        requires
            self.wf(),
        ensures
            r == self@.size,
            r <= u32::MAX,
            self@.cells.len() == self@.size * self@.size,
    {
        self.node_count as usize
    }

    /// How many directed relations are present.
    pub fn edge_count(&self) -> (r: usize)
        requires
            self.wf(),
        ensures
            r == true_count(self@.cells),
    {
        proof {
            let n = self.node_count as nat;
            lemma_count_cells(self.words@, n * n);
        }
        self.edge_count
    }

    /// The bytes of bit storage: eight per 64-bit word.
    pub fn storage_bytes(&self) -> (r: usize)
        requires
            self.wf(),
        ensures
            r == ((self@.size * self@.size + 63) / 64) * 8,
    {
        self.words.len() * 8
    }

    /// The storage words, cell `source * node_count + target` at bit
    /// `k % 64` of word `k / 64`.
    pub fn words(&self) -> (r: &[u64])
        requires
            self.wf(),
        ensures
            r@.len() == (self@.size * self@.size + 63) / 64,
            forall|k: int| 0 <= k < self@.cells.len() ==> #[trigger] self@.cells[k] == bit(r@, k),
    {
        self.words.as_slice()
    }

    /// A matrix over `node_count` nodes from its storage words, as stored;
    /// every bit past the last cell must be clear.
    ///
    /// # Errors
    ///
    /// Returns the error of `try_new` for the node count, and an
    /// `InvalidFormat` error for a word count that does not cover the cells
    /// exactly or a set bit past the last cell.
    pub fn from_words(node_count: u32, words: Vec<u64>) -> (r: Result<Self>)
        ensures
            match r {
                Ok(m) => m.wf() && m@ == (BitModel {
                    size: node_count as nat,
                    cells: Seq::new((node_count * node_count) as nat, |k: int| bit(words@, k)),
                }),
                Err(e) => {
                    ||| node_count as int * node_count + 63 > usize::MAX && e matches GraphError::ArithmeticOverflow { .. }
                    ||| node_count as int * node_count + 63 <= usize::MAX && words@.len() != (node_count as int * node_count
                        + 63) / 64 && (e matches GraphError::InvalidFormat { format, .. } && format == "bit matrix")
                    ||| node_count as int * node_count + 63 <= usize::MAX && words@.len() == (node_count as int * node_count
                        + 63) / 64 && (exists|k: int|
                        node_count * node_count <= k < words@.len() * 64 && #[trigger] bit(words@, k))
                        && (e matches GraphError::InvalidFormat { format, .. } && format == "bit matrix")
                },
            },
    {
        let empty = match BitMatrix::try_new(node_count as usize) {
            Ok(m) => m,
            Err(e) => {
                return Err(e);
            },
        };
        if empty.words.len() != words.len() {
            return Err(GraphError::InvalidFormat {
                format: "bit matrix",
                reason: "invalid bit matrix word count".to_owned(),
            });
        }
        let n = node_count as usize;
        let cells = n * n;
        let total = words.len() * 64;
        let mut k = cells;
        while k < total
            invariant
                cells <= k <= total,
                total == words@.len() * 64,
                n == node_count,
                cells == n * n,
                n * n + 63 <= usize::MAX,
                words@.len() == (n * n + 63) / 64,
                forall|j: int| cells <= j < k ==> !#[trigger] bit(words@, j),
            decreases total - k,
        {
            let w = words[k / 64];
            let shift = (k % 64) as u64;
            proof {
                super::bits::lemma_test_bit(w, shift);
            }
            if (w >> shift) & 1u64 == 1u64 {
                proof {
                    assert(bit(words@, k as int));
                }
                return Err(GraphError::InvalidFormat {
                    format: "bit matrix",
                    reason: "bit matrix contains out-of-range bits".to_owned(),
                });
            }
            k += 1;
        }
        let mut count: usize = 0;
        let mut j: usize = 0;
        while j < cells
            invariant
                j <= cells,
                cells == n * n,
                words@.len() == (n * n + 63) / 64,
                count == set_count(words@, j as nat),
                count <= j,
            decreases cells - j,
        {
            let w = words[j / 64];
            let shift = (j % 64) as u64;
            proof {
                super::bits::lemma_test_bit(w, shift);
            }
            if (w >> shift) & 1u64 == 1u64 {
                count += 1;
            }
            j += 1;
        }
        let m = BitMatrix { node_count, edge_count: count, words };
        proof {
            assert(m@.cells =~= Seq::new((node_count * node_count) as nat, |k: int| bit(words@, k)));
        }
        Ok(m)
    }

    /// The matrix holds one cell per ordered pair of nodes.
    pub proof fn lemma_cells(&self)
        ensures
            self@.cells.len() == self@.size * self@.size,
    {
    }

    /// Whether `source -> target` is present; `false` outside the matrix.
    /// Both endpoints are checked before the lookup.
    pub fn contains_fast(&self, source: NodeIndex, target: NodeIndex) -> (r: bool)
        requires
            self.wf(),
        ensures
            r == self@.has(source.0 as int, target.0 as int),
    {
        self.contains(source, target)
    }

    /// Whether `source -> target` is present, for endpoints inside the
    /// matrix.
    pub fn contains_unchecked(&self, source: NodeIndex, target: NodeIndex) -> (r: bool)
        requires
            self.wf(),
            source.0 < self@.size,
            target.0 < self@.size,
        ensures
            r == self@.has(source.0 as int, target.0 as int),
    {
        self.contains(source, target)
    }

    /// Whether `source -> target` is present; `false` outside the matrix.
    pub fn contains(&self, source: NodeIndex, target: NodeIndex) -> (r: bool)
        requires
            self.wf(),
        ensures
            r == self@.has(source.0 as int, target.0 as int),
    {
        let count = self.node_count as usize;
        let s = source.index();
        let t = target.index();
        if s >= count || t >= count {
            return false;
        }
        proof {
            lemma_slot(count as int, s as int, t as int);
        }
        let slot = s * count + t;
        let word = self.words[slot / 64];
        proof {
            lemma_test_bit(word, (slot % 64) as u64);
        }
        word & (1u64 << ((slot % 64) as u64)) != 0
    }

    /// The cell position of `source -> target`, or the error for the first
    /// endpoint outside the matrix.
    fn slot(&self, source: NodeIndex, target: NodeIndex) -> (r: Result<usize>)
        requires
            self.wf(),
        ensures
            match r {
                Ok(k) => source.0 < self@.size && target.0 < self@.size && k == source.0 * self@.size + target.0
                    && k < self@.size * self@.size,
                Err(e) => if source.0 >= self@.size {
                    e == GraphError::InvalidNodeIndex { node: source.0 as usize, node_count: self@.size as usize }
                } else {
                    target.0 >= self@.size && e == GraphError::InvalidNodeIndex {
                        node: target.0 as usize,
                        node_count: self@.size as usize,
                    }
                },
            },
    {
        let count = self.node_count as usize;
        if source.index() >= count {
            return Err(GraphError::InvalidNodeIndex { node: source.index(), node_count: count });
        }
        if target.index() >= count {
            return Err(GraphError::InvalidNodeIndex { node: target.index(), node_count: count });
        }
        proof {
            lemma_slot(count as int, source.0 as int, target.0 as int);
        }
        Ok(source.index() * count + target.index())
    }

    /// Adds `source -> target`; `Ok(true)` when it was absent. Errors for
    /// an endpoint outside the matrix, the source checked first.
    pub fn insert(&mut self, source: NodeIndex, target: NodeIndex) -> (r: Result<bool>)
        requires
            old(self).wf(),
        ensures
            final(self).wf(),
            match r {
                Ok(added) => {
                    &&& source.0 < old(self)@.size && target.0 < old(self)@.size
                    &&& added == !old(self)@.has(source.0 as int, target.0 as int)
                    &&& final(self)@.size == old(self)@.size
                    &&& final(self)@.cells == old(self)@.cells.update(
                        source.0 * old(self)@.size + target.0,
                        true,
                    )
                },
                Err(e) => *final(self) == *old(self) && if source.0 >= old(self)@.size {
                    e == GraphError::InvalidNodeIndex { node: source.0 as usize, node_count: old(self)@.size as usize }
                } else {
                    target.0 >= old(self)@.size && e == GraphError::InvalidNodeIndex {
                        node: target.0 as usize,
                        node_count: old(self)@.size as usize,
                    }
                },
            },
    {
        let slot = match self.slot(source, target) {
            Ok(k) => k,
            Err(e) => return Err(e),
        };
        let ghost n = self.node_count as int;
        let ghost before = self.words@;
        let index = slot / 64;
        let shift = (slot % 64) as u64;
        let word = self.words[index];
        proof {
            lemma_test_bit(word, shift);
        }
        let inserted = word & (1u64 << shift) == 0;
        let updated = word | (1u64 << shift);
        proof {
            let after = before.update(index as int, updated);
            assert forall|j: int| 0 <= j < n * n && j != slot implies bit(before, j) == bit(after, j) by {
                if j / 64 == index as int {
                    lemma_set_bit(word, shift, (j % 64) as u64);
                }
            }
            lemma_set_bit(word, shift, shift);
            assert(bit(after, slot as int));
            lemma_count_change(before, after, slot as int, (n * n) as nat);
            lemma_count_bound(after, (n * n) as nat);
        }
        let new_count = if inserted {
            self.edge_count + 1
        } else {
            self.edge_count
        };
        self.words.set(index, updated);
        self.edge_count = new_count;
        proof {
            assert(self@.cells =~= old(self)@.cells.update(slot as int, true)) by {
                assert forall|j: int| 0 <= j < n * n implies self@.cells[j] == old(self)@.cells.update(
                    slot as int,
                    true,
                )[j] by {
                    if j != slot {
                        assert(bit(before, j) == bit(self.words@, j));
                    }
                }
            }
        }
        Ok(inserted)
    }

    /// Adds both directions of `left -- right`; the number of relations
    /// added. Errors for an endpoint outside the matrix.
    pub fn insert_undirected(&mut self, left: NodeIndex, right: NodeIndex) -> (r: Result<usize>)
        requires
            old(self).wf(),
        ensures
            final(self).wf(),
            match r {
                Ok(added) => {
                    let n = old(self)@.size;
                    &&& left.0 < n && right.0 < n
                    &&& final(self)@.size == n
                    &&& final(self)@.cells == old(self)@.cells.update(left.0 * n + right.0, true).update(
                        right.0 * n + left.0,
                        true,
                    )
                    &&& added == (if old(self)@.has(left.0 as int, right.0 as int) {
                        0int
                    } else {
                        1int
                    }) + (if left.0 != right.0 && !old(self)@.has(right.0 as int, left.0 as int) {
                        1int
                    } else {
                        0int
                    })
                },
                Err(e) => *final(self) == *old(self) && if left.0 >= old(self)@.size {
                    e == GraphError::InvalidNodeIndex { node: left.0 as usize, node_count: old(self)@.size as usize }
                } else {
                    right.0 >= old(self)@.size && e == GraphError::InvalidNodeIndex {
                        node: right.0 as usize,
                        node_count: old(self)@.size as usize,
                    }
                },
            },
    {
        let first = match self.insert(left, right) {
            Ok(b) => b,
            Err(e) => return Err(e),
        };
        let ghost mid = self@;
        let second = if left.0 != right.0 {
            match self.insert(right, left) {
                Ok(b) => b,
                Err(e) => return Err(e),
            }
        } else {
            false
        };
        proof {
            let n = old(self)@.size as int;
            lemma_slot(n, left.0 as int, right.0 as int);
            lemma_slot(n, right.0 as int, left.0 as int);
            if left.0 == right.0 {
                assert(self@.cells =~= old(self)@.cells.update(left.0 * n + right.0, true).update(
                    right.0 * n + left.0,
                    true,
                ));
            } else {
                assert((left.0 * n + right.0) != (right.0 * n + left.0)) by {
                    lemma_slot(n, left.0 as int, right.0 as int);
                }
                assert(mid.has(right.0 as int, left.0 as int) == old(self)@.has(right.0 as int, left.0 as int));
            }
        }
        Ok((if first { 1 } else { 0 }) + (if second { 1 } else { 0 }))
    }

    /// Drops `source -> target`; whether it was present. Pairs outside the
    /// matrix are never present.
    pub fn remove(&mut self, source: NodeIndex, target: NodeIndex) -> (r: bool)
        requires
            old(self).wf(),
        ensures
            final(self).wf(),
            r == old(self)@.has(source.0 as int, target.0 as int),
            final(self)@.size == old(self)@.size,
            (source.0 < old(self)@.size && target.0 < old(self)@.size) ==> final(self)@.cells == old(self)@.cells.update(
                source.0 * old(self)@.size + target.0,
                false,
            ),
            !(source.0 < old(self)@.size && target.0 < old(self)@.size) ==> final(self)@ == old(self)@,
    {
        let slot = match self.slot(source, target) {
            Ok(k) => k,
            Err(_) => return false,
        };
        let ghost n = self.node_count as int;
        let ghost before = self.words@;
        let index = slot / 64;
        let shift = (slot % 64) as u64;
        let word = self.words[index];
        proof {
            lemma_test_bit(word, shift);
        }
        let removed = word & (1u64 << shift) != 0;
        let updated = word & !(1u64 << shift);
        proof {
            let after = before.update(index as int, updated);
            assert forall|j: int| 0 <= j < n * n && j != slot implies bit(before, j) == bit(after, j) by {
                if j / 64 == index as int {
                    lemma_clear_bit(word, shift, (j % 64) as u64);
                }
            }
            lemma_clear_bit(word, shift, shift);
            assert(!bit(after, slot as int));
            lemma_count_change(before, after, slot as int, (n * n) as nat);
        }
        let new_count = if removed {
            self.edge_count - 1
        } else {
            self.edge_count
        };
        self.words.set(index, updated);
        self.edge_count = new_count;
        proof {
            assert(self@.cells =~= old(self)@.cells.update(slot as int, false)) by {
                assert forall|j: int| 0 <= j < n * n implies self@.cells[j] == old(self)@.cells.update(
                    slot as int,
                    false,
                )[j] by {
                    if j != slot {
                        assert(bit(before, j) == bit(self.words@, j));
                    }
                }
            }
        }
        removed
    }

    /// The targets of `source`'s relations, in increasing order; empty for
    /// a source outside the matrix.
    pub fn outgoing(&self, source: NodeIndex) -> (r: Vec<NodeIndex>)
        requires
            self.wf(),
        ensures
            node_ints(r@) == nodes_where(self@.size, |t: int| self@.has(source.0 as int, t)),
    {
        let n = self.node_count();
        let mut out: Vec<NodeIndex> = Vec::new();
        let mut t: usize = 0;
        while t < n
            invariant
                self.wf(),
                n == self@.size <= u32::MAX,
                t <= n,
                node_ints(out@) == nodes_where(t as nat, |x: int| self@.has(source.0 as int, x)),
            decreases n - t,
        {
            let target = NodeIndex::new(t as u32);
            let present = self.contains(source, target);
            proof {
                lemma_node_ints_push(out@, target);
            }
            if present {
                out.push(target);
            }
            t = t + 1;
        }
        out
    }

    /// The sources of `target`'s relations, in increasing order; empty for
    /// a target outside the matrix.
    pub fn incoming(&self, target: NodeIndex) -> (r: Vec<NodeIndex>)
        requires
            self.wf(),
        ensures
            node_ints(r@) == nodes_where(self@.size, |s: int| self@.has(s, target.0 as int)),
    {
        let n = self.node_count();
        let mut out: Vec<NodeIndex> = Vec::new();
        let mut s: usize = 0;
        while s < n
            invariant
                self.wf(),
                n == self@.size <= u32::MAX,
                s <= n,
                node_ints(out@) == nodes_where(s as nat, |x: int| self@.has(x, target.0 as int)),
            decreases n - s,
        {
            let source = NodeIndex::new(s as u32);
            let present = self.contains(source, target);
            proof {
                lemma_node_ints_push(out@, source);
            }
            if present {
                out.push(source);
            }
            s = s + 1;
        }
        out
    }

    /// Every present relation, in cell order: by source, then by target.
    pub fn edges(&self) -> (r: Vec<EdgeEndpoints<NodeIndex>>)
        requires
            self.wf(),
        ensures
            pairs(r@) == set_pairs(self@, self@.size * self@.size),
    {
        let n = self.node_count();
        let ghost m = self@;
        let mut out: Vec<EdgeEndpoints<NodeIndex>> = Vec::new();
        let mut s: usize = 0;
        proof {
            assert(pairs(out@) =~= Seq::<(int, int)>::empty());
        }
        while s < n
            invariant
                self.wf(),
                m == self@,
                n == m.size <= u32::MAX,
                m.cells.len() == n * n,
                s <= n,
                pairs(out@) == set_pairs(m, (s * n) as nat),
            decreases n - s,
        {
            let mut t: usize = 0;
            proof {
                assert(s * n + 0 == s * n);
            }
            while t < n
                invariant
                    self.wf(),
                    m == self@,
                    n == m.size <= u32::MAX,
                    m.cells.len() == n * n,
                    s < n,
                    t <= n,
                    pairs(out@) == set_pairs(m, (s * n + t) as nat),
                decreases n - t,
            {
                let source = NodeIndex::new(s as u32);
                let target = NodeIndex::new(t as u32);
                let present = self.contains(source, target);
                proof {
                    lemma_slot(n as int, s as int, t as int);
                    let k = s * n + t;
                    assert(set_pairs(m, (k + 1) as nat) == if m.cells[k as int] {
                        set_pairs(m, k as nat).push((s as int, t as int))
                    } else {
                        set_pairs(m, k as nat)
                    });
                    crate::topology::lemma_pairs_push(out@, EdgeEndpoints { source, target });
                }
                if present {
                    out.push(EdgeEndpoints::new(source, target));
                }
                t = t + 1;
            }
            proof {
                assert(s * n + n == (s + 1) * n) by (nonlinear_arith);
            }
            s = s + 1;
        }
        out
    }

    /// The compact topology of the present relations, in cell order.
    pub fn to_topology(&self) -> (r: Result<Topology>)
        requires
            self.wf(),
        ensures
            exists|es: Seq<EdgeEndpoints<NodeIndex>>|
                pairs(es) == set_pairs(self@, self@.size * self@.size) && #[trigger] builds(
                    self@.size as usize,
                    es,
                    r,
                ),
    {
        let edges = self.edges();
        let ghost es = edges@;
        let r = Topology::try_from_edges(self.node_count(), edges);
        proof {
            assert(builds(self@.size as usize, es, r));
        }
        r
    }
}

} // verus!
