//! Graph6: a simple undirected graph as a printable record, its node
//! count followed by the upper triangle of its adjacency matrix, six bits
//! per character, column by column.
use crate::error::{GraphError, Result};
use crate::matrix::BitMatrix;
use crate::topology::{pairs, ubuilds, EdgeEndpoints, GraphModel, NodeIndex, UndirectedTopology};
use vstd::string::StrSliceExecFns;
use vstd::utf8::encode_utf8;
use crate::util::text_of;
use super::text::{is_white_space, lemma_trim_end, lemma_trim_start, trim_end, trim_start, white_space};
use vstd::prelude::*;

verus! {

/// The character for a six-bit value.
pub open spec fn sixel(v: int) -> u8 {
    (v + 63) as u8
}

/// The six-bit value of a Graph6 character, if it is one.
pub open spec fn six_value(b: u8) -> Option<int> {
    if 63 <= b <= 126 {
        Some(b - 63)
    } else {
        None
    }
}

/// The record head for `n` nodes: one character up to 62 nodes, `~` and
/// three characters up to 258047, `~~` and six characters beyond.
pub open spec fn header_bytes(n: int) -> Seq<u8> {
    if n <= 62 {
        seq![sixel(n)]
    } else if n <= 258047 {
        seq![126u8, sixel(n / 4096 % 64), sixel(n / 64 % 64), sixel(n % 64)]
    } else {
        seq![
            126u8,
            126u8,
            sixel(n / 1073741824 % 64),
            sixel(n / 16777216 % 64),
            sixel(n / 262144 % 64),
            sixel(n / 4096 % 64),
            sixel(n / 64 % 64),
            sixel(n % 64),
        ]
    }
}

/// Bit `k` as a number; bits past the end are zero.
pub open spec fn bit_at(bits: Seq<bool>, k: int) -> int {
    if 0 <= k < bits.len() && bits[k] {
        1
    } else {
        0
    }
}

/// The first `w` bits from `start`, most significant first.
pub open spec fn bits_value(bits: Seq<bool>, start: int, w: nat) -> int
    decreases w,
{
    if w == 0 {
        0
    } else {
        2 * bits_value(bits, start, (w - 1) as nat) + bit_at(bits, start + w - 1)
    }
}

/// The value of character `i` of the payload.
pub open spec fn group_value(bits: Seq<bool>, i: int) -> int {
    bits_value(bits, 6 * i, 6)
}

/// How many characters hold `len` bits.
pub open spec fn payload_len(len: int) -> int {
    (len + 5) / 6
}

/// The payload characters for `bits`, zero-padded to whole characters.
pub open spec fn payload_bytes(bits: Seq<bool>) -> Seq<u8> {
    Seq::new(payload_len(bits.len() as int) as nat, |i: int| sixel(group_value(bits, i)))
}

/// The record of a graph on `n` nodes with upper-triangle bits `bits`.
pub open spec fn graph6_bytes(n: int, bits: Seq<bool>) -> Seq<u8> {
    header_bytes(n) + payload_bytes(bits)
}

/// How many node pairs a graph on `n` nodes has.
pub open spec fn pair_count(n: int) -> int {
    n * (n - 1) / 2
}

/// The position of pair `left < right` among the upper-triangle bits,
/// column by column.
pub open spec fn pair_slot(left: int, right: int) -> int {
    right * (right - 1) / 2 + left
}

/// The value of `count` characters from `offset`, six bits each, most
/// significant first; `None` when one is missing or outside the alphabet.
pub open spec fn groups_value(bytes: Seq<u8>, offset: int, count: nat) -> Option<int>
    decreases count,
{
    if count == 0 {
        Some(0)
    } else {
        match (groups_value(bytes, offset, (count - 1) as nat), if 0 <= offset + count - 1 < bytes.len() {
            six_value(bytes[offset + count - 1])
        } else {
            None
        }) {
            (Some(a), Some(b)) => Some(a * 64 + b),
            _ => None,
        }
    }
}

/// The node count and where the payload starts, read from the head.
pub open spec fn parse_header(bytes: Seq<u8>) -> Option<(int, int)> {
    if bytes.len() == 0 {
        None
    } else if bytes[0] != 126u8 {
        match six_value(bytes[0]) {
            Some(v) => Some((v, 1)),
            None => None,
        }
    } else if bytes.len() < 2 || bytes[1] != 126u8 {
        match groups_value(bytes, 1, 3) {
            Some(v) => Some((v, 4)),
            None => None,
        }
    } else {
        match groups_value(bytes, 2, 6) {
            Some(v) => Some((v, 8)),
            None => None,
        }
    }
}

/// `2` to the power `p`, for `p` up to six.
pub open spec fn two_to(p: int) -> int {
    if p <= 0 {
        1
    } else if p == 1 {
        2
    } else if p == 2 {
        4
    } else if p == 3 {
        8
    } else if p == 4 {
        16
    } else if p == 5 {
        32
    } else {
        64
    }
}

/// Bit `k` of the payload `values`, six to a value, most significant first.
pub open spec fn payload_bit(values: Seq<int>, k: int) -> bool {
    values[k / 6] / two_to(5 - k % 6) % 2 == 1
}

/// The node count and upper-triangle bits that a record holds, or `None`
/// for a malformed record: a bad head, a count whose pairs do not fit
/// `usize`, a payload of the wrong length or outside the alphabet, or
/// padding bits that are not zero.
pub open spec fn graph6_parse(bytes: Seq<u8>) -> Option<(nat, Seq<bool>)> {
    match parse_header(bytes) {
        None => None,
        Some((n, offset)) => {
            let bits = pair_count(n);
            let len = payload_len(bits);
            let values = Seq::new(len as nat, |i: int| (bytes[offset + i] - 63) as int);
            if n > usize::MAX || n * (if n > 0 { n - 1 } else { 0 }) > usize::MAX || bits + 5 > usize::MAX {
                None
            } else if bytes.len() != offset + len {
                None
            } else if exists|i: int| 0 <= i < len && #[trigger] six_value(bytes[offset + i]) is None {
                None
            } else if len > 0 && bits % 6 != 0 && values[len - 1] % two_to(6 - bits % 6) != 0 {
                None
            } else {
                Some((n as nat, Seq::new(bits as nat, |k: int| payload_bit(values, k))))
            }
        },
    }
}

proof fn lemma_bits_value_bound(bits: Seq<bool>, start: int, w: nat)
    requires
        w <= 6,
    ensures
        0 <= bits_value(bits, start, w) < two_to(w as int),
    decreases w,
{
    if w > 0 {
        lemma_bits_value_bound(bits, start, (w - 1) as nat);
    }
}

/// A payload character spelled out bit by bit.
proof fn lemma_group_expanded(bits: Seq<bool>, i: int)
    ensures
        group_value(bits, i) == 32 * bit_at(bits, 6 * i) + 16 * bit_at(bits, 6 * i + 1) + 8 * bit_at(bits, 6 * i + 2)
            + 4 * bit_at(bits, 6 * i + 3) + 2 * bit_at(bits, 6 * i + 4) + bit_at(bits, 6 * i + 5),
{
    reveal_with_fuel(bits_value, 7);
}

/// Each bit of a payload character reads back.
proof fn lemma_group_bit(bits: Seq<bool>, i: int, j: int)
    requires
        0 <= j < 6,
    ensures
        group_value(bits, i) / two_to(5 - j) % 2 == bit_at(bits, 6 * i + j),
{
    lemma_group_expanded(bits, i);
    let b0 = bit_at(bits, 6 * i);
    let b1 = bit_at(bits, 6 * i + 1);
    let b2 = bit_at(bits, 6 * i + 2);
    let b3 = bit_at(bits, 6 * i + 3);
    let b4 = bit_at(bits, 6 * i + 4);
    let b5 = bit_at(bits, 6 * i + 5);
    let v = group_value(bits, i);
    assert(0 <= b0 <= 1 && 0 <= b1 <= 1 && 0 <= b2 <= 1 && 0 <= b3 <= 1 && 0 <= b4 <= 1 && 0 <= b5 <= 1);
    if j == 0 {
        assert(v / 32 == b0);
    } else if j == 1 {
        assert(v / 16 == 2 * b0 + b1);
    } else if j == 2 {
        assert(v / 8 == 4 * b0 + 2 * b1 + b2);
    } else if j == 3 {
        assert(v / 4 == 8 * b0 + 4 * b1 + 2 * b2 + b3);
    } else if j == 4 {
        assert(v / 2 == 16 * b0 + 8 * b1 + 4 * b2 + 2 * b3 + b4);
    } else {
        assert(v / 1 == v);
    }
}

/// Six characters read back as the value that they spell.
proof fn lemma_groups_value(bytes: Seq<u8>, offset: int, count: nat, digits: Seq<int>)
    requires
        0 <= offset,
        offset + count <= bytes.len(),
        digits.len() == count,
        forall|i: int| 0 <= i < count ==> 0 <= #[trigger] digits[i] < 64 && bytes[offset + i] == sixel(digits[i]),
    ensures
        groups_value(bytes, offset, count) == Some(digits_value(digits)),
    decreases count,
{
    if count > 0 {
        lemma_groups_value(bytes, offset, (count - 1) as nat, digits.drop_last());
        assert(six_value(bytes[offset + count - 1]) == Some(digits[count - 1]));
    }
}

/// The value of base-64 digits, most significant first.
pub open spec fn digits_value(digits: Seq<int>) -> int
    decreases digits.len(),
{
    if digits.len() == 0 {
        0
    } else {
        digits_value(digits.drop_last()) * 64 + digits.last()
    }
}

/// The head of a record reads back as its node count.
proof fn lemma_header_roundtrip(n: int, rest: Seq<u8>)
    requires
        0 <= n <= 68719476735,
    ensures
        parse_header(header_bytes(n) + rest) == Some((n, header_bytes(n).len() as int)),
{
    let bytes = header_bytes(n) + rest;
    if n <= 62 {
        assert(bytes[0] == sixel(n));
    } else if n <= 258047 {
        let digits = seq![n / 4096 % 64, n / 64 % 64, n % 64];
        assert(n / 4096 < 63);
        assert(bytes[1] == sixel(n / 4096 % 64));
        assert forall|i: int| 0 <= i < 3 implies 0 <= #[trigger] digits[i] < 64 && bytes[1 + i] == sixel(digits[i]) by {
        }
        lemma_groups_value(bytes, 1, 3, digits);
        assert(digits.drop_last().drop_last().drop_last() =~= Seq::<int>::empty());
        assert(digits.drop_last().drop_last() =~= seq![n / 4096 % 64]);
        assert(digits.drop_last() =~= seq![n / 4096 % 64, n / 64 % 64]);
        assert(digits_value(Seq::<int>::empty()) == 0);
        assert(digits_value(digits.drop_last().drop_last()) == n / 4096 % 64);
        assert(digits_value(digits.drop_last()) == (n / 4096 % 64) * 64 + n / 64 % 64);
        assert(digits_value(digits) == ((n / 4096 % 64) * 64 + n / 64 % 64) * 64 + n % 64);
        lemma_base64_split(n);
        lemma_base64_split(n / 64);
        assert(n / 64 / 64 == n / 4096) by {
            vstd::arithmetic::div_mod::lemma_div_denominator(n, 64, 64);
        }
    } else {
        let digits = seq![
            n / 1073741824 % 64,
            n / 16777216 % 64,
            n / 262144 % 64,
            n / 4096 % 64,
            n / 64 % 64,
            n % 64,
        ];
        assert forall|i: int| 0 <= i < 6 implies 0 <= #[trigger] digits[i] < 64 && bytes[2 + i] == sixel(digits[i]) by {
        }
        lemma_groups_value(bytes, 2, 6, digits);
        let d5 = digits.drop_last();
        let d4 = d5.drop_last();
        let d3 = d4.drop_last();
        let d2 = d3.drop_last();
        let d1 = d2.drop_last();
        assert(d1.drop_last() =~= Seq::<int>::empty());
        assert(d1 =~= seq![n / 1073741824 % 64]);
        assert(d2 =~= seq![n / 1073741824 % 64, n / 16777216 % 64]);
        assert(d3 =~= seq![n / 1073741824 % 64, n / 16777216 % 64, n / 262144 % 64]);
        assert(d4 =~= seq![n / 1073741824 % 64, n / 16777216 % 64, n / 262144 % 64, n / 4096 % 64]);
        assert(d5 =~= seq![n / 1073741824 % 64, n / 16777216 % 64, n / 262144 % 64, n / 4096 % 64, n / 64 % 64]);
        assert(digits_value(Seq::<int>::empty()) == 0);
        assert(digits_value(d1) == n / 1073741824 % 64);
        assert(digits_value(d2) == digits_value(d1) * 64 + n / 16777216 % 64);
        assert(digits_value(d3) == digits_value(d2) * 64 + n / 262144 % 64);
        assert(digits_value(d4) == digits_value(d3) * 64 + n / 4096 % 64);
        assert(digits_value(d5) == digits_value(d4) * 64 + n / 64 % 64);
        assert(digits_value(digits) == digits_value(d5) * 64 + n % 64);
        let q1 = n / 64;
        let q2 = q1 / 64;
        let q3 = q2 / 64;
        let q4 = q3 / 64;
        let q5 = q4 / 64;
        lemma_base64_split(n);
        lemma_base64_split(q1);
        lemma_base64_split(q2);
        lemma_base64_split(q3);
        lemma_base64_split(q4);
        vstd::arithmetic::div_mod::lemma_div_denominator(n, 64, 64);
        vstd::arithmetic::div_mod::lemma_div_denominator(n, 4096, 64);
        vstd::arithmetic::div_mod::lemma_div_denominator(n, 262144, 64);
        vstd::arithmetic::div_mod::lemma_div_denominator(n, 16777216, 64);
        assert(q2 == n / 4096);
        assert(q3 == n / 262144);
        assert(q4 == n / 16777216);
        assert(q5 == n / 1073741824);
        assert(q5 < 64);
        assert(digits_value(digits) == n);
    }
}

proof fn lemma_base64_split(n: int)
    requires
        n >= 0,
    ensures
        n == (n / 64) * 64 + n % 64,
        0 <= n % 64 < 64,
        n / 64 >= 0,
{
}

/// The padding of the last character of a payload is zero.
proof fn lemma_padding_zero(bits: Seq<bool>, i: int, used: int)
    requires
        0 < used < 6,
        6 * i + used == bits.len(),
    ensures
        group_value(bits, i) % two_to(6 - used) == 0,
{
    lemma_group_expanded(bits, i);
    let b0 = bit_at(bits, 6 * i);
    let b1 = bit_at(bits, 6 * i + 1);
    let b2 = bit_at(bits, 6 * i + 2);
    let b3 = bit_at(bits, 6 * i + 3);
    let b4 = bit_at(bits, 6 * i + 4);
    assert(bit_at(bits, 6 * i + 5) == 0);
    if used == 1 {
        assert(b1 == 0 && b2 == 0 && b3 == 0 && b4 == 0);
        assert(group_value(bits, i) == 32 * b0);
    } else if used == 2 {
        assert(b2 == 0 && b3 == 0 && b4 == 0);
        assert(group_value(bits, i) == 16 * (2 * b0 + b1));
    } else if used == 3 {
        assert(b3 == 0 && b4 == 0);
        assert(group_value(bits, i) == 8 * (4 * b0 + 2 * b1 + b2));
    } else if used == 4 {
        assert(b4 == 0);
        assert(group_value(bits, i) == 4 * (8 * b0 + 4 * b1 + 2 * b2 + b3));
    } else {
        assert(group_value(bits, i) == 2 * (16 * b0 + 8 * b1 + 4 * b2 + 2 * b3 + b4));
    }
}

proof fn lemma_decoded_bits(bits: Seq<bool>, values: Seq<int>)
    requires
        values.len() == payload_len(bits.len() as int),
        forall|i: int| 0 <= i < values.len() ==> #[trigger] values[i] == group_value(bits, i),
    ensures
        Seq::new(bits.len(), |k: int| payload_bit(values, k)) == bits,
{
    let decoded = Seq::new(bits.len(), |k: int| payload_bit(values, k));
    assert forall|k: int| 0 <= k < bits.len() implies #[trigger] decoded[k] == bits[k] by {
        assert(0 <= k / 6 < values.len());
        lemma_group_bit(bits, k / 6, k % 6);
        assert(6 * (k / 6) + k % 6 == k);
    }
    assert(decoded =~= bits);
}

proof fn lemma_payload_values(bits: Seq<bool>, bytes: Seq<u8>, h: int)
    requires
        0 <= h,
        bytes.len() == h + payload_len(bits.len() as int),
        forall|i: int| 0 <= i < payload_len(bits.len() as int) ==> bytes[h + i] == #[trigger] payload_bytes(bits)[i],
    ensures
        forall|i: int|
            0 <= i < payload_len(bits.len() as int) ==> #[trigger] six_value(bytes[h + i]) is Some && (bytes[h + i]
                - 63) as int == group_value(bits, i),
{
    assert forall|i: int| 0 <= i < payload_len(bits.len() as int) implies #[trigger] six_value(bytes[h + i]) is Some
        && (bytes[h + i] - 63) as int == group_value(bits, i) by {
        lemma_bits_value_bound(bits, 6 * i, 6);
        assert(bytes[h + i] == payload_bytes(bits)[i]);
    }
}

/// A record written for `n` nodes and `bits` reads back as exactly them.
#[verifier::rlimit(80)]
#[verifier::spinoff_prover]
pub proof fn lemma_parse_written(n: int, bits: Seq<bool>)
    requires
        0 <= n <= 68719476735,
        n <= usize::MAX,
        n * (if n > 0 { n - 1 } else { 0 }) <= usize::MAX,
        pair_count(n) + 5 <= usize::MAX,
        bits.len() == pair_count(n),
    ensures
        graph6_parse(graph6_bytes(n, bits)) == Some((n as nat, bits)),
{
    let payload = payload_bytes(bits);
    let bytes = graph6_bytes(n, bits);
    lemma_header_roundtrip(n, payload);
    let h = header_bytes(n).len() as int;
    let count = pair_count(n);
    let len = payload_len(count);
    assert(bytes.len() == h + len);
    assert forall|i: int| 0 <= i < len implies bytes[h + i] == #[trigger] payload_bytes(bits)[i] by {
    }
    lemma_payload_values(bits, bytes, h);
    let values = Seq::new(len as nat, |i: int| (bytes[h + i] - 63) as int);
    let groups = Seq::new(len as nat, |i: int| group_value(bits, i));
    assert forall|i: int| 0 <= i < len implies #[trigger] values[i] == groups[i] by {
        assert(six_value(bytes[h + i]) is Some);
    }
    assert(values =~= groups);
    lemma_decoded_bits(bits, groups);
    if len > 0 && count % 6 != 0 {
        assert(6 * (len - 1) + count % 6 == count);
        lemma_padding_zero(bits, len - 1, count % 6);
        assert(values[len - 1] % two_to(6 - count % 6) == 0);
    }
    assert(!(exists|i: int| 0 <= i < len && #[trigger] six_value(bytes[h + i]) is None));
}

/// Some edge joins `left` and `right`, either way round.
pub open spec fn joins(g: GraphModel, left: int, right: int) -> bool {
    exists|e: int|
        0 <= e < g.edges.len() && ((#[trigger] g.edges[e].0 == left && g.edges[e].1 == right) || (g.edges[e].0
            == right && g.edges[e].1 == left))
}

/// `bits` are the upper-triangle bits of `g`: one per pair of nodes,
/// set exactly for joined pairs.
pub open spec fn triangle_of(g: GraphModel, bits: Seq<bool>) -> bool {
    &&& bits.len() == pair_count(g.node_count as int)
    &&& forall|left: int, right: int|
        0 <= left < right < g.node_count ==> #[trigger] bits[pair_slot(left, right)] == joins(g, left, right)
}

/// The two edges join the same pair of nodes.
pub open spec fn same_pair(a: (int, int), b: (int, int)) -> bool {
    (a.0 == b.0 && a.1 == b.1) || (a.0 == b.1 && a.1 == b.0)
}

/// Edge `e` is a loop or repeats the pair of an earlier edge.
pub open spec fn unwritable(g: GraphModel, e: int) -> bool {
    ||| g.edges[e].0 == g.edges[e].1
    ||| exists|f: int| 0 <= f < e && #[trigger] same_pair(g.edges[f], g.edges[e])
}

/// The error for the first edge that Graph6 cannot hold.
pub open spec fn unwritable_error(g: GraphModel, e: int) -> GraphError {
    GraphError::UnsupportedGraphFeature {
        format: "Graph6",
        feature: if g.edges[e].0 == g.edges[e].1 {
            "self-loops"
        } else {
            "parallel edges"
        },
    }
}

/// The text of a record: its bytes as characters.
pub open spec fn record_text(bytes: Seq<u8>) -> Seq<char> {
    bytes.map_values(|b: u8| b as char)
}

proof fn lemma_slot_bounds(left: int, right: int, n: int)
    requires
        0 <= left < right < n,
    ensures
        0 <= pair_slot(left, right) < pair_count(n),
        pair_slot(left, right) + 1 == pair_slot(left + 1, right) || left + 1 == right,
        pair_slot(0, right) + right == pair_slot(0, right + 1),
        right * (right - 1) / 2 >= 0,
{
    assert(right * (right - 1) / 2 + right == (right + 1) * right / 2) by (nonlinear_arith)
        requires
            right >= 1,
    ;
    assert(right * (right - 1) >= 0) by (nonlinear_arith)
        requires
            right >= 1,
    ;
    assert((right + 1) * right / 2 <= n * (n - 1) / 2) by (nonlinear_arith)
        requires
            right + 1 <= n,
            right >= 1,
    ;
}

proof fn lemma_shift_in(v: u8, b: u8)
    requires
        v < 32,
        b <= 1,
    ensures
        (v << 1u8) | b == 2 * v + b,
        2 * v + b < 64,
{
    assert((v << 1u8) | b == 2 * v + b) by (bit_vector)
        requires
            v < 32,
            b <= 1,
    ;
}

/// Bits past a prefix leave the values of groups inside it unchanged.
proof fn lemma_bits_value_prefix(a: Seq<bool>, b: Seq<bool>, start: int, w: nat)
    requires
        0 <= start,
        start + w <= a.len(),
        a.len() <= b.len(),
        forall|k: int| 0 <= k < a.len() ==> a[k] == b[k],
    ensures
        bits_value(a, start, w) == bits_value(b, start, w),
    decreases w,
{
    if w > 0 {
        lemma_bits_value_prefix(a, b, start, (w - 1) as nat);
    }
}

/// The payload characters of a prefix of whole groups.
spec fn packed(bits: Seq<bool>, groups: nat) -> Seq<u8> {
    Seq::new(groups, |i: int| sixel(group_value(bits, i)))
}

/// The head of the record for `node_count` nodes, as characters.
fn header_chars(node_count: usize, out: &mut Vec<char>)
    requires
        node_count <= 68719476735,
    ensures
        final(out)@ == old(out)@ + record_text(header_bytes(node_count as int)),
{
    let n = node_count as u64;
    if n <= 62 {
        out.push(((n + 63) as u8) as char);
    } else if n <= 258047 {
        out.push('~');
        out.push(((n / 4096 % 64 + 63) as u8) as char);
        out.push(((n / 64 % 64 + 63) as u8) as char);
        out.push(((n % 64 + 63) as u8) as char);
    } else {
        out.push('~');
        out.push('~');
        out.push(((n / 1073741824 % 64 + 63) as u8) as char);
        out.push(((n / 16777216 % 64 + 63) as u8) as char);
        out.push(((n / 262144 % 64 + 63) as u8) as char);
        out.push(((n / 4096 % 64 + 63) as u8) as char);
        out.push(((n / 64 % 64 + 63) as u8) as char);
        out.push(((n % 64 + 63) as u8) as char);
    }
    assert(final(out)@ =~= old(out)@ + record_text(header_bytes(node_count as int)));
}

/// Appending a bit leaves every whole group before it unchanged.
proof fn lemma_packed_push(bits: Seq<bool>, b: bool)
    ensures
        packed(bits.push(b), bits.len() / 6) == packed(bits, bits.len() / 6),
{
    let after = bits.push(b);
    assert forall|i: int| 0 <= i < bits.len() / 6 implies #[trigger] group_value(after, i) == group_value(bits, i) by {
        assert(6 * i + 6 <= bits.len());
        lemma_bits_value_prefix(bits, after, 6 * i, 6);
    }
    assert(packed(after, bits.len() / 6) =~= packed(bits, bits.len() / 6));
}

/// Writes `graph` as one Graph6 record.
///
/// # Errors
///
/// Returns an error for a loop or a repeated pair of nodes, which Graph6
/// cannot hold, and when the adjacency matrix does not fit memory indexes.
pub fn graph6_encode(graph: &UndirectedTopology) -> (r: Result<String>)
    ensures
        match r {
            Ok(s) => {
                &&& graph@.node_count * graph@.node_count + 63 <= usize::MAX
                &&& forall|e: int| 0 <= e < graph@.edges.len() ==> !#[trigger] unwritable(graph@, e)
                &&& exists|bits: Seq<bool>|
                    triangle_of(graph@, bits) && s@ == record_text(graph6_bytes(graph@.node_count as int, bits))
            },
            Err(err) => {
                ||| graph@.node_count * graph@.node_count + 63 > usize::MAX && err matches GraphError::ArithmeticOverflow {
                    ..
                }
                ||| graph@.node_count * graph@.node_count + 63 <= usize::MAX && exists|e: int|
                    0 <= e < graph@.edges.len() && #[trigger] unwritable(graph@, e) && err == unwritable_error(graph@, e)
                        && forall|f: int| 0 <= f < e ==> !#[trigger] unwritable(graph@, f)
            },
        },
{
    let ghost g = graph@;
    let n = graph.node_count();
    let mut seen = match BitMatrix::try_new(n) {
        Ok(m) => m,
        Err(e) => {
            return Err(e);
        },
    };
    let endpoints = graph.endpoints();
    let mut i: usize = 0;
    proof {
        seen.lemma_cells();
        assert forall|l: int, r: int| 0 <= l < n && 0 <= r < n implies !#[trigger] seen@.has(l, r) by {
            assert(0 <= l * n + r < n * n) by (nonlinear_arith)
                requires
                    0 <= l < n,
                    0 <= r < n,
            ;
        }
    }
    while i < endpoints.len()
        invariant
            g == graph@,
            n == g.node_count,
            g.valid(),
            n <= u32::MAX,
            n * n + 63 <= usize::MAX,
            seen.wf(),
            seen@.size == n,
            pairs(endpoints@) == g.edges,
            i <= endpoints@.len(),
            forall|f: int| 0 <= f < i ==> !#[trigger] unwritable(g, f),
            forall|l: int, r: int|
                #![trigger seen@.has(l, r)]
                0 <= l < n && 0 <= r < n ==> (seen@.has(l, r) <==> (l < r && exists|f: int|
                    0 <= f < i && #[trigger] same_pair(g.edges[f], (l, r)))),
        decreases endpoints@.len() - i,
    {
        let a = endpoints[i].source.index();
        let b = endpoints[i].target.index();
        proof {
            assert(g.edges[i as int] == (a as int, b as int));
        }
        if a == b {
            proof {
                assert(unwritable(g, i as int));
            }
            return Err(GraphError::UnsupportedGraphFeature { format: "Graph6", feature: "self-loops" });
        }
        let (lo, hi) = if a < b {
            (a, b)
        } else {
            (b, a)
        };
        let ghost before = seen@;
        proof {
            seen.lemma_cells();
        }
        match seen.insert(NodeIndex::new(lo as u32), NodeIndex::new(hi as u32)) {
            Ok(added) => {
                if !added {
                    proof {
                        assert(before.has(lo as int, hi as int));
                        let f = choose|f: int| 0 <= f < i && #[trigger] same_pair(g.edges[f], (lo as int, hi as int));
                        assert(same_pair(g.edges[f], g.edges[i as int]));
                        assert(unwritable(g, i as int));
                    }
                    return Err(GraphError::UnsupportedGraphFeature { format: "Graph6", feature: "parallel edges" });
                }
                proof {
                    assert(!unwritable(g, i as int)) by {
                        if exists|f: int| 0 <= f < i && #[trigger] same_pair(g.edges[f], g.edges[i as int]) {
                            let f = choose|f: int| 0 <= f < i && #[trigger] same_pair(g.edges[f], g.edges[i as int]);
                            assert(same_pair(g.edges[f], (lo as int, hi as int)));
                            assert(before.has(lo as int, hi as int));
                        }
                    }
                    assert forall|l: int, r: int|
                        #![trigger seen@.has(l, r)]
                        0 <= l < n && 0 <= r < n implies (seen@.has(l, r) <==> (l < r && exists|f: int|
                            0 <= f < i + 1 && #[trigger] same_pair(g.edges[f], (l, r)))) by {
                        crate::laws::bit_matrix_reads_back_an_insert(before, seen@, lo as int, hi as int, l, r);
                        if l == lo && r == hi {
                            assert(same_pair(g.edges[i as int], (l, r)));
                        }
                        if before.has(l, r) {
                            let f = choose|f: int| 0 <= f < i && #[trigger] same_pair(g.edges[f], (l, r));
                            assert(same_pair(g.edges[f], (l, r)));
                        }
                        if l < r && exists|f: int| 0 <= f < i + 1 && #[trigger] same_pair(g.edges[f], (l, r)) {
                            let f = choose|f: int| 0 <= f < i + 1 && #[trigger] same_pair(g.edges[f], (l, r));
                            if f < i {
                                assert(before.has(l, r));
                            }
                        }
                    }
                }
            },
            Err(e) => {
                proof {
                    assert(false);
                }
                return Err(e);
            },
        }
        i += 1;
    }
    proof {
        assert forall|l: int, r: int| 0 <= l < r < n implies (#[trigger] seen@.has(l, r) <==> joins(g, l, r)) by {
            if joins(g, l, r) {
                let e = choose|e: int|
                    0 <= e < g.edges.len() && ((#[trigger] g.edges[e].0 == l && g.edges[e].1 == r) || (g.edges[e].0
                        == r && g.edges[e].1 == l));
                assert(same_pair(g.edges[e], (l, r)));
            }
            if seen@.has(l, r) {
                let f = choose|f: int| 0 <= f < endpoints@.len() && #[trigger] same_pair(g.edges[f], (l, r));
                assert(0 <= f < g.edges.len());
            }
        }
    }
    let mut out: Vec<char> = Vec::new();
    header_chars(n, &mut out);
    let ghost head = out@;
    let ghost mut bits: Seq<bool> = Seq::empty();
    let mut value: u8 = 0;
    let mut width: u8 = 0;
    let mut right: usize = 1;
    proof {
        assert(packed(bits, 0nat) =~= Seq::<u8>::empty());
        assert(record_text(Seq::<u8>::empty()) =~= Seq::<char>::empty());
        assert(head =~= record_text(header_bytes(n as int)));
    }
    while right < n
        invariant
            g == graph@,
            n == g.node_count,
            n <= u32::MAX,
            seen.wf(),
            seen@.size == n,
            forall|l: int, r: int| 0 <= l < r < n ==> (#[trigger] seen@.has(l, r) <==> joins(g, l, r)),
            1 <= right,
            right <= n || (n == 0 && right == 1),
            bits.len() == pair_slot(0, right as int),
            forall|l: int, r: int| 0 <= l < r < right ==> #[trigger] bits[pair_slot(l, r)] == joins(g, l, r),
            width < 6,
            width == bits.len() % 6,
            value == bits_value(bits, bits.len() - width, width as nat),
            head == record_text(header_bytes(n as int)),
            out@ == head + record_text(packed(bits, bits.len() / 6)),
        decreases n - right,
    {
        let mut left: usize = 0;
        proof {
            lemma_slot_bounds(0, right as int, right + 1);
        }
        while left < right
            invariant
                g == graph@,
                n == g.node_count,
                n <= u32::MAX,
                seen.wf(),
                seen@.size == n,
                forall|l: int, r: int| 0 <= l < r < n ==> (#[trigger] seen@.has(l, r) <==> joins(g, l, r)),
                1 <= right < n,
                left <= right,
                bits.len() == pair_slot(left as int, right as int),
                forall|l: int, r: int|
                    0 <= l < r <= right && (r < right || l < left) ==> #[trigger] bits[pair_slot(l, r)] == joins(
                        g,
                        l,
                        r,
                    ),
                width < 6,
                width == bits.len() % 6,
                value == bits_value(bits, bits.len() - width, width as nat),
                head == record_text(header_bytes(n as int)),
                out@ == head + record_text(packed(bits, bits.len() / 6)),
            decreases right - left,
        {
            let bit = seen.contains(NodeIndex::new(left as u32), NodeIndex::new(right as u32));
            let ghost before = bits;
            proof {
                lemma_packed_push(before, bit);
                bits = bits.push(bit);
                lemma_bits_value_prefix(before, bits, before.len() - width, width as nat);
                assert forall|l: int, r: int|
                    0 <= l < r <= right && (r < right || l < left + 1) implies #[trigger] bits[pair_slot(l, r)] == joins(
                    g,
                    l,
                    r,
                ) by {
                    lemma_slot_bounds(l, r, right + 1);
                    if r == right && l == left {
                    } else {
                        if r < right {
                            assert(pair_slot(l, r) < pair_slot(0, right as int)) by {
                                lemma_slot_bounds(l, r, right as int);
                                lemma_slot_bounds(0, right as int, right + 1);
                            }
                        }
                        assert(pair_slot(l, r) < before.len());
                    }
                }
            }
            let b: u8 = if bit {
                1
            } else {
                0
            };
            proof {
                lemma_bits_value_bound(before, before.len() - width, width as nat);
                lemma_shift_in(value, b);
            }
            value = (value << 1u8) | b;
            width = width + 1;
            if width == 6 {
                proof {
                    assert(group_value(bits, (before.len() / 6) as int) == value);
                    assert(packed(bits, bits.len() / 6) =~= packed(bits, before.len() / 6).push(sixel(value as int)));
                    assert(packed(bits, before.len() / 6) == packed(before, before.len() / 6));
                }
                out.push((value + 63) as char);
                value = 0;
                width = 0;
                proof {
                    assert(record_text(packed(bits, bits.len() / 6)) =~= record_text(packed(before, before.len() / 6)).push(
                        ((sixel(group_value(bits, (before.len() / 6) as int))) as char),
                    ));
                }
            } else {
                proof {
                    assert(bits.len() / 6 == before.len() / 6);
                }
            }
            left += 1;
            proof {
                lemma_slot_bounds(left as int - 1, right as int, right + 1);
            }
        }
        right += 1;
    }
    proof {
        if n >= 1 {
            assert(pair_count(n as int) == pair_slot(0, n as int));
        } else {
            assert(n == 0);
            assert(pair_count(0) == 0) by (nonlinear_arith);
        }
        assert(bits.len() == pair_count(n as int));
    }
    if width != 0 {
        let ghost w0 = width;
        let ghost v0 = value;
        proof {
            lemma_bits_value_bound(bits, bits.len() - width, width as nat);
        }
        while width < 6
            invariant
                0 < width <= 6,
                w0 == bits.len() % 6,
                0 < w0,
                width >= w0,
                value == bits_value(bits, bits.len() - w0, width as nat),
                value < two_to(width as int),
            decreases 6 - width,
        {
            proof {
                lemma_shift_in(value, 0);
            }
            value = (value << 1u8) | 0;
            width = width + 1;
        }
        out.push((value + 63) as char);
        proof {
            assert(payload_bytes(bits) =~= packed(bits, bits.len() / 6).push(sixel(value as int)));
        }
    } else {
        proof {
            assert(payload_bytes(bits) =~= packed(bits, bits.len() / 6));
        }
    }
    proof {
        assert(out@ =~= record_text(graph6_bytes(n as int, bits)));
        assert(triangle_of(g, bits));
    }
    Ok(text_of(out))
}

/// The marker that may open a record.
pub open spec fn marker() -> Seq<char> {
    seq!['>', '>', 'g', 'r', 'a', 'p', 'h', '6', '<', '<']
}

/// The record in an input: trimmed, without its opening marker.
pub open spec fn record_of(input: Seq<char>) -> Seq<char> {
    let t = trim_end(trim_start(input));
    if t.len() >= 10 && t.subrange(0, 10) == marker() {
        t.skip(10)
    } else {
        t
    }
}

/// The bytes of the record in an input.
pub open spec fn record_bytes(input: Seq<char>) -> Seq<u8> {
    encode_utf8(record_of(input))
}

/// `es` are the pairs `left < right` whose bits are set, in bit order.
pub open spec fn column_edges(n: int, bits: Seq<bool>, es: Seq<(int, int)>) -> bool {
    &&& forall|i: int| 0 <= i < es.len() ==> 0 <= (#[trigger] es[i]).0 < es[i].1 < n
    &&& forall|i: int, j: int|
        0 <= i < j < es.len() ==> pair_slot((#[trigger] es[i]).0, es[i].1) < pair_slot((#[trigger] es[j]).0, es[j].1)
    &&& forall|l: int, r: int|
        0 <= l < r < n ==> (es.contains((l, r)) <==> bits[#[trigger] pair_slot(l, r)])
}

/// The error for a malformed record.
pub open spec fn format_error(e: GraphError) -> bool {
    e matches GraphError::InvalidFormat { format, .. } && format == "Graph6"
}

/// The record of `input`: trimmed, without its opening marker.
fn record_text_of(input: &str) -> (r: &str)
    ensures
        r@ == record_of(input@),
{
    let len = input.unicode_len();
    let mut start: usize = 0;
    while start < len && is_white_space(input.get_char(start))
        invariant
            len == input@.len(),
            start <= len,
            forall|k: int| 0 <= k < start ==> white_space(#[trigger] input@[k]),
        decreases len - start,
    {
        start += 1;
    }
    let mut end: usize = len;
    while end > start && is_white_space(input.get_char(end - 1))
        invariant
            len == input@.len(),
            start <= end <= len,
            forall|k: int| end <= k < len ==> white_space(#[trigger] input@[k]),
        decreases end - start,
    {
        end -= 1;
    }
    let trimmed = input.substring_char(start, end);
    proof {
        lemma_trim_start(input@, start as int);
        let t0 = input@.skip(start as int);
        assert forall|k: int| end - start <= k < t0.len() implies white_space(#[trigger] t0[k]) by {
            assert(t0[k] == input@[k + start]);
        }
        if end > start {
            assert(t0[end - start - 1] == input@[end - 1]);
        }
        lemma_trim_end(t0, end - start);
        assert(t0.take(end - start) =~= input@.subrange(start as int, end as int));
    }
    let tl = end - start;
    if tl >= 10 && trimmed.get_char(0) == '>' && trimmed.get_char(1) == '>' && trimmed.get_char(2) == 'g'
        && trimmed.get_char(3) == 'r' && trimmed.get_char(4) == 'a' && trimmed.get_char(5) == 'p'
        && trimmed.get_char(6) == 'h' && trimmed.get_char(7) == '6' && trimmed.get_char(8) == '<'
        && trimmed.get_char(9) == '<' {
        proof {
            assert(trimmed@.subrange(0, 10) =~= marker());
        }
        let r = trimmed.substring_char(10, tl);
        proof {
            assert(r@ =~= trimmed@.skip(10));
        }
        r
    } else {
        proof {
            if tl >= 10 && trimmed@.subrange(0, 10) == marker() {
                assert(trimmed@[0] == trimmed@.subrange(0, 10)[0]);
                assert(trimmed@[1] == trimmed@.subrange(0, 10)[1]);
                assert(trimmed@[2] == trimmed@.subrange(0, 10)[2]);
                assert(trimmed@[3] == trimmed@.subrange(0, 10)[3]);
                assert(trimmed@[4] == trimmed@.subrange(0, 10)[4]);
                assert(trimmed@[5] == trimmed@.subrange(0, 10)[5]);
                assert(trimmed@[6] == trimmed@.subrange(0, 10)[6]);
                assert(trimmed@[7] == trimmed@.subrange(0, 10)[7]);
                assert(trimmed@[8] == trimmed@.subrange(0, 10)[8]);
                assert(trimmed@[9] == trimmed@.subrange(0, 10)[9]);
            }
        }
        trimmed
    }
}

/// Pairs are ordered by column, then by row within a column.
proof fn lemma_slot_order(l: int, r: int, l2: int, r2: int)
    requires
        0 <= l < r,
        0 <= l2 < r2,
    ensures
        pair_slot(l, r) < pair_slot(l2, r2) <==> (r < r2 || (r == r2 && l < l2)),
        pair_slot(l, r) == pair_slot(l2, r2) <==> (r == r2 && l == l2),
{
    assert(r * (r - 1) / 2 + r == (r + 1) * r / 2) by (nonlinear_arith)
        requires
            r >= 1,
    ;
    assert(r2 * (r2 - 1) / 2 + r2 == (r2 + 1) * r2 / 2) by (nonlinear_arith)
        requires
            r2 >= 1,
    ;
    if r < r2 {
        assert((r + 1) * r / 2 <= r2 * (r2 - 1) / 2) by (nonlinear_arith)
            requires
                r + 1 <= r2,
                r >= 1,
        ;
    } else if r2 < r {
        assert((r2 + 1) * r2 / 2 <= r * (r - 1) / 2) by (nonlinear_arith)
            requires
                r2 + 1 <= r,
                r2 >= 1,
        ;
    }
}

fn invalid(reason: &str) -> (e: GraphError)
    ensures
        format_error(e),
{
    GraphError::InvalidFormat { format: "Graph6", reason: reason.to_owned() }
}

fn six(b: u8) -> (r: Option<u8>)
    ensures
        match r {
            Some(v) => six_value(b) == Some(v as int) && v < 64,
            None => six_value(b) is None,
        },
{
    if 63 <= b && b <= 126 {
        Some(b - 63)
    } else {
        None
    }
}

fn groups(bytes: &[u8], offset: usize, count: usize) -> (r: Result<u64>)
    requires
        offset <= 8,
        1 <= count <= 6,
    ensures
        match r {
            Ok(v) => groups_value(bytes@, offset as int, count as nat) == Some(v as int) && v < base_power(count as int),
            Err(e) => groups_value(bytes@, offset as int, count as nat) is None && format_error(e),
        },
{
    if offset + count > bytes.len() {
        proof {
            lemma_groups_missing(bytes@, offset as int, count as nat);
        }
        return Err(invalid("truncated node-count header"));
    }
    let mut value: u64 = 0;
    let mut i: usize = 0;
    while i < count
        invariant
            offset + count <= bytes@.len(),
            offset <= 8,
            count <= 6,
            i <= count,
            groups_value(bytes@, offset as int, i as nat) == Some(value as int),
            value < base_power(i as int),
        decreases count - i,
    {
        match six(bytes[offset + i]) {
            Some(v) => {
                value = value * 64 + v as u64;
            },
            None => {
                proof {
                    lemma_groups_stuck(bytes@, offset as int, i as nat, count as nat);
                }
                return Err(invalid("character is outside the Graph6 alphabet"));
            },
        }
        i += 1;
    }
    Ok(value)
}

/// `64` to the power `i`, for `i` up to six.
spec fn base_power(i: int) -> int {
    if i <= 0 {
        1
    } else if i == 1 {
        64
    } else if i == 2 {
        4096
    } else if i == 3 {
        262144
    } else if i == 4 {
        16777216
    } else if i == 5 {
        1073741824
    } else {
        68719476736
    }
}

proof fn lemma_groups_missing(bytes: Seq<u8>, offset: int, count: nat)
    requires
        offset + count > bytes.len(),
        count > 0,
    ensures
        groups_value(bytes, offset, count) is None,
{
}

proof fn lemma_groups_stuck(bytes: Seq<u8>, offset: int, i: nat, count: nat)
    requires
        i < count,
        0 <= offset,
        offset + i < bytes.len(),
        six_value(bytes[offset + i]) is None,
    ensures
        groups_value(bytes, offset, count) is None,
    decreases count,
{
    if count > i + 1 {
        lemma_groups_stuck(bytes, offset, i, (count - 1) as nat);
    }
}

/// Reads the node count and where the payload starts.
fn header(bytes: &[u8]) -> (r: Result<(u64, usize)>)
    ensures
        match r {
            Ok((n, offset)) => parse_header(bytes@) == Some((n as int, offset as int)) && offset <= 8 && n
                < 68719476736,
            Err(e) => parse_header(bytes@) is None && format_error(e),
        },
{
    if bytes.len() == 0 {
        return Err(invalid("empty record"));
    }
    if bytes[0] != 126 {
        return match six(bytes[0]) {
            Some(v) => Ok((v as u64, 1)),
            None => Err(invalid("character is outside the Graph6 alphabet")),
        };
    }
    if bytes.len() < 2 || bytes[1] != 126 {
        return match groups(bytes, 1, 3) {
            Ok(v) => Ok((v, 4)),
            Err(e) => Err(e),
        };
    }
    match groups(bytes, 2, 6) {
        Ok(v) => Ok((v, 8)),
        Err(e) => Err(e),
    }
}

/// `2` to the power `p`, for `p` up to six.
fn power_of_two(p: usize) -> (r: u8)
    requires
        p <= 6,
    ensures
        r == two_to(p as int),
        r >= 1,
{
    if p == 0 {
        1
    } else if p == 1 {
        2
    } else if p == 2 {
        4
    } else if p == 3 {
        8
    } else if p == 4 {
        16
    } else if p == 5 {
        32
    } else {
        64
    }
}

/// Reads one Graph6 record, optionally opened by `>>graph6<<` and
/// surrounded by white space, into an undirected topology whose edges run
/// from the lower to the higher node, column by column.
///
/// # Errors
///
/// Returns an error for a malformed head, a payload of the wrong length or
/// outside the Graph6 alphabet, nonzero padding bits, or capacity overflow.
pub fn graph6_decode(input: &str) -> (r: Result<UndirectedTopology>)
    ensures
        match graph6_parse(record_bytes(input@)) {
            None => r matches Err(e) && format_error(e),
            Some((n, bits)) => if n > u32::MAX {
                r == Err::<UndirectedTopology, GraphError>(
                    GraphError::IndexCapacityExceeded { category: "nodes", count: n as usize },
                )
            } else {
                exists|edges: Seq<EdgeEndpoints<NodeIndex>>|
                    column_edges(n as int, bits, pairs(edges)) && #[trigger] ubuilds(n as usize, edges, r)
            },
        },
{
    let record = record_text_of(input);
    let bytes = record.as_bytes();
    let ghost bs = bytes@;
    proof {
        assert(bs == record_bytes(input@));
    }
    let (count64, offset) = match header(bytes) {
        Ok(h) => h,
        Err(e) => {
            return Err(e);
        },
    };
    if count64 > usize::MAX as u64 {
        return Err(invalid("node count overflows adjacency bits"));
    }
    let n = count64 as usize;
    let below: usize = if n > 0 {
        n - 1
    } else {
        0
    };
    let pair_total = match n.checked_mul(below) {
        Some(p) => p / 2,
        None => {
            return Err(invalid("node count overflows adjacency bits"));
        },
    };
    proof {
        assert(pair_total == pair_count(n as int)) by {
            if n == 0 {
                assert(pair_count(0) == 0) by (nonlinear_arith);
            }
        }
    }
    let encoded_len = match pair_total.checked_add(5) {
        Some(v) => v / 6,
        None => {
            return Err(invalid("adjacency length overflow"));
        },
    };
    if bytes.len() != offset + encoded_len {
        return Err(invalid("adjacency payload has the wrong length"));
    }
    let ghost spec_values = Seq::new(encoded_len as nat, |i: int| (bs[offset + i] - 63) as int);
    let mut values: Vec<u8> = Vec::new();
    let mut i: usize = 0;
    while i < encoded_len
        invariant
            bs == bytes@,
            bs == record_bytes(input@),
            offset <= 8,
            parse_header(bs) == Some((n as int, offset as int)),
            n <= usize::MAX,
            n * (if n > 0 { n - 1 } else { 0 }) <= usize::MAX,
            pair_total == pair_count(n as int),
            pair_count(n as int) + 5 <= usize::MAX,
            encoded_len == payload_len(pair_total as int),
            spec_values == Seq::new(encoded_len as nat, |i: int| (bs[offset + i] - 63) as int),
            bytes@.len() == offset + encoded_len,
            i <= encoded_len,
            values@.len() == i,
            forall|k: int| 0 <= k < i ==> #[trigger] values@[k] as int == spec_values[k] && values@[k] < 64,
            forall|k: int| 0 <= k < i ==> #[trigger] six_value(bs[offset + k]) is Some,
        decreases encoded_len - i,
    {
        match six(bytes[offset + i]) {
            Some(v) => {
                values.push(v);
            },
            None => {
                proof {
                    assert(six_value(bs[offset + i]) is None);
                }
                return Err(invalid("character is outside the Graph6 alphabet"));
            },
        }
        i += 1;
    }
    if encoded_len > 0 {
        let used = pair_total % 6;
        if used != 0 {
            let modulus = power_of_two(6 - used);
            if values[encoded_len - 1] % modulus != 0 {
                return Err(invalid("nonzero Graph6 padding bits"));
            }
        }
    }
    let ghost bits = Seq::new(pair_total as nat, |k: int| payload_bit(spec_values, k));
    proof {
        assert(!(exists|k: int| 0 <= k < encoded_len && #[trigger] six_value(bs[offset + k]) is None));
        assert(graph6_parse(bs) == Some((n as nat, bits)));
    }
    if n > u32::MAX as usize {
        return UndirectedTopology::try_from_edges(n, Vec::new());
    }
    let mut edges: Vec<EdgeEndpoints<NodeIndex>> = Vec::new();
    let mut position: usize = 0;
    let mut right: usize = 1;
    while right < n
        invariant
            n <= u32::MAX,
            1 <= right,
            right <= n || (n == 0 && right == 1),
            position == pair_slot(0, right as int),
            pair_total == pair_count(n as int),
            values@.len() == encoded_len,
            encoded_len == payload_len(pair_total as int),
            forall|k: int| 0 <= k < encoded_len ==> #[trigger] values@[k] as int == spec_values[k],
            bits == Seq::new(pair_total as nat, |k: int| payload_bit(spec_values, k)),
            forall|i: int| 0 <= i < edges@.len() ==> 0 <= (#[trigger] pairs(edges@)[i]).0 < pairs(edges@)[i].1 < n
                && pair_slot(pairs(edges@)[i].0, pairs(edges@)[i].1) < position,
            forall|i: int, j: int|
                0 <= i < j < edges@.len() ==> pair_slot((#[trigger] pairs(edges@)[i]).0, pairs(edges@)[i].1) < pair_slot(
                    (#[trigger] pairs(edges@)[j]).0,
                    pairs(edges@)[j].1,
                ),
            forall|l: int, r: int|
                0 <= l < r < n && pair_slot(l, r) < position ==> (pairs(edges@).contains((l, r)) <==> bits[#[trigger] pair_slot(l, r)]),
        decreases n - right,
    {
        let mut left: usize = 0;
        while left < right
            invariant
                n <= u32::MAX,
                1 <= right < n,
                left <= right,
                position == pair_slot(left as int, right as int),
                pair_total == pair_count(n as int),
                values@.len() == encoded_len,
                encoded_len == payload_len(pair_total as int),
                forall|k: int| 0 <= k < encoded_len ==> #[trigger] values@[k] as int == spec_values[k],
                bits == Seq::new(pair_total as nat, |k: int| payload_bit(spec_values, k)),
                forall|i: int| 0 <= i < edges@.len() ==> 0 <= (#[trigger] pairs(edges@)[i]).0 < pairs(edges@)[i].1 < n
                    && pair_slot(pairs(edges@)[i].0, pairs(edges@)[i].1) < position,
                forall|i: int, j: int|
                    0 <= i < j < edges@.len() ==> pair_slot((#[trigger] pairs(edges@)[i]).0, pairs(edges@)[i].1)
                        < pair_slot((#[trigger] pairs(edges@)[j]).0, pairs(edges@)[j].1),
                forall|l: int, r: int|
                    0 <= l < r < n && pair_slot(l, r) < position ==> (pairs(edges@).contains((l, r)) <==> bits[#[trigger] pair_slot(l, r)]),
            decreases right - left,
        {
            proof {
                lemma_slot_bounds(left as int, right as int, n as int);
                assert(position / 6 < encoded_len);
            }
            let value = values[position / 6];
            let p = power_of_two(5 - position % 6);
            let set = value / p % 2 == 1;
            let ghost before = edges@;
            proof {
                assert(bits[position as int] == set);
            }
            if set {
                edges.push(EdgeEndpoints::new(NodeIndex::new(left as u32), NodeIndex::new(right as u32)));
            }
            proof {
                if set {
                    assert(edges@ == before.push(edges@.last()));
                    crate::topology::lemma_pairs_push(before, edges@.last());
                    assert(pairs(edges@).last() == (left as int, right as int));
                } else {
                    assert(edges@ == before);
                }
                assert(pairs(before).len() == before.len());
                assert forall|l: int, r: int|
                    0 <= l < r < n && pair_slot(l, r) < position + 1 implies (pairs(edges@).contains((l, r)) <==> bits[#[trigger] pair_slot(l, r)]) by {
                    lemma_slot_order(l, r, left as int, right as int);
                    if pair_slot(l, r) < position {
                        if set && pairs(edges@).contains((l, r)) {
                            let k = choose|k: int| 0 <= k < pairs(edges@).len() && pairs(edges@)[k] == (l, r);
                            if k == before.len() {
                            } else {
                                assert(pairs(before)[k] == (l, r));
                            }
                        }
                        if pairs(before).contains((l, r)) {
                            let k = choose|k: int| 0 <= k < pairs(before).len() && pairs(before)[k] == (l, r);
                            assert(pairs(edges@)[k] == (l, r));
                        }
                    } else {
                        assert(l == left && r == right);
                        if set {
                            assert(pairs(edges@)[before.len() as int] == (l, r));
                        } else {
                            if pairs(edges@).contains((l, r)) {
                                let k = choose|k: int| 0 <= k < pairs(edges@).len() && pairs(edges@)[k] == (l, r);
                                assert(pair_slot(pairs(before)[k].0, pairs(before)[k].1) < position);
                            }
                        }
                    }
                }
            }
            position += 1;
            left += 1;
            proof {
                lemma_slot_bounds(left as int - 1, right as int, n as int);
            }
        }
        proof {
            lemma_slot_bounds(0, right as int, right + 1);
        }
        right += 1;
    }
    proof {
        if n >= 1 {
            assert(pair_count(n as int) == pair_slot(0, n as int));
        }
        assert forall|l: int, r: int| 0 <= l < r < n implies (pairs(edges@).contains((l, r)) <==> bits[#[trigger] pair_slot(l, r)]) by {
            lemma_slot_bounds(l, r, n as int);
        }
        assert(column_edges(n as int, bits, pairs(edges@)));
    }
    let ghost es = edges@;
    let r = UndirectedTopology::try_from_edges(n, edges);
    proof {
        assert(ubuilds(n as usize, es, r));
    }
    r
}

proof fn lemma_ascii_byte(b: u8)
    requires
        b < 128,
    ensures
        encode_scalar_of(b) == seq![b],
{
    let u: u32 = b as u32;
    assert((u & 0x7F) as u8 == b) by (bit_vector)
        requires
            u == b as u32,
            b < 128,
    ;
    assert((b as char) as u32 == u);
}

spec fn encode_scalar_of(b: u8) -> Seq<u8> {
    vstd::utf8::encode_scalar((b as char) as u32)
}

/// Characters below 128 encode as the bytes of the same value.
proof fn lemma_ascii_encoding(bytes: Seq<u8>)
    requires
        forall|i: int| 0 <= i < bytes.len() ==> #[trigger] bytes[i] < 128,
    ensures
        encode_utf8(record_text(bytes)) == bytes,
    decreases bytes.len(),
{
    if bytes.len() > 0 {
        let text = record_text(bytes);
        let rest = bytes.drop_first();
        assert forall|i: int| 0 <= i < rest.len() implies #[trigger] rest[i] < 128 by {
            assert(rest[i] == bytes[i + 1]);
        }
        lemma_ascii_encoding(rest);
        assert(text.drop_first() =~= record_text(rest));
        lemma_ascii_byte(bytes[0]);
        assert(text[0] == bytes[0] as char);
        assert(bytes =~= seq![bytes[0]] + rest);
    }
}

/// Characters of a record are neither white space nor the start of the
/// marker, so a written record is its own record.
proof fn lemma_record_is_itself(bytes: Seq<u8>)
    requires
        forall|i: int| 0 <= i < bytes.len() ==> 63 <= #[trigger] bytes[i] <= 126,
    ensures
        record_of(record_text(bytes)) == record_text(bytes),
{
    let text = record_text(bytes);
    if text.len() > 0 {
        assert(text[0] == bytes[0] as char);
        assert(!white_space(text[0]));
        assert(text.last() == bytes[bytes.len() - 1] as char);
        assert(!white_space(text.last()));
        assert(text[0] != '>');
        if text.len() >= 10 {
            assert(text.subrange(0, 10)[0] == text[0]);
            assert(marker()[0] == '>');
        }
    }
}

/// The bytes of a written record are printable Graph6 characters.
proof fn lemma_written_alphabet(n: int, bits: Seq<bool>)
    requires
        0 <= n <= 68719476735,
    ensures
        forall|i: int|
            0 <= i < graph6_bytes(n, bits).len() ==> 63 <= #[trigger] graph6_bytes(n, bits)[i] <= 126,
{
    let h = header_bytes(n);
    assert forall|i: int| 0 <= i < graph6_bytes(n, bits).len() implies 63 <= #[trigger] graph6_bytes(n, bits)[i]
        <= 126 by {
        if i < h.len() {
            assert(graph6_bytes(n, bits)[i] == h[i]);
            if n > 258047 {
                assert(n / 1073741824 < 64);
            }
        } else {
            lemma_bits_value_bound(bits, 6 * (i - h.len()), 6);
        }
    }
}

/// Decoding a written record gives back the graph: the record parses to
/// the node count and the very bits it was written from, so the decoded
/// topology joins exactly the pairs that the written graph joins.
pub proof fn graph6_reads_back_what_it_writes(g: GraphModel, bits: Seq<bool>, text: Seq<char>, es: Seq<(int, int)>)
    requires
        g.node_count <= u32::MAX,
        g.node_count * g.node_count + 63 <= usize::MAX,
        triangle_of(g, bits),
        text == record_text(graph6_bytes(g.node_count as int, bits)),
    ensures
        graph6_parse(record_bytes(text)) == Some((g.node_count, bits)),
        column_edges(g.node_count as int, bits, es) ==> forall|l: int, r: int|
            0 <= l < r < g.node_count ==> (es.contains((l, r)) <==> joins(g, l, r)),
{
    let n = g.node_count as int;
    let bytes = graph6_bytes(n, bits);
    lemma_written_alphabet(n, bits);
    lemma_record_is_itself(bytes);
    lemma_ascii_encoding(bytes);
    assert(n * (if n > 0 { n - 1 } else { 0 }) <= n * n) by (nonlinear_arith)
        requires
            n >= 0,
    ;
    assert(pair_count(n) <= n * n) by (nonlinear_arith)
        requires
            n >= 0,
    ;
    lemma_parse_written(n, bits);
    if column_edges(n, bits, es) {
        assert forall|l: int, r: int| 0 <= l < r < n implies (es.contains((l, r)) <==> joins(g, l, r)) by {
            assert(bits[pair_slot(l, r)] == joins(g, l, r));
        }
    }
}

} // verus!
