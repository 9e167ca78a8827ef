//! The total order on identifiers, nodes and edges: byte-wise order on the
//! UTF-8 text of each string, variants by position, fields left to right,
//! as the derived `Ord` of the model types orders them.
use crate::model::{Edge, EdgeKind, EdgeView, EvidenceKind, KindView, Confidence};
use vstd::prelude::*;
use vstd::utf8::{encode_utf8, encode_utf8_decode_utf8};

verus! {

/// Three-way comparison of byte strings: `-1`, `0` or `1`.
pub open spec fn bytes_order(a: Seq<u8>, b: Seq<u8>) -> int
    decreases a.len(),
{
    if a.len() == 0 {
        if b.len() == 0 {
            0
        } else {
            -1
        }
    } else if b.len() == 0 {
        1
    } else if a[0] < b[0] {
        -1
    } else if a[0] > b[0] {
        1
    } else {
        bytes_order(a.drop_first(), b.drop_first())
    }
}

/// Three-way comparison of texts by their UTF-8 bytes.
pub open spec fn text_order(a: Seq<char>, b: Seq<char>) -> int {
    bytes_order(encode_utf8(a), encode_utf8(b))
}

/// Three-way comparison of integers.
pub open spec fn int_order(a: int, b: int) -> int {
    if a < b {
        -1
    } else if a > b {
        1
    } else {
        0
    }
}

/// The first comparison that is not a tie.
pub open spec fn then_order(first: int, second: int) -> int {
    if first != 0 {
        first
    } else {
        second
    }
}

/// Kinds compare by variant position, then by custom text.
pub open spec fn kind_order(a: KindView, b: KindView) -> int {
    then_order(int_order(a.0, b.0), text_order(a.1, b.1))
}

/// Edges compare by source, target, kind, extractor, evidence and
/// confidence, in that order.
pub open spec fn edge_order(a: EdgeView, b: EdgeView) -> int {
    then_order(
        text_order(a.source, b.source),
        then_order(
            text_order(a.target, b.target),
            then_order(
                kind_order(a.kind, b.kind),
                then_order(
                    text_order(a.extractor, b.extractor),
                    then_order(kind_order(a.evidence, b.evidence), int_order(a.confidence, b.confidence)),
                ),
            ),
        ),
    )
}

/// A sequence in strictly increasing edge order: sorted, without repeats.
pub open spec fn ascending_edges(edges: Seq<EdgeView>) -> bool {
    forall|i: int, j: int| 0 <= i < j < edges.len() ==> edge_order(#[trigger] edges[i], #[trigger] edges[j]) < 0
}

/// A sequence of texts in strictly increasing order.
pub open spec fn ascending_texts(texts: Seq<Seq<char>>) -> bool {
    forall|i: int, j: int| 0 <= i < j < texts.len() ==> text_order(#[trigger] texts[i], #[trigger] texts[j]) < 0
}

/// A three-way comparison: a sign, antisymmetric, zero exactly on equal
/// values.
pub open spec fn sound_order<T>(a: T, b: T, ab: int, ba: int) -> bool {
    &&& -1 <= ab <= 1
    &&& ba == -ab
    &&& (ab == 0 <==> a == b)
}

proof fn lemma_bytes_order_sound(a: Seq<u8>, b: Seq<u8>)
    ensures
        sound_order(a, b, bytes_order(a, b), bytes_order(b, a)),
    decreases a.len(),
{
    if a.len() > 0 && b.len() > 0 && a[0] == b[0] {
        lemma_bytes_order_sound(a.drop_first(), b.drop_first());
        if bytes_order(a, b) == 0 {
            assert(a =~= seq![a[0]] + a.drop_first());
            assert(b =~= seq![b[0]] + b.drop_first());
        }
    }
    if a.len() == 0 && b.len() == 0 {
        assert(a =~= b);
    }
}

proof fn lemma_bytes_order_trans(a: Seq<u8>, b: Seq<u8>, c: Seq<u8>)
    requires
        bytes_order(a, b) < 0,
        bytes_order(b, c) < 0,
    ensures
        bytes_order(a, c) < 0,
    decreases a.len(),
{
    if a.len() > 0 && b.len() > 0 && c.len() > 0 && a[0] == b[0] && b[0] == c[0] {
        lemma_bytes_order_trans(a.drop_first(), b.drop_first(), c.drop_first());
    }
}

/// Text comparison is a sign, antisymmetric, and zero exactly on equal
/// texts.
pub proof fn lemma_text_order_sound(a: Seq<char>, b: Seq<char>)
    ensures
        sound_order(a, b, text_order(a, b), text_order(b, a)),
{
    lemma_bytes_order_sound(encode_utf8(a), encode_utf8(b));
    encode_utf8_decode_utf8(a);
    encode_utf8_decode_utf8(b);
}

/// Text comparison is transitive.
pub proof fn lemma_text_order_trans(a: Seq<char>, b: Seq<char>, c: Seq<char>)
    requires
        text_order(a, b) < 0,
        text_order(b, c) < 0,
    ensures
        text_order(a, c) < 0,
{
    lemma_bytes_order_trans(encode_utf8(a), encode_utf8(b), encode_utf8(c));
}

proof fn lemma_kind_order_sound(a: KindView, b: KindView)
    ensures
        sound_order(a, b, kind_order(a, b), kind_order(b, a)),
{
    lemma_text_order_sound(a.1, b.1);
}

proof fn lemma_kind_order_trans(a: KindView, b: KindView, c: KindView)
    requires
        kind_order(a, b) < 0,
        kind_order(b, c) < 0,
    ensures
        kind_order(a, c) < 0,
{
    lemma_text_order_sound(a.1, b.1);
    lemma_text_order_sound(b.1, c.1);
    lemma_text_order_sound(a.1, c.1);
    if a.0 == b.0 && b.0 == c.0 {
        lemma_text_order_trans(a.1, b.1, c.1);
    }
}

/// Edge comparison is a sign, antisymmetric, and zero exactly on equal
/// edges.
pub proof fn lemma_edge_order_sound(a: EdgeView, b: EdgeView)
    ensures
        sound_order(a, b, edge_order(a, b), edge_order(b, a)),
{
    lemma_text_order_sound(a.source, b.source);
    lemma_text_order_sound(a.target, b.target);
    lemma_kind_order_sound(a.kind, b.kind);
    lemma_text_order_sound(a.extractor, b.extractor);
    lemma_kind_order_sound(a.evidence, b.evidence);
    if edge_order(a, b) == 0 {
        assert(a =~= b);
    }
}

/// Edge comparison is transitive.
pub proof fn lemma_edge_order_trans(a: EdgeView, b: EdgeView, c: EdgeView)
    requires
        edge_order(a, b) < 0,
        edge_order(b, c) < 0,
    ensures
        edge_order(a, c) < 0,
{
    lemma_edge_order_sound(a, b);
    lemma_edge_order_sound(b, c);
    lemma_edge_order_sound(a, c);
    lemma_text_order_sound(a.source, b.source);
    lemma_text_order_sound(b.source, c.source);
    lemma_text_order_sound(a.source, c.source);
    lemma_text_order_sound(a.target, b.target);
    lemma_text_order_sound(b.target, c.target);
    lemma_text_order_sound(a.target, c.target);
    lemma_kind_order_sound(a.kind, b.kind);
    lemma_kind_order_sound(b.kind, c.kind);
    lemma_kind_order_sound(a.kind, c.kind);
    lemma_text_order_sound(a.extractor, b.extractor);
    lemma_text_order_sound(b.extractor, c.extractor);
    lemma_text_order_sound(a.extractor, c.extractor);
    lemma_kind_order_sound(a.evidence, b.evidence);
    lemma_kind_order_sound(b.evidence, c.evidence);
    lemma_kind_order_sound(a.evidence, c.evidence);
    if text_order(a.source, b.source) < 0 && text_order(b.source, c.source) < 0 {
        lemma_text_order_trans(a.source, b.source, c.source);
    }
    if text_order(a.target, b.target) < 0 && text_order(b.target, c.target) < 0 {
        lemma_text_order_trans(a.target, b.target, c.target);
    }
    if kind_order(a.kind, b.kind) < 0 && kind_order(b.kind, c.kind) < 0 {
        lemma_kind_order_trans(a.kind, b.kind, c.kind);
    }
    if text_order(a.extractor, b.extractor) < 0 && text_order(b.extractor, c.extractor) < 0 {
        lemma_text_order_trans(a.extractor, b.extractor, c.extractor);
    }
    if kind_order(a.evidence, b.evidence) < 0 && kind_order(b.evidence, c.evidence) < 0 {
        lemma_kind_order_trans(a.evidence, b.evidence, c.evidence);
    }
}

/// Compares two byte strings.
fn compare_bytes(a: &[u8], b: &[u8]) -> (r: i8)
    ensures
        r == bytes_order(a@, b@),
{
    let mut i: usize = 0;
    assert(a@.skip(0) =~= a@);
    assert(b@.skip(0) =~= b@);
    while i < a.len() && i < b.len()
        invariant
            i <= a@.len(),
            i <= b@.len(),
            bytes_order(a@, b@) == bytes_order(a@.skip(i as int), b@.skip(i as int)),
        decreases a@.len() - i,
    {
        if a[i] < b[i] {
            return -1;
        }
        if a[i] > b[i] {
            return 1;
        }
        assert(a@.skip(i as int).drop_first() =~= a@.skip(i + 1));
        assert(b@.skip(i as int).drop_first() =~= b@.skip(i + 1));
        i += 1;
    }
    if i < a.len() {
        1
    } else if i < b.len() {
        -1
    } else {
        0
    }
}

/// Compares two texts by their UTF-8 bytes.
pub fn compare_text(a: &str, b: &str) -> (r: i8)
    ensures
        r == text_order(a@, b@),
{
    compare_bytes(a.as_bytes(), b.as_bytes())
}

fn compare_int(a: u8, b: u8) -> (r: i8)
    ensures
        r == int_order(a as int, b as int),
{
    if a < b {
        -1
    } else if a > b {
        1
    } else {
        0
    }
}

fn compare_edge_kinds(a: &EdgeKind, b: &EdgeKind) -> (r: i8)
    ensures
        r == kind_order(a@, b@),
{
    let (x, y): (u8, u8) = (
        match a {
            EdgeKind::Calls => 0,
            EdgeKind::Imports => 1,
            EdgeKind::Contains => 2,
            EdgeKind::Custom(_) => 3,
        },
        match b {
            EdgeKind::Calls => 0,
            EdgeKind::Imports => 1,
            EdgeKind::Contains => 2,
            EdgeKind::Custom(_) => 3,
        },
    );
    let c = compare_int(x, y);
    if c != 0 {
        return c;
    }
    proof {
        lemma_text_order_sound(Seq::<char>::empty(), Seq::<char>::empty());
    }
    match (a, b) {
        (EdgeKind::Custom(s), EdgeKind::Custom(t)) => compare_text(s.as_str(), t.as_str()),
        _ => 0,
    }
}

fn compare_evidence(a: &EvidenceKind, b: &EvidenceKind) -> (r: i8)
    ensures
        r == kind_order(a@, b@),
{
    let (x, y): (u8, u8) = (
        match a {
            EvidenceKind::Parsed => 0,
            EvidenceKind::Custom(_) => 1,
        },
        match b {
            EvidenceKind::Parsed => 0,
            EvidenceKind::Custom(_) => 1,
        },
    );
    let c = compare_int(x, y);
    if c != 0 {
        return c;
    }
    proof {
        lemma_text_order_sound(Seq::<char>::empty(), Seq::<char>::empty());
    }
    match (a, b) {
        (EvidenceKind::Custom(s), EvidenceKind::Custom(t)) => compare_text(s.as_str(), t.as_str()),
        _ => 0,
    }
}

fn confidence_rank(c: Confidence) -> (r: u8)
    ensures
        r == c@,
{
    match c {
        Confidence::Low => 0,
        Confidence::Medium => 1,
        Confidence::High => 2,
    }
}

/// Compares two edges in canonical order.
pub fn compare_edges(a: &Edge, b: &Edge) -> (r: i8)
    ensures
        r == edge_order(a@, b@),
{
    let c = compare_text(a.source.as_str(), b.source.as_str());
    if c != 0 {
        return c;
    }
    let c = compare_text(a.target.as_str(), b.target.as_str());
    if c != 0 {
        return c;
    }
    let c = compare_edge_kinds(&a.kind, &b.kind);
    if c != 0 {
        return c;
    }
    let c = compare_text(a.provenance.extractor.as_str(), b.provenance.extractor.as_str());
    if c != 0 {
        return c;
    }
    let c = compare_evidence(&a.provenance.evidence, &b.provenance.evidence);
    if c != 0 {
        return c;
    }
    compare_int(confidence_rank(a.provenance.confidence), confidence_rank(b.provenance.confidence))
}

} // verus!
