//! Characters and trimming shared by the text formats.
use crate::util::text_of;
use vstd::prelude::*;
use vstd::std_specs::iter::IteratorSpec;

verus! {

/// A character with the Unicode `White_Space` property.
pub open spec fn white_space(c: char) -> bool {
    let v = c as u32;
    ||| 0x09 <= v <= 0x0d
    ||| v == 0x20
    ||| v == 0x85
    ||| v == 0xa0
    ||| v == 0x1680
    ||| 0x2000 <= v <= 0x200a
    ||| v == 0x2028
    ||| v == 0x2029
    ||| v == 0x202f
    ||| v == 0x205f
    ||| v == 0x3000
}

pub(crate) fn is_white_space(c: char) -> (r: bool)
    ensures
        r == white_space(c),
{
    let v = c as u32;
    (0x09 <= v && v <= 0x0d) || v == 0x20 || v == 0x85 || v == 0xa0 || v == 0x1680 || (0x2000 <= v && v <= 0x200a)
        || v == 0x2028 || v == 0x2029 || v == 0x202f || v == 0x205f || v == 0x3000
}

/// `s` without leading white space.
pub open spec fn trim_start(s: Seq<char>) -> Seq<char>
    decreases s.len(),
{
    if s.len() > 0 && white_space(s[0]) {
        trim_start(s.drop_first())
    } else {
        s
    }
}

/// `s` without trailing white space.
pub open spec fn trim_end(s: Seq<char>) -> Seq<char>
    decreases s.len(),
{
    if s.len() > 0 && white_space(s.last()) {
        trim_end(s.drop_last())
    } else {
        s
    }
}

pub(crate) proof fn lemma_trim_start(s: Seq<char>, i: int)
    requires
        0 <= i <= s.len(),
        forall|k: int| 0 <= k < i ==> white_space(#[trigger] s[k]),
        i == s.len() || !white_space(s[i]),
    ensures
        trim_start(s) == s.skip(i),
    decreases i,
{
    if i > 0 {
        assert forall|k: int| 0 <= k < i - 1 implies white_space(#[trigger] s.drop_first()[k]) by {
            assert(s.drop_first()[k] == s[k + 1]);
        }
        lemma_trim_start(s.drop_first(), i - 1);
        assert(s.drop_first().skip(i - 1) =~= s.skip(i));
    } else {
        assert(s.skip(0) =~= s);
    }
}

pub(crate) proof fn lemma_trim_end(s: Seq<char>, j: int)
    requires
        0 <= j <= s.len(),
        forall|k: int| j <= k < s.len() ==> white_space(#[trigger] s[k]),
        j == 0 || !white_space(s[j - 1]),
    ensures
        trim_end(s) == s.take(j),
    decreases s.len() - j,
{
    if j < s.len() {
        assert forall|k: int| j <= k < s.drop_last().len() implies white_space(#[trigger] s.drop_last()[k]) by {
            assert(s.drop_last()[k] == s[k]);
        }
        lemma_trim_end(s.drop_last(), j);
        assert(s.drop_last().take(j) =~= s.take(j));
    } else {
        assert(s.take(j) =~= s);
    }
}

/// The characters of `input`, in order.
pub(crate) fn chars_of(input: &str) -> (r: Vec<char>)
    ensures
        r@ == input@,
{
    let mut it = input.chars();
    let mut out: Vec<char> = Vec::new();
    loop
        invariant
            out@ + it.remaining() == input@,
            it.decrease() is Some,
        ensures
            out@ == input@,
        decreases it.decrease()->0,
    {
        match it.next() {
            Some(c) => {
                out.push(c);
            },
            None => {
                assert(out@ + it.remaining() =~= out@);
                break;
            },
        }
    }
    out
}

/// The bounds of `chars[lo..hi]` with white space trimmed at both ends.
pub(crate) fn trim_range(chars: &Vec<char>, lo: usize, hi: usize) -> (r: (usize, usize))
    requires
        lo <= hi <= chars@.len(),
    ensures
        lo <= r.0 <= r.1 <= hi,
        chars@.subrange(r.0 as int, r.1 as int) == trim_end(trim_start(chars@.subrange(lo as int, hi as int))),
{
    let mut start = lo;
    while start < hi && is_white_space(chars[start])
        invariant
            lo <= start <= hi <= chars@.len(),
            forall|k: int| lo <= k < start ==> white_space(#[trigger] chars@[k]),
        decreases hi - start,
    {
        start += 1;
    }
    let mut end = hi;
    while end > start && is_white_space(chars[end - 1])
        invariant
            lo <= start <= end <= hi <= chars@.len(),
            forall|k: int| end <= k < hi ==> white_space(#[trigger] chars@[k]),
        decreases end - start,
    {
        end -= 1;
    }
    proof {
        let s = chars@.subrange(lo as int, hi as int);
        lemma_trim_start(s, start - lo);
        let t = s.skip(start - lo);
        assert forall|k: int| end - start <= k < t.len() implies white_space(#[trigger] t[k]) by {
            assert(t[k] == chars@[k + start]);
        }
        if end > start {
            assert(t[end - start - 1] == chars@[end - 1]);
        }
        lemma_trim_end(t, end - start);
        assert(t.take(end - start) =~= chars@.subrange(start as int, end as int));
    }
    (start, end)
}

/// The decimal digit for `d`.
pub open spec fn digit(d: int) -> char {
    (48 + d) as char
}

/// The decimal text of `v`, without leading zeros.
pub open spec fn decimal(v: nat) -> Seq<char>
    decreases v,
{
    if v < 10 {
        seq![digit(v as int)]
    } else {
        decimal(v / 10).push(digit((v % 10) as int))
    }
}

/// Appends the decimal text of `v`.
pub(crate) fn push_decimal(out: &mut Vec<char>, v: u64)
    ensures
        final(out)@ == old(out)@ + decimal(v as nat),
    decreases v,
{
    if v >= 10 {
        push_decimal(out, v / 10);
    }
    let d = (v % 10) as u8;
    out.push((d + 48) as char);
    proof {
        assert(final(out)@ =~= old(out)@ + decimal(v as nat));
    }
}

/// The decimal text of `v`.
pub(crate) fn decimal_text(v: u64) -> (r: String)
    ensures
        r@ == decimal(v as nat),
{
    let mut out: Vec<char> = Vec::new();
    push_decimal(&mut out, v);
    proof {
        assert(out@ =~= decimal(v as nat));
    }
    text_of(out)
}

} // verus!
