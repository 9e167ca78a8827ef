//! Reading the numeric strict-DOT subset: a `digraph` or `graph` header,
//! then `;`-separated statements between the outer braces. A statement is a
//! node id alone, or ids joined by the graph's edge operator; attributes,
//! comments and default-attribute statements are skipped.
use crate::error::{GraphError, Result};
use crate::topology::{builds, ubuilds, EdgeEndpoints, NodeIndex, Topology, UndirectedTopology};
use super::text::{chars_of, trim_end, trim_range, trim_start};
use vstd::prelude::*;

verus! {

/// Why a DOT text is refused before a topology is built from it.
pub enum DotStop {
    /// The text is malformed, for the reason given.
    Format(&'static str),
    /// A node id does not fit a compact index; the node count it asks for.
    Capacity(usize),
}

/// What reading carries from statement to statement: the largest node id
/// seen, and the edges so far.
pub type DotState = (Option<usize>, Seq<EdgeEndpoints<NodeIndex>>);

/// `s` without white space at either end.
pub open spec fn trimmed(s: Seq<char>) -> Seq<char> {
    trim_end(trim_start(s))
}

/// The first position at or after `p` that holds `c`, or the length.
pub open spec fn next_char(s: Seq<char>, p: int, c: char) -> int
    decreases s.len() - p,
{
    if p >= s.len() {
        s.len() as int
    } else if s[p] == c {
        p
    } else {
        next_char(s, p + 1, c)
    }
}

/// The first position at or after `p` where `a` is followed by `b`, or the
/// length.
pub open spec fn next_pair(s: Seq<char>, p: int, a: char, b: char) -> int
    decreases s.len() - p,
{
    if p + 1 >= s.len() {
        s.len() as int
    } else if s[p] == a && s[p + 1] == b {
        p
    } else {
        next_pair(s, p + 1, a, b)
    }
}

/// The last position before `p` that holds `c`, or `-1`.
pub open spec fn prev_char(s: Seq<char>, p: int, c: char) -> int
    decreases p,
{
    if p <= 0 {
        -1
    } else if s[p - 1] == c {
        p - 1
    } else {
        prev_char(s, p - 1, c)
    }
}

/// White space as `split_ascii_whitespace` reads it.
pub open spec fn ascii_space(c: char) -> bool {
    c == ' ' || c == '\t' || c == '\n' || c == '\x0C' || c == '\r'
}

/// `c` with an ASCII capital letter made small.
pub open spec fn ascii_lower(c: char) -> char {
    if 'A' <= c <= 'Z' {
        ((c as u32) + 32) as char
    } else {
        c
    }
}

/// `word` stands as a whole whitespace-separated token at `i` of `h`, its
/// ASCII letters compared without case.
pub open spec fn token_at(h: Seq<char>, i: int, word: Seq<char>) -> bool {
    &&& 0 <= i
    &&& i + word.len() <= h.len()
    &&& forall|k: int| 0 <= k < word.len() ==> ascii_lower(#[trigger] h[i + k]) == word[k]
    &&& (i == 0 || ascii_space(h[i - 1]))
    &&& (i + word.len() == h.len() || ascii_space(h[i + word.len()]))
}

/// `word` is one of the tokens of `h`.
pub open spec fn has_token(h: Seq<char>, word: Seq<char>) -> bool {
    exists|i: int| token_at(h, i, word)
}

/// The header before the opening brace names the wanted kind of graph:
/// `digraph` for a directed one; `graph` and not `digraph` for an
/// undirected one.
pub open spec fn header_fits(header: Seq<char>, directed: bool) -> bool {
    let h = trimmed(header);
    let digraph = seq!['d', 'i', 'g', 'r', 'a', 'p', 'h'];
    if directed {
        has_token(h, digraph)
    } else {
        has_token(h, seq!['g', 'r', 'a', 'p', 'h']) && !has_token(h, digraph)
    }
}

/// `s` up to its first `//` comment, then up to its first `#` comment.
pub open spec fn uncommented(s: Seq<char>) -> Seq<char> {
    let t = s.take(next_pair(s, 0, '/', '/'));
    t.take(next_char(t, 0, '#'))
}

/// `s` begins with `w`.
pub open spec fn begins(s: Seq<char>, w: Seq<char>) -> bool {
    s.len() >= w.len() && s.take(w.len() as int) == w
}

/// A statement that sets defaults: it begins with `graph`, `node` or `edge`.
pub open spec fn default_attribute(s: Seq<char>) -> bool {
    ||| begins(s, seq!['g', 'r', 'a', 'p', 'h'])
    ||| begins(s, seq!['n', 'o', 'd', 'e'])
    ||| begins(s, seq!['e', 'd', 'g', 'e'])
}

/// The value of a run of decimal digits.
pub open spec fn numeral(d: Seq<char>) -> int
    decreases d.len(),
{
    if d.len() == 0 {
        0
    } else {
        numeral(d.drop_last()) * 10 + (d.last() as int - '0' as int)
    }
}

/// Every character of `d` is a decimal digit.
pub open spec fn all_digits(d: Seq<char>) -> bool {
    forall|k: int| 0 <= k < d.len() ==> '0' <= #[trigger] d[k] <= '9'
}

/// An unsigned decimal number, as `usize` parsing reads it: an optional
/// `+`, then at least one digit, with a value that fits.
pub open spec fn unsigned_value(t: Seq<char>) -> Option<usize> {
    digit_run(
        if t.len() > 0 && t[0] == '+' {
            t.skip(1)
        } else {
            t
        },
    )
}

/// The value of a nonempty run of digits that fits `usize`.
pub open spec fn digit_run(d: Seq<char>) -> Option<usize> {
    if d.len() > 0 && all_digits(d) && numeral(d) <= usize::MAX {
        Some(numeral(d) as usize)
    } else {
        None
    }
}

/// A node id: a number, perhaps in double quotes, perhaps after an `n`.
pub open spec fn node_id(v: Seq<char>) -> Option<usize> {
    let t = trimmed(v);
    let unquoted = if t.len() >= 2 && t[0] == '"' && t.last() == '"' {
        t.subrange(1, t.len() - 1)
    } else {
        t
    };
    let bare = if unquoted.len() >= 2 && unquoted[0] == 'n' {
        unquoted.skip(1)
    } else {
        unquoted
    };
    unsigned_value(trimmed(bare))
}

/// The second character of the edge operator of the graph's kind.
pub open spec fn operator_end(directed: bool) -> char {
    if directed {
        '>'
    } else {
        '-'
    }
}

/// The ids of `s` separated by `-` then `end`, reading from `p` with the
/// current id begun at `start`; `None` when one of them is no id.
pub open spec fn ids_from(s: Seq<char>, start: int, p: int, end: char) -> Option<Seq<usize>>
    decreases s.len() - p,
{
    if p >= s.len() {
        match node_id(s.subrange(start, s.len() as int)) {
            Some(id) => Some(seq![id]),
            None => None,
        }
    } else if p + 1 < s.len() && s[p] == '-' && s[p + 1] == end {
        match node_id(s.subrange(start, p)) {
            Some(id) => match ids_from(s, p + 2, p + 2, end) {
                Some(rest) => Some(seq![id] + rest),
                None => None,
            },
            None => None,
        }
    } else {
        ids_from(s, start, p + 1, end)
    }
}

/// The node count that a node id asks for, saturating.
pub open spec fn count_for(id: usize) -> usize {
    if id == usize::MAX {
        usize::MAX
    } else {
        (id + 1) as usize
    }
}

/// The greater of two ids.
pub open spec fn larger(a: usize, b: usize) -> usize {
    if a < b {
        b
    } else {
        a
    }
}

/// The edge between two ids that fit compact indexes.
pub open spec fn link(a: usize, b: usize) -> EdgeEndpoints<NodeIndex> {
    EdgeEndpoints { source: NodeIndex(a as u32), target: NodeIndex(b as u32) }
}

/// The edges of a chain of ids from its `k`th, each consecutive pair
/// joined, with the largest id seen so far.
pub open spec fn chain_from(
    ids: Seq<usize>,
    k: int,
    state: DotState,
) -> core::result::Result<DotState, DotStop>
    decreases ids.len() - k,
{
    if k + 1 >= ids.len() {
        Ok(state)
    } else {
        let a = ids[k];
        let b = ids[k + 1];
        if a > u32::MAX {
            Err(DotStop::Capacity(count_for(a)))
        } else if b > u32::MAX {
            Err(DotStop::Capacity(count_for(b)))
        } else {
            let seen = match state.0 {
                Some(m) => m,
                None => 0,
            };
            chain_from(ids, k + 1, (Some(larger(larger(seen, a), b)), state.1.push(link(a, b))))
        }
    }
}

/// What one raw statement does to the largest id and the edges.
pub open spec fn read_statement(
    raw: Seq<char>,
    directed: bool,
    state: DotState,
) -> core::result::Result<DotState, DotStop> {
    let t = trimmed(uncommented(raw));
    let s = trimmed(t.take(next_char(t, 0, '[')));
    if s.len() == 0 || default_attribute(s) {
        Ok(state)
    } else if next_pair(s, 0, '-', operator_end(!directed)) < s.len() {
        Err(DotStop::Format("edge operator does not match graph kind"))
    } else {
        match ids_from(s, 0, 0, operator_end(directed)) {
            None => Err(DotStop::Format("node ids must be compact nonnegative integers")),
            Some(ids) => if ids.len() == 1 {
                let m = match state.0 {
                    Some(m) => larger(m, ids[0]),
                    None => ids[0],
                };
                Ok((Some(m), state.1))
            } else {
                chain_from(ids, 0, state)
            },
        }
    }
}

/// The statements of `body` from `p` on, the current one begun as `current`.
pub open spec fn read_body(
    body: Seq<char>,
    p: int,
    current: Seq<char>,
    directed: bool,
    state: DotState,
) -> core::result::Result<DotState, DotStop>
    decreases body.len() - p,
{
    if p >= body.len() {
        read_statement(current, directed, state)
    } else if body[p] == ';' {
        match read_statement(current, directed, state) {
            Ok(next) => read_body(body, p + 1, Seq::empty(), directed, next),
            Err(e) => Err(e),
        }
    } else {
        read_body(body, p + 1, current.push(body[p]), directed, state)
    }
}

/// The node count and edges a DOT text describes, or why it is refused.
pub open spec fn dot_read(s: Seq<char>, directed: bool) -> core::result::Result<(usize, Seq<EdgeEndpoints<NodeIndex>>), DotStop> {
    let open = next_char(s, 0, '{');
    let close = prev_char(s, s.len() as int, '}');
    if open >= s.len() {
        Err(DotStop::Format("missing opening brace"))
    } else if close < 0 {
        Err(DotStop::Format("missing closing brace"))
    } else if close <= open {
        Err(DotStop::Format("closing brace precedes graph body"))
    } else if !header_fits(s.take(open), directed) {
        Err(DotStop::Format("graph header has the wrong kind"))
    } else {
        counted(read_body(s.subrange(open + 1, close), 0, Seq::empty(), directed, (None, Seq::empty())))
    }
}

/// A finished reading with its node count: one past the largest id.
pub open spec fn counted(r: core::result::Result<DotState, DotStop>) -> core::result::Result<
    (usize, Seq<EdgeEndpoints<NodeIndex>>),
    DotStop,
> {
    match r {
        Err(e) => Err(e),
        Ok((largest, edges)) => Ok(
            (
                match largest {
                    Some(m) => count_for(m),
                    None => 0,
                },
                edges,
            ),
        ),
    }
}

/// The error a refusal is reported as.
pub open spec fn stop_reported(stop: DotStop, e: GraphError) -> bool {
    match stop {
        DotStop::Format(reason) => e matches GraphError::InvalidFormat { format, reason: text } && format == "DOT"
            && text@ == reason@,
        DotStop::Capacity(count) => e == GraphError::IndexCapacityExceeded { category: "DOT nodes", count },
    }
}

pub(crate) fn next_index(s: &Vec<char>, from: usize, c: char) -> (r: usize)
    requires
        from <= s@.len(),
    ensures
        r == next_char(s@, from as int, c),
        from <= r <= s@.len(),
{
    let mut q = from;
    while q < s.len() && s[q] != c
        invariant
            from <= q <= s@.len(),
            next_char(s@, from as int, c) == next_char(s@, q as int, c),
        decreases s@.len() - q,
    {
        q += 1;
    }
    q
}

fn next_pair_index(s: &Vec<char>, from: usize, a: char, b: char) -> (r: usize)
    requires
        from <= s@.len(),
    ensures
        r == next_pair(s@, from as int, a, b),
        r == s@.len() || (from <= r && r + 1 < s@.len()),
{
    let mut q = from;
    while s.len() - q > 1 && !(s[q] == a && s[q + 1] == b)
        invariant
            from <= q <= s@.len(),
            next_pair(s@, from as int, a, b) == next_pair(s@, q as int, a, b),
        decreases s@.len() - q,
    {
        q += 1;
    }
    if s.len() - q > 1 {
        q
    } else {
        s.len()
    }
}

fn last_index(s: &Vec<char>, c: char) -> (r: Option<usize>)
    ensures
        match r {
            Some(q) => q == prev_char(s@, s@.len() as int, c) && q < s@.len(),
            None => prev_char(s@, s@.len() as int, c) < 0,
        },
{
    let mut p = s.len();
    while p > 0 && s[p - 1] != c
        invariant
            p <= s@.len(),
            prev_char(s@, s@.len() as int, c) == prev_char(s@, p as int, c),
        decreases p,
    {
        p -= 1;
    }
    if p > 0 {
        Some(p - 1)
    } else {
        None
    }
}

pub(crate) fn copy_range(s: &Vec<char>, lo: usize, hi: usize) -> (r: Vec<char>)
    requires
        lo <= hi <= s@.len(),
    ensures
        r@ == s@.subrange(lo as int, hi as int),
{
    let mut out: Vec<char> = Vec::new();
    let mut k = lo;
    while k < hi
        invariant
            lo <= k <= hi <= s@.len(),
            out@ == s@.subrange(lo as int, k as int),
        decreases hi - k,
    {
        out.push(s[k]);
        k += 1;
    }
    out
}

fn trimmed_copy(s: &Vec<char>, lo: usize, hi: usize) -> (r: Vec<char>)
    requires
        lo <= hi <= s@.len(),
    ensures
        r@ == trimmed(s@.subrange(lo as int, hi as int)),
{
    let (a, b) = trim_range(s, lo, hi);
    copy_range(s, a, b)
}

fn lower(c: char) -> (r: char)
    ensures
        r == ascii_lower(c),
{
    let v = c as u32;
    if 65 <= v && v <= 90 {
        ((v + 32) as u8) as char
    } else {
        c
    }
}

pub(crate) fn is_ascii_space(c: char) -> (r: bool)
    ensures
        r == ascii_space(c),
{
    c == ' ' || c == '\t' || c == '\n' || c == '\x0C' || c == '\r'
}

fn token_here(h: &Vec<char>, i: usize, word: &[char]) -> (r: bool)
    requires
        i + word@.len() <= h@.len(),
    ensures
        r == token_at(h@, i as int, word@),
{
    let w = word.len();
    let n = h.len();
    if i > 0 && !is_ascii_space(h[i - 1]) {
        return false;
    }
    if i + w < n && !is_ascii_space(h[i + w]) {
        return false;
    }
    let mut k: usize = 0;
    while k < w
        invariant
            k <= w == word@.len(),
            i + w <= n == h@.len(),
            forall|j: int| 0 <= j < k ==> ascii_lower(#[trigger] h@[i + j]) == word@[j],
        decreases w - k,
    {
        if lower(h[i + k]) != word[k] {
            return false;
        }
        k += 1;
    }
    true
}

fn token_in(h: &Vec<char>, word: &[char]) -> (r: bool)
    requires
        word@.len() > 0,
    ensures
        r == has_token(h@, word@),
{
    let n = h.len();
    let w = word.len();
    if w > n {
        return false;
    }
    let mut i: usize = 0;
    while i <= n - w
        invariant
            0 < w <= n == h@.len(),
            w == word@.len(),
            i <= n - w + 1,
            forall|j: int| 0 <= j < i ==> !token_at(h@, j, word@),
        decreases n - w + 1 - i,
    {
        if token_here(h, i, word) {
            return true;
        }
        i += 1;
    }
    false
}

proof fn lemma_numeral_step(d: Seq<char>, k: int)
    requires
        0 <= k < d.len(),
    ensures
        numeral(d.take(k + 1)) == numeral(d.take(k)) * 10 + (d[k] as int - '0' as int),
{
    assert(d.take(k + 1).drop_last() =~= d.take(k));
}

proof fn lemma_numeral_grows(d: Seq<char>, k: int)
    requires
        all_digits(d),
        0 <= k <= d.len(),
    ensures
        0 <= numeral(d.take(k)) <= numeral(d),
    decreases d.len(),
{
    if k == d.len() {
        assert(d.take(k) =~= d);
        if d.len() > 0 {
            let e = d.drop_last();
            assert(all_digits(e)) by {
                assert forall|j: int| 0 <= j < e.len() implies '0' <= #[trigger] e[j] <= '9' by {
                    assert(e[j] == d[j]);
                }
            }
            lemma_numeral_grows(e, e.len() as int);
            assert(e.take(e.len() as int) =~= e);
        }
    } else {
        let e = d.drop_last();
        assert(all_digits(e)) by {
            assert forall|j: int| 0 <= j < e.len() implies '0' <= #[trigger] e[j] <= '9' by {
                assert(e[j] == d[j]);
            }
        }
        lemma_numeral_grows(e, k);
        lemma_numeral_grows(e, e.len() as int);
        assert(e.take(k) =~= d.take(k));
        assert(e.take(e.len() as int) =~= e);
        assert('0' <= d[d.len() - 1] <= '9');
    }
}

/// The value of `s[lo..hi]` read as an unsigned number.
fn unsigned_in(s: &Vec<char>, lo: usize, hi: usize) -> (r: Option<usize>)
    requires
        lo <= hi <= s@.len(),
    ensures
        r == unsigned_value(s@.subrange(lo as int, hi as int)),
{
    let ghost t = s@.subrange(lo as int, hi as int);
    let mut a = lo;
    if a < hi && s[a] == '+' {
        a += 1;
    }
    let ghost d = s@.subrange(a as int, hi as int);
    proof {
        if lo < hi && s@[lo as int] == '+' {
            assert(d =~= t.skip(1));
        } else {
            assert(d =~= t);
        }
    }
    if a == hi {
        return None;
    }
    let mut value: usize = 0;
    let mut k = a;
    while k < hi
        invariant
            lo <= a <= k <= hi <= s@.len(),
            d == s@.subrange(a as int, hi as int),
            unsigned_value(s@.subrange(lo as int, hi as int)) == digit_run(d),
            value == numeral(d.take(k - a)),
            all_digits(d.take(k - a)),
        decreases hi - k,
    {
        let c = s[k];
        proof {
            assert(d[k - a] == c);
            lemma_numeral_step(d, k - a);
        }
        if !('0' <= c && c <= '9') {
            proof {
                assert(!all_digits(d));
            }
            return None;
        }
        let digit = ((c as u32) - 48) as usize;
        let grown = match value.checked_mul(10) {
            Some(v) => v.checked_add(digit),
            None => None,
        };
        match grown {
            Some(v) => {
                value = v;
            },
            None => {
                proof {
                    if all_digits(d) {
                        lemma_numeral_grows(d, k - a + 1);
                    }
                }
                return None;
            },
        }
        proof {
            assert(all_digits(d.take(k + 1 - a))) by {
                assert forall|j: int| 0 <= j < k + 1 - a implies '0' <= #[trigger] d.take(k + 1 - a)[j] <= '9' by {
                    if j < k - a {
                        assert(d.take(k + 1 - a)[j] == d.take(k - a)[j]);
                    }
                }
            }
        }
        k += 1;
    }
    proof {
        assert(d.take(hi - a) =~= d);
    }
    Some(value)
}

/// The node id in `s[lo..hi]`.
fn node_id_in(s: &Vec<char>, lo: usize, hi: usize) -> (r: Option<usize>)
    requires
        lo <= hi <= s@.len(),
    ensures
        r == node_id(s@.subrange(lo as int, hi as int)),
{
    let (a, b) = trim_range(s, lo, hi);
    let ghost t = s@.subrange(a as int, b as int);
    let mut a2 = a;
    let mut b2 = b;
    if b - a >= 2 && s[a] == '"' && s[b - 1] == '"' {
        a2 = a + 1;
        b2 = b - 1;
        proof {
            assert(t.subrange(1, t.len() - 1) =~= s@.subrange(a2 as int, b2 as int));
        }
    } else {
        proof {
            if t.len() >= 2 && t[0] == '"' && t.last() == '"' {
                assert(t[0] == s@[a as int] && t.last() == s@[b - 1]);
            }
        }
    }
    let ghost u = s@.subrange(a2 as int, b2 as int);
    let mut a3 = a2;
    if b2 - a2 >= 2 && s[a2] == 'n' {
        a3 = a2 + 1;
        proof {
            assert(u.skip(1) =~= s@.subrange(a3 as int, b2 as int));
        }
    } else {
        proof {
            if u.len() >= 2 && u[0] == 'n' {
                assert(u[0] == s@[a2 as int]);
            }
        }
    }
    let (c, e) = trim_range(s, a3, b2);
    unsigned_in(s, c, e)
}

/// `s` with `pre` put before what it holds.
pub open spec fn after(pre: Seq<usize>, s: Option<Seq<usize>>) -> Option<Seq<usize>> {
    match s {
        Some(rest) => Some(pre + rest),
        None => None,
    }
}

/// The ids of `s` separated by `-` then `end`.
fn ids_in(s: &Vec<char>, end: char) -> (r: Option<Vec<usize>>)
    ensures
        match ids_from(s@, 0, 0, end) {
            Some(ids) => r matches Some(v) && v@ == ids,
            None => r is None,
        },
{
    let n = s.len();
    let mut ids: Vec<usize> = Vec::new();
    let mut start: usize = 0;
    let mut p: usize = 0;
    proof {
        assert(ids@ + Seq::<usize>::empty() =~= Seq::<usize>::empty());
        match ids_from(s@, 0, 0, end) {
            Some(all) => {
                assert(ids@ + all =~= all);
            },
            None => {},
        }
    }
    loop
        invariant
            n == s@.len(),
            start <= p <= n,
            ids_from(s@, 0, 0, end) == after(ids@, ids_from(s@, start as int, p as int, end)),
        decreases n - p,
    {
        if p >= n {
            match node_id_in(s, start, n) {
                Some(id) => {
                    ids.push(id);
                    return Some(ids);
                },
                None => {
                    return None;
                },
            }
        }
        if n - p > 1 && s[p] == '-' && s[p + 1] == end {
            match node_id_in(s, start, p) {
                Some(id) => {
                    let ghost before = ids@;
                    ids.push(id);
                    proof {
                        match ids_from(s@, p + 2, p + 2, end) {
                            Some(rest) => {
                                assert(before + (seq![id] + rest) =~= ids@ + rest);
                            },
                            None => {},
                        }
                    }
                    start = p + 2;
                    p = p + 2;
                },
                None => {
                    return None;
                },
            }
        } else {
            p += 1;
        }
    }
}

fn begins_with(s: &Vec<char>, w: &[char]) -> (r: bool)
    ensures
        r == begins(s@, w@),
{
    let n = w.len();
    if s.len() < n {
        return false;
    }
    let mut k: usize = 0;
    while k < n
        invariant
            k <= n == w@.len() <= s@.len(),
            forall|j: int| 0 <= j < k ==> s@[j] == w@[j],
        decreases n - k,
    {
        if s[k] != w[k] {
            proof {
                assert(s@.take(n as int)[k as int] != w@[k as int]);
            }
            return false;
        }
        k += 1;
    }
    proof {
        assert(s@.take(n as int) =~= w@);
    }
    true
}

/// Joins each consecutive pair of `ids` by an edge.
fn chain(ids: &Vec<usize>, largest: &mut Option<usize>, edges: &mut Vec<EdgeEndpoints<NodeIndex>>) -> (r:
    core::result::Result<(), DotStop>)
    ensures
        match chain_from(ids@, 0, (*old(largest), old(edges)@)) {
            Ok(state) => r is Ok && *final(largest) == state.0 && final(edges)@ == state.1,
            Err(e) => r == Err::<(), DotStop>(e),
        },
{
    let mut k: usize = 0;
    while ids.len() - k > 1
        invariant
            k <= ids@.len(),
            chain_from(ids@, 0, (*old(largest), old(edges)@)) == chain_from(ids@, k as int, (*largest, edges@)),
        decreases ids@.len() - k,
    {
        let a = ids[k];
        let b = ids[k + 1];
        if a > 4294967295 {
            let count = if a == usize::MAX {
                usize::MAX
            } else {
                a + 1
            };
            return Err(DotStop::Capacity(count));
        }
        if b > 4294967295 {
            let count = if b == usize::MAX {
                usize::MAX
            } else {
                b + 1
            };
            return Err(DotStop::Capacity(count));
        }
        let seen = match *largest {
            Some(m) => m,
            None => 0,
        };
        let top = if seen < a {
            a
        } else {
            seen
        };
        let top = if top < b {
            b
        } else {
            top
        };
        *largest = Some(top);
        edges.push(EdgeEndpoints { source: NodeIndex(a as u32), target: NodeIndex(b as u32) });
        k += 1;
    }
    Ok(())
}

/// Applies one raw statement to the largest id and the edges.
fn statement(
    raw: &Vec<char>,
    directed: bool,
    largest: &mut Option<usize>,
    edges: &mut Vec<EdgeEndpoints<NodeIndex>>,
) -> (r: core::result::Result<(), DotStop>)
    ensures
        match read_statement(raw@, directed, (*old(largest), old(edges)@)) {
            Ok(state) => r is Ok && *final(largest) == state.0 && final(edges)@ == state.1,
            Err(e) => r == Err::<(), DotStop>(e),
        },
{
    let cut = next_pair_index(raw, 0, '/', '/');
    let pre = copy_range(raw, 0, cut);
    let hash = next_index(&pre, 0, '#');
    let t = trimmed_copy(&pre, 0, hash);
    proof {
        assert(pre@ =~= raw@.take(cut as int));
        assert(pre@.subrange(0, hash as int) =~= pre@.take(hash as int));
    }
    let bracket = next_index(&t, 0, '[');
    let st = trimmed_copy(&t, 0, bracket);
    proof {
        assert(t@.subrange(0, bracket as int) =~= t@.take(bracket as int));
        assert(raw@.subrange(0, raw@.len() as int) =~= raw@);
    }
    if st.len() == 0 || begins_with(&st, &['g', 'r', 'a', 'p', 'h']) || begins_with(&st, &['n', 'o', 'd', 'e'])
        || begins_with(&st, &['e', 'd', 'g', 'e']) {
        return Ok(());
    }
    let (other, end) = if directed {
        ('-', '>')
    } else {
        ('>', '-')
    };
    if next_pair_index(&st, 0, '-', other) < st.len() {
        return Err(DotStop::Format("edge operator does not match graph kind"));
    }
    let ids = match ids_in(&st, end) {
        Some(v) => v,
        None => {
            return Err(DotStop::Format("node ids must be compact nonnegative integers"));
        },
    };
    if ids.len() == 1 {
        let id = ids[0];
        let m = match *largest {
            Some(m) => if m < id {
                id
            } else {
                m
            },
            None => id,
        };
        *largest = Some(m);
        return Ok(());
    }
    chain(&ids, largest, edges)
}

/// Reads a DOT text into a node count and edges, or says why it is refused.
fn read_text(input: &str, directed: bool) -> (r: core::result::Result<(usize, Vec<EdgeEndpoints<NodeIndex>>), DotStop>)
    ensures
        match dot_read(input@, directed) {
            Ok((n, es)) => r matches Ok((m, v)) && m == n && v@ == es,
            Err(e) => r matches Err(f) && f == e,
        },
{
    let s = chars_of(input);
    let open = next_index(&s, 0, '{');
    if open >= s.len() {
        return Err(DotStop::Format("missing opening brace"));
    }
    let close = match last_index(&s, '}') {
        Some(c) => c,
        None => {
            return Err(DotStop::Format("missing closing brace"));
        },
    };
    if close <= open {
        return Err(DotStop::Format("closing brace precedes graph body"));
    }
    let header = trimmed_copy(&s, 0, open);
    proof {
        assert(s@.subrange(0, open as int) =~= s@.take(open as int));
    }
    let digraph = token_in(&header, &['d', 'i', 'g', 'r', 'a', 'p', 'h']);
    let fits = if directed {
        digraph
    } else {
        !digraph && token_in(&header, &['g', 'r', 'a', 'p', 'h'])
    };
    if !fits {
        return Err(DotStop::Format("graph header has the wrong kind"));
    }
    let ghost body = s@.subrange(open + 1, close as int);
    let mut largest: Option<usize> = None;
    let mut edges: Vec<EdgeEndpoints<NodeIndex>> = Vec::new();
    let mut current: Vec<char> = Vec::new();
    let mut p = open + 1;
    while p < close
        invariant
            open < p <= close,
            close < s@.len(),
            s@ == input@,
            body == s@.subrange(open + 1, close as int),
            dot_read(input@, directed) == counted(read_body(body, 0, Seq::empty(), directed, (None, Seq::empty()))),
            read_body(body, 0, Seq::empty(), directed, (None, Seq::empty())) == read_body(
                body,
                p - open - 1,
                current@,
                directed,
                (largest, edges@),
            ),
        decreases close - p,
    {
        let c = s[p];
        proof {
            assert(body[p - open - 1] == c);
        }
        if c == ';' {
            match statement(&current, directed, &mut largest, &mut edges) {
                Ok(()) => {},
                Err(e) => {
                    return Err(e);
                },
            }
            current = Vec::new();
        } else {
            current.push(c);
        }
        p += 1;
    }
    match statement(&current, directed, &mut largest, &mut edges) {
        Ok(()) => {},
        Err(e) => {
            return Err(e);
        },
    }
    let n = match largest {
        Some(m) => if m == usize::MAX {
            usize::MAX
        } else {
            m + 1
        },
        None => 0,
    };
    Ok((n, edges))
}

/// The error a refusal is reported as.
fn stop_error(stop: DotStop) -> (e: GraphError)
    ensures
        stop_reported(stop, e),
{
    match stop {
        DotStop::Format(reason) => GraphError::InvalidFormat { format: "DOT", reason: reason.to_owned() },
        DotStop::Capacity(count) => GraphError::IndexCapacityExceeded { category: "DOT nodes", count },
    }
}

/// Reads the numeric strict-DOT subset that `topology_to_dot` writes into
/// a directed topology. Attributes and comments are ignored; ids may be
/// quoted or follow an `n`; edge statements may chain.
///
/// # Errors
///
/// Returns an error for a malformed header, id or edge statement, for an id
/// that does not fit a compact index, and for whatever the topology's
/// constructor refuses.
pub fn topology_from_dot(input: &str) -> (r: Result<Topology>)
    ensures
        match dot_read(input@, true) {
            Ok((n, edges)) => builds(n, edges, r),
            Err(stop) => r matches Err(e) && stop_reported(stop, e),
        },
{
    match read_text(input, true) {
        Ok((n, edges)) => Topology::try_from_edges(n, edges),
        Err(stop) => Err(stop_error(stop)),
    }
}

/// Reads the numeric strict-DOT subset that `undirected_to_dot` writes
/// into an undirected topology.
///
/// # Errors
///
/// Returns an error for a malformed header, id or edge statement, for an id
/// that does not fit a compact index, and for whatever the topology's
/// constructor refuses.
pub fn undirected_from_dot(input: &str) -> (r: Result<UndirectedTopology>)
    ensures
        match dot_read(input@, false) {
            Ok((n, edges)) => ubuilds(n, edges, r),
            Err(stop) => r matches Err(e) && stop_reported(stop, e),
        },
{
    match read_text(input, false) {
        Ok((n, edges)) => UndirectedTopology::try_from_edges(n, edges),
        Err(stop) => Err(stop_error(stop)),
    }
}

} // verus!
