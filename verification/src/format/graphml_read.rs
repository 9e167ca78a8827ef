//! Reading the structural GraphML subset: one `graph` element, its `node`
//! elements mapped to indexes in declaration order, and `edge` elements
//! between declared ids. Nested features that would be lost (hyperedges,
//! ports, locators, per-edge directions) are refused.
use super::dot_read::{ascii_space, copy_range, is_ascii_space, next_char, next_index};
use super::text::{chars_of, is_white_space, white_space};
use crate::error::{GraphError, Result};
use crate::topology::{builds, ubuilds, EdgeEndpoints, NodeIndex, Topology, UndirectedTopology};
use vstd::prelude::*;

verus! {

/// Why a GraphML text is refused before a topology is built from it.
pub enum GraphmlStop {
    /// The text is malformed, for the reason given.
    Format(&'static str),
    /// The text uses a feature that the topology cannot hold.
    Unsupported(&'static str),
    /// A node index does not fit a compact index; the node count it asks for.
    Capacity(usize),
}

/// What a reading gives: the kind of graph, the node count, the edges.
pub type GraphmlRead = (bool, usize, Seq<EdgeEndpoints<NodeIndex>>);

/// `w` occurs in `s` at `i`.
pub open spec fn found_at(s: Seq<char>, i: int, w: Seq<char>) -> bool {
    0 <= i && i + w.len() <= s.len() && s.subrange(i, i + w.len()) == w
}

/// The first position at or after `p` where `w` occurs, or the length.
pub open spec fn find_from(s: Seq<char>, p: int, w: Seq<char>) -> int
    decreases s.len() - p,
{
    if p < 0 || p >= s.len() || p + w.len() > s.len() {
        s.len() as int
    } else if found_at(s, p, w) {
        p
    } else {
        find_from(s, p + 1, w)
    }
}

/// The first position at or after `p` that is not white space, or the
/// length.
pub open spec fn skip_white(s: Seq<char>, p: int) -> int
    decreases s.len() - p,
{
    if p >= s.len() {
        s.len() as int
    } else if white_space(s[p]) {
        skip_white(s, p + 1)
    } else {
        p
    }
}

/// How many bytes UTF-8 spends on `c`.
pub open spec fn utf8_width(c: char) -> int {
    if (c as u32) < 0x80 {
        1
    } else if (c as u32) < 0x800 {
        2
    } else if (c as u32) < 0x10000 {
        3
    } else {
        4
    }
}

/// The position `k` bytes past `q`, or the end when fewer are left;
/// `None` when that byte lies inside a character, where slicing stops.
pub open spec fn byte_skip(s: Seq<char>, q: int, k: int) -> Option<int>
    decreases k,
{
    if k <= 0 || q >= s.len() {
        Some(if q >= s.len() {
            s.len() as int
        } else {
            q
        })
    } else if utf8_width(s[q]) > k {
        None
    } else {
        byte_skip(s, q + 1, k - utf8_width(s[q]))
    }
}

/// The value of attribute `name` in `tag`, searching from `p`: `Some(None)`
/// when absent, `None` where the search stops inside a character.
pub open spec fn attribute_from(tag: Seq<char>, p: int, name: Seq<char>) -> Option<Option<Seq<char>>>
    decreases tag.len() - p,
{
    if p < 0 || name.len() == 0 {
        Some(None)
    } else {
        let pos = find_from(tag, p, name);
        if pos >= tag.len() || pos < p {
            Some(None)
        } else {
            let a = skip_white(tag, pos + name.len());
            let before_ok = pos == p || ascii_space(tag[pos - 1]);
            if before_ok && !(a < tag.len() && tag[a] == '=') {
                Some(None)
            } else if before_ok && skip_white(tag, a + 1) >= tag.len() {
                Some(None)
            } else if before_ok && (tag[skip_white(tag, a + 1)] == '"' || tag[skip_white(tag, a + 1)] == '\'') {
                let b = skip_white(tag, a + 1);
                let e = next_char(tag, b + 1, tag[b]);
                if e >= tag.len() {
                    Some(None)
                } else {
                    Some(Some(tag.subrange(b + 1, e)))
                }
            } else if a < pos + name.len() {
                Some(None)
            } else {
                match byte_skip(tag, a, name.len() as int) {
                    None => None,
                    Some(q) => if q <= p || q > tag.len() {
                        Some(None)
                    } else {
                        attribute_from(tag, q, name)
                    },
                }
            }
        }
    }
}

/// The value of attribute `name` in `tag`.
pub open spec fn attribute(tag: Seq<char>, name: Seq<char>) -> Option<Option<Seq<char>>> {
    attribute_from(tag, 0, name)
}

/// The character after a tag name ends the name.
pub open spec fn ends_name(c: char) -> bool {
    ascii_space(c) || c == '/' || c == '>'
}

/// The contents of the `name` elements' tags from `p` on, as ranges of `s`;
/// `None` for a tag with no closing `>`.
pub open spec fn elements_from(s: Seq<char>, p: int, name: Seq<char>) -> Option<Seq<(int, int)>>
    decreases s.len() - p,
{
    if p < 0 || p >= s.len() {
        Some(Seq::empty())
    } else if s[p] != '<' {
        elements_from(s, p + 1, name)
    } else if p + 1 < s.len() && (s[p + 1] == '/' || s[p + 1] == '?' || s[p + 1] == '!') {
        elements_from(s, p + 1, name)
    } else if !(found_at(s, p + 1, name) && p + 1 + name.len() < s.len() && ends_name(s[p + 1 + name.len()])) {
        elements_from(s, p + 1, name)
    } else {
        let e = next_char(s, p + 1, '>');
        if e >= s.len() || e <= p {
            None
        } else {
            match elements_from(s, e + 1, name) {
                Some(rest) => Some(seq![(p + 1, e)] + rest),
                None => None,
            }
        }
    }
}

/// The contents of the `name` elements' tags, as ranges of `s`.
pub open spec fn elements(s: Seq<char>, name: Seq<char>) -> Option<Seq<(int, int)>> {
    elements_from(s, 0, name)
}

/// The text of a range of `s`.
pub open spec fn range_text(s: Seq<char>, r: (int, int)) -> Seq<char> {
    s.subrange(r.0, r.1)
}

/// The refusal of the first feature in `names` that has elements in `s`,
/// or of an unterminated tag on the way.
pub open spec fn rejected(s: Seq<char>, names: Seq<Seq<char>>, labels: Seq<&'static str>, k: int) -> Option<
    GraphmlStop,
>
    decreases names.len() - k,
{
    if k < 0 || k >= names.len() {
        None
    } else {
        match elements(s, names[k]) {
            None => Some(GraphmlStop::Format("unterminated XML tag")),
            Some(found) => if found.len() > 0 {
                Some(GraphmlStop::Unsupported(labels[k]))
            } else {
                rejected(s, names, labels, k + 1)
            },
        }
    }
}

/// The first position at or after `k` of `id` among `ids`, if it is there.
pub open spec fn position_from(ids: Seq<Seq<char>>, id: Seq<char>, k: int) -> Option<int>
    decreases ids.len() - k,
{
    if k < 0 || k >= ids.len() {
        None
    } else if ids[k] == id {
        Some(k)
    } else {
        position_from(ids, id, k + 1)
    }
}

/// The position of `id` among `ids`, if it is there.
pub open spec fn position_of(ids: Seq<Seq<char>>, id: Seq<char>) -> Option<int> {
    position_from(ids, id, 0)
}

/// The ids of the node tags from the `k`th on, appended to `ids`.
pub open spec fn node_ids(s: Seq<char>, tags: Seq<(int, int)>, k: int, ids: Seq<Seq<char>>) -> Option<
    core::result::Result<Seq<Seq<char>>, GraphmlStop>,
>
    decreases tags.len() - k,
{
    if k < 0 || k >= tags.len() {
        Some(Ok(ids))
    } else {
        match attribute(range_text(s, tags[k]), seq!['i', 'd']) {
            None => None,
            Some(None) => Some(Err(GraphmlStop::Format("missing id attribute"))),
            Some(Some(id)) => if ids.contains(id) {
                Some(Err(GraphmlStop::Format("duplicate node id")))
            } else {
                node_ids(s, tags, k + 1, ids.push(id))
            },
        }
    }
}

/// The node count a position asks for, saturating.
pub open spec fn index_count(i: int) -> usize {
    if i >= usize::MAX {
        usize::MAX
    } else {
        (i + 1) as usize
    }
}

/// The edges of the edge tags from the `k`th on, appended to `edges`.
pub open spec fn edge_list(
    s: Seq<char>,
    tags: Seq<(int, int)>,
    k: int,
    ids: Seq<Seq<char>>,
    edges: Seq<EdgeEndpoints<NodeIndex>>,
) -> Option<core::result::Result<Seq<EdgeEndpoints<NodeIndex>>, GraphmlStop>>
    decreases tags.len() - k,
{
    if k < 0 || k >= tags.len() {
        Some(Ok(edges))
    } else {
        let tag = range_text(s, tags[k]);
        match attribute(tag, seq!['d', 'i', 'r', 'e', 'c', 't', 'e', 'd']) {
            None => None,
            Some(Some(_)) => Some(Err(GraphmlStop::Unsupported("per-edge direction overrides"))),
            Some(None) => match attribute(tag, seq!['s', 'o', 'u', 'r', 'c', 'e']) {
                None => None,
                Some(None) => Some(Err(GraphmlStop::Format("missing source attribute"))),
                Some(Some(source)) => match attribute(tag, seq!['t', 'a', 'r', 'g', 'e', 't']) {
                    None => None,
                    Some(None) => Some(Err(GraphmlStop::Format("missing target attribute"))),
                    Some(Some(target)) => match position_of(ids, source) {
                        None => Some(Err(GraphmlStop::Format("edge references an unknown source"))),
                        Some(a) => match position_of(ids, target) {
                            None => Some(Err(GraphmlStop::Format("edge references an unknown target"))),
                            Some(b) => if a > u32::MAX {
                                Some(Err(GraphmlStop::Capacity(index_count(a))))
                            } else if b > u32::MAX {
                                Some(Err(GraphmlStop::Capacity(index_count(b))))
                            } else {
                                edge_list(
                                    s,
                                    tags,
                                    k + 1,
                                    ids,
                                    edges.push(
                                        EdgeEndpoints { source: NodeIndex(a as u32), target: NodeIndex(b as u32) },
                                    ),
                                )
                            },
                        },
                    },
                },
            },
        }
    }
}

/// The features refused wherever they appear.
pub open spec fn refused_names() -> Seq<Seq<char>> {
    seq![
        seq!['h', 'y', 'p', 'e', 'r', 'e', 'd', 'g', 'e'],
        seq!['p', 'o', 'r', 't'],
        seq!['l', 'o', 'c', 'a', 't', 'o', 'r'],
    ]
}

/// How each refused feature is reported.
pub open spec fn refused_labels() -> Seq<&'static str> {
    seq!["hyperedge", "port", "locator"]
}

/// The graph a GraphML text describes, or why it is refused; `None` where
/// reading it stops inside a character.
pub open spec fn graphml_read(s: Seq<char>) -> Option<core::result::Result<GraphmlRead, GraphmlStop>> {
    if find_from(s, 0, seq!['<', 'g', 'r', 'a', 'p', 'h', 'm', 'l']) >= s.len() {
        Some(Err(GraphmlStop::Format("missing graphml root")))
    } else {
        match elements(s, seq!['g', 'r', 'a', 'p', 'h']) {
            None => Some(Err(GraphmlStop::Format("unterminated XML tag"))),
            Some(graphs) => if graphs.len() != 1 {
                Some(Err(GraphmlStop::Format("exactly one graph element is required")))
            } else {
                match attribute(
                    range_text(s, graphs[0]),
                    seq!['e', 'd', 'g', 'e', 'd', 'e', 'f', 'a', 'u', 'l', 't'],
                ) {
                    None => None,
                    Some(kind) => if kind != Some(seq!['d', 'i', 'r', 'e', 'c', 't', 'e', 'd']) && kind != Some(
                        seq!['u', 'n', 'd', 'i', 'r', 'e', 'c', 't', 'e', 'd'],
                    ) {
                        Some(Err(GraphmlStop::Format("edgedefault must be directed or undirected")))
                    } else {
                        let directed = kind == Some(seq!['d', 'i', 'r', 'e', 'c', 't', 'e', 'd']);
                        match rejected(s, refused_names(), refused_labels(), 0) {
                            Some(stop) => Some(Err(stop)),
                            None => match elements(s, seq!['n', 'o', 'd', 'e']) {
                                None => Some(Err(GraphmlStop::Format("unterminated XML tag"))),
                                Some(nodes) => match node_ids(s, nodes, 0, Seq::empty()) {
                                    None => None,
                                    Some(Err(stop)) => Some(Err(stop)),
                                    Some(Ok(ids)) => match elements(s, seq!['e', 'd', 'g', 'e']) {
                                        None => Some(Err(GraphmlStop::Format("unterminated XML tag"))),
                                        Some(tags) => match edge_list(s, tags, 0, ids, Seq::empty()) {
                                            None => None,
                                            Some(Err(stop)) => Some(Err(stop)),
                                            Some(Ok(edges)) => Some(Ok((directed, ids.len() as usize, edges))),
                                        },
                                    },
                                },
                            },
                        }
                    }
                }
            },
        }
    }
}

/// The error a refusal is reported as.
pub open spec fn graphml_reported(stop: GraphmlStop, e: GraphError) -> bool {
    match stop {
        GraphmlStop::Format(reason) => e matches GraphError::InvalidFormat { format, reason: text } && format
            == "GraphML" && text@ == reason@,
        GraphmlStop::Unsupported(feature) => e == GraphError::UnsupportedGraphFeature { format: "GraphML", feature },
        GraphmlStop::Capacity(count) => e == GraphError::IndexCapacityExceeded { category: "GraphML nodes", count },
    }
}

fn matches_at(s: &Vec<char>, q: usize, w: &[char]) -> (r: bool)
    requires
        q + w@.len() <= s@.len(),
    ensures
        r == found_at(s@, q as int, w@),
{
    let m = w.len();
    let n = s.len();
    let mut k: usize = 0;
    while k < m
        invariant
            k <= m == w@.len(),
            q + m <= n == s@.len(),
            forall|j: int| 0 <= j < k ==> s@[q + j] == w@[j],
        decreases m - k,
    {
        if s[q + k] != w[k] {
            proof {
                assert(s@.subrange(q as int, q + m)[k as int] != w@[k as int]);
            }
            return false;
        }
        k += 1;
    }
    proof {
        assert(s@.subrange(q as int, q + m) =~= w@);
    }
    true
}

fn find_index(s: &Vec<char>, from: usize, w: &[char]) -> (r: usize)
    requires
        from <= s@.len(),
    ensures
        r == find_from(s@, from as int, w@),
        r == s@.len() || (from <= r && found_at(s@, r as int, w@)),
{
    let n = s.len();
    let m = w.len();
    let mut q = from;
    while q < n && m <= n - q && !matches_at(s, q, w)
        invariant
            from <= q <= n == s@.len(),
            m == w@.len(),
            find_from(s@, from as int, w@) == find_from(s@, q as int, w@),
        decreases n - q,
    {
        q += 1;
    }
    if q < n && m <= n - q {
        q
    } else {
        n
    }
}

fn skip_white_index(s: &Vec<char>, from: usize) -> (r: usize)
    requires
        from <= s@.len(),
    ensures
        r == skip_white(s@, from as int),
        from <= r <= s@.len(),
{
    let mut q = from;
    while q < s.len() && is_white_space(s[q])
        invariant
            from <= q <= s@.len(),
            skip_white(s@, from as int) == skip_white(s@, q as int),
        decreases s@.len() - q,
    {
        q += 1;
    }
    q
}

fn width(c: char) -> (r: usize)
    ensures
        r == utf8_width(c),
{
    let v = c as u32;
    if v < 0x80 {
        1
    } else if v < 0x800 {
        2
    } else if v < 0x10000 {
        3
    } else {
        4
    }
}

fn byte_skip_index(s: &Vec<char>, from: usize, bytes: usize) -> (r: Option<usize>)
    requires
        from <= s@.len(),
    ensures
        match r {
            Some(q) => byte_skip(s@, from as int, bytes as int) == Some(q as int) && from <= q <= s@.len(),
            None => byte_skip(s@, from as int, bytes as int) is None,
        },
{
    let mut q = from;
    let mut k = bytes;
    while k > 0 && q < s.len()
        invariant
            from <= q <= s@.len(),
            byte_skip(s@, from as int, bytes as int) == byte_skip(s@, q as int, k as int),
        decreases k,
    {
        let w = width(s[q]);
        if w > k {
            return None;
        }
        q += 1;
        k -= w;
    }
    Some(q)
}

/// The value of attribute `name` in `tag`; `None` where the search would
/// stop inside a character.
fn attribute_value(tag: &Vec<char>, name: &[char]) -> (r: Option<Option<Vec<char>>>)
    requires
        name@.len() > 0,
    ensures
        match attribute(tag@, name@) {
            None => r is None,
            Some(None) => r matches Some(None),
            Some(Some(v)) => r matches Some(Some(x)) && x@ == v,
        },
{
    let n = tag.len();
    let m = name.len();
    let mut p: usize = 0;
    loop
        invariant
            p <= n == tag@.len(),
            m == name@.len() > 0,
            attribute(tag@, name@) == attribute_from(tag@, p as int, name@),
        decreases n - p,
    {
        let pos = find_index(tag, p, name);
        if pos >= n {
            return Some(None);
        }
        let a = skip_white_index(tag, pos + m);
        let before_ok = pos == p || is_ascii_space(tag[pos - 1]);
        if before_ok {
            if !(a < n && tag[a] == '=') {
                return Some(None);
            }
            let b = skip_white_index(tag, a + 1);
            if b >= n {
                return Some(None);
            }
            let quote = tag[b];
            if quote == '"' || quote == '\'' {
                let e = next_index(tag, b + 1, quote);
                if e >= n {
                    return Some(None);
                }
                return Some(Some(copy_range(tag, b + 1, e)));
            }
        }
        match byte_skip_index(tag, a, m) {
            None => {
                return None;
            },
            Some(q) => {
                p = q;
            },
        }
    }
}

fn ends_name_char(c: char) -> (r: bool)
    ensures
        r == ends_name(c),
{
    is_ascii_space(c) || c == '/' || c == '>'
}

/// Ranges as integer pairs.
pub open spec fn range_view(v: Seq<(usize, usize)>) -> Seq<(int, int)> {
    v.map_values(|r: (usize, usize)| (r.0 as int, r.1 as int))
}

/// `s` with `pre` put before the ranges it holds.
pub open spec fn ranges_after(pre: Seq<(int, int)>, s: Option<Seq<(int, int)>>) -> Option<Seq<(int, int)>> {
    match s {
        Some(rest) => Some(pre + rest),
        None => None,
    }
}

/// The tag contents of the `name` elements of `s`, as ranges.
fn elements_in(s: &Vec<char>, name: &[char]) -> (r: Option<Vec<(usize, usize)>>)
    ensures
        match elements(s@, name@) {
            None => r is None,
            Some(found) => r matches Some(v) && range_view(v@) == found && forall|i: int|
                0 <= i < v@.len() ==> #[trigger] v@[i].0 <= v@[i].1 <= s@.len(),
        },
{
    let n = s.len();
    let m = name.len();
    let mut out: Vec<(usize, usize)> = Vec::new();
    let mut p: usize = 0;
    proof {
        match elements(s@, name@) {
            Some(all) => {
                assert(range_view(out@) + all =~= all);
            },
            None => {},
        }
    }
    loop
        invariant
            p <= n == s@.len(),
            m == name@.len(),
            elements(s@, name@) == ranges_after(range_view(out@), elements_from(s@, p as int, name@)),
            forall|i: int| 0 <= i < out@.len() ==> #[trigger] out@[i].0 <= out@[i].1 <= s@.len(),
        decreases n - p,
    {
        if p >= n {
            proof {
                assert(range_view(out@) + Seq::<(int, int)>::empty() =~= range_view(out@));
            }
            return Some(out);
        }
        if s[p] != '<' {
            p += 1;
        } else if n - p > 1 && (s[p + 1] == '/' || s[p + 1] == '?' || s[p + 1] == '!') {
            p += 1;
        } else if !(m < n - (p + 1) && matches_at(s, p + 1, name) && ends_name_char(s[p + 1 + m])) {
            p += 1;
        } else {
            let e = next_index(s, p + 1, '>');
            if e >= n {
                return None;
            }
            let ghost before = range_view(out@);
            out.push((p + 1, e));
            proof {
                assert(range_view(out@) =~= before.push((p + 1, e as int)));
                match elements_from(s@, e + 1, name@) {
                    Some(rest) => {
                        assert(before + (seq![(p + 1, e as int)] + rest) =~= range_view(out@) + rest);
                    },
                    None => {},
                }
            }
            p = e + 1;
        }
    }
}

fn same_text(a: &Vec<char>, b: &Vec<char>) -> (r: bool)
    ensures
        r == (a@ == b@),
{
    if a.len() != b.len() {
        return false;
    }
    let mut k: usize = 0;
    while k < a.len()
        invariant
            k <= a@.len() == b@.len(),
            forall|j: int| 0 <= j < k ==> a@[j] == b@[j],
        decreases a@.len() - k,
    {
        if a[k] != b[k] {
            return false;
        }
        k += 1;
    }
    proof {
        assert(a@ =~= b@);
    }
    true
}

/// The texts of a list of character vectors.
pub open spec fn texts(v: Seq<Vec<char>>) -> Seq<Seq<char>> {
    v.map_values(|x: Vec<char>| x@)
}

fn position(ids: &Vec<Vec<char>>, id: &Vec<char>) -> (r: Option<usize>)
    ensures
        match r {
            Some(k) => position_of(texts(ids@), id@) == Some(k as int),
            None => position_of(texts(ids@), id@) is None,
        },
{
    let mut k: usize = 0;
    while k < ids.len()
        invariant
            k <= ids@.len(),
            position_of(texts(ids@), id@) == position_from(texts(ids@), id@, k as int),
        decreases ids@.len() - k,
    {
        if same_text(&ids[k], id) {
            return Some(k);
        }
        k += 1;
    }
    None
}

fn tag_text(s: &Vec<char>, range: (usize, usize)) -> (r: Vec<char>)
    requires
        range.0 <= range.1 <= s@.len(),
    ensures
        r@ == range_text(s@, (range.0 as int, range.1 as int)),
{
    copy_range(s, range.0, range.1)
}

/// The ids of the node tags, in order.
fn collect_ids(s: &Vec<char>, tags: &Vec<(usize, usize)>) -> (r: Option<
    core::result::Result<Vec<Vec<char>>, GraphmlStop>,
>)
    requires
        forall|i: int| 0 <= i < tags@.len() ==> #[trigger] tags@[i].0 <= tags@[i].1 <= s@.len(),
    ensures
        match node_ids(s@, range_view(tags@), 0, Seq::empty()) {
            None => r is None,
            Some(Err(e)) => r matches Some(Err(f)) && f == e,
            Some(Ok(ids)) => r matches Some(Ok(v)) && texts(v@) == ids,
        },
{
    let mut ids: Vec<Vec<char>> = Vec::new();
    let mut k: usize = 0;
    proof {
        assert(texts(ids@) =~= Seq::<Seq<char>>::empty());
    }
    while k < tags.len()
        invariant
            k <= tags@.len(),
            forall|i: int| 0 <= i < tags@.len() ==> #[trigger] tags@[i].0 <= tags@[i].1 <= s@.len(),
            node_ids(s@, range_view(tags@), 0, Seq::empty()) == node_ids(
                s@,
                range_view(tags@),
                k as int,
                texts(ids@),
            ),
        decreases tags@.len() - k,
    {
        let tag = tag_text(s, tags[k]);
        proof {
            assert(range_view(tags@)[k as int] == (tags@[k as int].0 as int, tags@[k as int].1 as int));
        }
        let id = match attribute_value(&tag, &['i', 'd']) {
            None => {
                return None;
            },
            Some(None) => {
                return Some(Err(GraphmlStop::Format("missing id attribute")));
            },
            Some(Some(id)) => id,
        };
        match position(&ids, &id) {
            Some(_) => {
                proof {
                    let i = position_of(texts(ids@), id@)->0;
                    lemma_position_found(texts(ids@), id@, 0);
                    assert(texts(ids@)[i] == id@);
                }
                return Some(Err(GraphmlStop::Format("duplicate node id")));
            },
            None => {
                proof {
                    lemma_position_absent(texts(ids@), id@, 0);
                }
            },
        }
        let ghost before = texts(ids@);
        ids.push(id);
        proof {
            assert(texts(ids@) =~= before.push(id@));
        }
        k += 1;
    }
    Some(Ok(ids))
}

proof fn lemma_position_found(ids: Seq<Seq<char>>, id: Seq<char>, k: int)
    requires
        0 <= k,
        position_from(ids, id, k) is Some,
    ensures
        k <= position_from(ids, id, k)->0 < ids.len(),
        ids[position_from(ids, id, k)->0] == id,
    decreases ids.len() - k,
{
    if k < ids.len() && ids[k] != id {
        lemma_position_found(ids, id, k + 1);
    }
}

proof fn lemma_position_absent(ids: Seq<Seq<char>>, id: Seq<char>, k: int)
    requires
        0 <= k,
        position_from(ids, id, k) is None,
    ensures
        forall|i: int| k <= i < ids.len() ==> ids[i] != id,
    decreases ids.len() - k,
{
    if k < ids.len() {
        lemma_position_absent(ids, id, k + 1);
    }
}

/// The edges of the edge tags, in order, between the declared `ids`.
fn collect_edges(s: &Vec<char>, tags: &Vec<(usize, usize)>, ids: &Vec<Vec<char>>) -> (r: Option<
    core::result::Result<Vec<EdgeEndpoints<NodeIndex>>, GraphmlStop>,
>)
    requires
        forall|i: int| 0 <= i < tags@.len() ==> #[trigger] tags@[i].0 <= tags@[i].1 <= s@.len(),
    ensures
        match edge_list(s@, range_view(tags@), 0, texts(ids@), Seq::empty()) {
            None => r is None,
            Some(Err(e)) => r matches Some(Err(f)) && f == e,
            Some(Ok(edges)) => r matches Some(Ok(v)) && v@ == edges,
        },
{
    let mut edges: Vec<EdgeEndpoints<NodeIndex>> = Vec::new();
    let mut k: usize = 0;
    while k < tags.len()
        invariant
            k <= tags@.len(),
            forall|i: int| 0 <= i < tags@.len() ==> #[trigger] tags@[i].0 <= tags@[i].1 <= s@.len(),
            edge_list(s@, range_view(tags@), 0, texts(ids@), Seq::empty()) == edge_list(
                s@,
                range_view(tags@),
                k as int,
                texts(ids@),
                edges@,
            ),
        decreases tags@.len() - k,
    {
        let tag = tag_text(s, tags[k]);
        proof {
            assert(range_view(tags@)[k as int] == (tags@[k as int].0 as int, tags@[k as int].1 as int));
        }
        match attribute_value(&tag, &['d', 'i', 'r', 'e', 'c', 't', 'e', 'd']) {
            None => {
                return None;
            },
            Some(Some(_)) => {
                return Some(Err(GraphmlStop::Unsupported("per-edge direction overrides")));
            },
            Some(None) => {},
        }
        let source = match attribute_value(&tag, &['s', 'o', 'u', 'r', 'c', 'e']) {
            None => {
                return None;
            },
            Some(None) => {
                return Some(Err(GraphmlStop::Format("missing source attribute")));
            },
            Some(Some(v)) => v,
        };
        let target = match attribute_value(&tag, &['t', 'a', 'r', 'g', 'e', 't']) {
            None => {
                return None;
            },
            Some(None) => {
                return Some(Err(GraphmlStop::Format("missing target attribute")));
            },
            Some(Some(v)) => v,
        };
        let a = match position(ids, &source) {
            None => {
                return Some(Err(GraphmlStop::Format("edge references an unknown source")));
            },
            Some(a) => a,
        };
        let b = match position(ids, &target) {
            None => {
                return Some(Err(GraphmlStop::Format("edge references an unknown target")));
            },
            Some(b) => b,
        };
        let ghost rv = range_view(tags@);
        let ghost tag_view = range_text(s@, rv[k as int]);
        proof {
            assert(tag@ == tag_view);
            assert(attribute(tag_view, seq!['s', 'o', 'u', 'r', 'c', 'e']) == Some(Some(source@)));
            assert(attribute(tag_view, seq!['t', 'a', 'r', 'g', 'e', 't']) == Some(Some(target@)));
            assert(position_of(texts(ids@), source@) == Some(a as int));
            assert(position_of(texts(ids@), target@) == Some(b as int));
        }
        if a > 4294967295 {
            let count = if a == usize::MAX {
                usize::MAX
            } else {
                a + 1
            };
            return Some(Err(GraphmlStop::Capacity(count)));
        }
        if b > 4294967295 {
            let count = if b == usize::MAX {
                usize::MAX
            } else {
                b + 1
            };
            proof {
                assert(index_count(b as int) == count);
            }
            return Some(Err(GraphmlStop::Capacity(count)));
        }
        let edge = EdgeEndpoints { source: NodeIndex(a as u32), target: NodeIndex(b as u32) };
        proof {
            assert(edge_list(s@, rv, k as int, texts(ids@), edges@) == edge_list(
                s@,
                rv,
                k + 1,
                texts(ids@),
                edges@.push(edge),
            ));
        }
        edges.push(edge);
        k += 1;
    }
    Some(Ok(edges))
}

/// The refusal of a feature that has elements in `s`, if any.
fn refusal(s: &Vec<char>) -> (r: Option<GraphmlStop>)
    ensures
        r == rejected(s@, refused_names(), refused_labels(), 0),
{
    proof {
        reveal_with_fuel(rejected, 4);
    }
    match elements_in(s, &['h', 'y', 'p', 'e', 'r', 'e', 'd', 'g', 'e']) {
        None => {
            return Some(GraphmlStop::Format("unterminated XML tag"));
        },
        Some(found) => if found.len() > 0 {
            return Some(GraphmlStop::Unsupported("hyperedge"));
        },
    }
    match elements_in(s, &['p', 'o', 'r', 't']) {
        None => {
            return Some(GraphmlStop::Format("unterminated XML tag"));
        },
        Some(found) => if found.len() > 0 {
            return Some(GraphmlStop::Unsupported("port"));
        },
    }
    match elements_in(s, &['l', 'o', 'c', 'a', 't', 'o', 'r']) {
        None => {
            return Some(GraphmlStop::Format("unterminated XML tag"));
        },
        Some(found) => if found.len() > 0 {
            return Some(GraphmlStop::Unsupported("locator"));
        },
    }
    None
}

/// Reads a GraphML text into its kind, node count and edges; `None` where
/// reading would stop inside a character.
fn read_graphml(input: &str) -> (r: Option<core::result::Result<(bool, usize, Vec<EdgeEndpoints<NodeIndex>>), GraphmlStop>>)
    ensures
        match graphml_read(input@) {
            None => r is None,
            Some(Err(e)) => r matches Some(Err(f)) && f == e,
            Some(Ok((d, n, es))) => r matches Some(Ok((d2, n2, v))) && d2 == d && n2 == n && v@ == es,
        },
{
    let s = chars_of(input);
    if find_index(&s, 0, &['<', 'g', 'r', 'a', 'p', 'h', 'm', 'l']) >= s.len() {
        return Some(Err(GraphmlStop::Format("missing graphml root")));
    }
    let graphs = match elements_in(&s, &['g', 'r', 'a', 'p', 'h']) {
        None => {
            return Some(Err(GraphmlStop::Format("unterminated XML tag")));
        },
        Some(g) => g,
    };
    if graphs.len() != 1 {
        return Some(Err(GraphmlStop::Format("exactly one graph element is required")));
    }
    let graph_tag = tag_text(&s, graphs[0]);
    proof {
        assert(range_view(graphs@)[0] == (graphs@[0].0 as int, graphs@[0].1 as int));
    }
    let kind = match attribute_value(&graph_tag, &['e', 'd', 'g', 'e', 'd', 'e', 'f', 'a', 'u', 'l', 't']) {
        None => {
            return None;
        },
        Some(k) => k,
    };
    let directed = match kind {
        Some(v) => if same_text(&v, &vec!['d', 'i', 'r', 'e', 'c', 't', 'e', 'd']) {
            true
        } else if same_text(&v, &vec!['u', 'n', 'd', 'i', 'r', 'e', 'c', 't', 'e', 'd']) {
            false
        } else {
            return Some(Err(GraphmlStop::Format("edgedefault must be directed or undirected")));
        },
        None => {
            return Some(Err(GraphmlStop::Format("edgedefault must be directed or undirected")));
        },
    };
    match refusal(&s) {
        Some(stop) => {
            return Some(Err(stop));
        },
        None => {},
    }
    let nodes = match elements_in(&s, &['n', 'o', 'd', 'e']) {
        None => {
            return Some(Err(GraphmlStop::Format("unterminated XML tag")));
        },
        Some(v) => v,
    };
    let ids = match collect_ids(&s, &nodes) {
        None => {
            return None;
        },
        Some(Err(stop)) => {
            return Some(Err(stop));
        },
        Some(Ok(ids)) => ids,
    };
    let tags = match elements_in(&s, &['e', 'd', 'g', 'e']) {
        None => {
            return Some(Err(GraphmlStop::Format("unterminated XML tag")));
        },
        Some(v) => v,
    };
    let edges = match collect_edges(&s, &tags, &ids) {
        None => {
            return None;
        },
        Some(Err(stop)) => {
            return Some(Err(stop));
        },
        Some(Ok(edges)) => edges,
    };
    proof {
        assert(texts(ids@).len() == ids@.len());
    }
    Some(Ok((directed, ids.len(), edges)))
}

/// The error a refusal is reported as.
fn graphml_error(stop: GraphmlStop) -> (e: GraphError)
    ensures
        graphml_reported(stop, e),
{
    match stop {
        GraphmlStop::Format(reason) => GraphError::InvalidFormat { format: "GraphML", reason: reason.to_owned() },
        GraphmlStop::Unsupported(feature) => GraphError::UnsupportedGraphFeature { format: "GraphML", feature },
        GraphmlStop::Capacity(count) => GraphError::IndexCapacityExceeded { category: "GraphML nodes", count },
    }
}

/// A topology read from GraphML, of the kind its `edgedefault` names.
#[derive(Debug, Clone, PartialEq, Eq)]
pub enum GraphMlTopology {
    Directed(Topology),
    Undirected(UndirectedTopology),
}

impl GraphMlTopology {
    /// Whether the graph is directed.
    pub fn is_directed(&self) -> (r: bool)
        ensures
            r == (self is Directed),
    {
        match self {
            GraphMlTopology::Directed(_) => true,
            GraphMlTopology::Undirected(_) => false,
        }
    }
}

/// `r` is what building a topology of the given kind from `n` nodes and
/// `edges` gives.
pub open spec fn graphml_built(
    directed: bool,
    n: usize,
    edges: Seq<EdgeEndpoints<NodeIndex>>,
    r: Result<GraphMlTopology>,
) -> bool {
    match r {
        Ok(GraphMlTopology::Directed(t)) => directed && builds(n, edges, Ok(t)),
        Ok(GraphMlTopology::Undirected(t)) => !directed && ubuilds(n, edges, Ok(t)),
        Err(e) => if directed {
            builds(n, edges, Err(e))
        } else {
            ubuilds(n, edges, Err(e))
        },
    }
}

/// What decoding a text that reads to `read` gives.
pub open spec fn graphml_decoded(
    read: core::result::Result<GraphmlRead, GraphmlStop>,
    r: Result<GraphMlTopology>,
) -> bool {
    match read {
        Ok((directed, n, edges)) => graphml_built(directed, n, edges, r),
        Err(stop) => r matches Err(e) && graphml_reported(stop, e),
    }
}

fn decode_read(read: core::result::Result<(bool, usize, Vec<EdgeEndpoints<NodeIndex>>), GraphmlStop>) -> (r: Result<
    GraphMlTopology,
>)
    ensures
        match read {
            Ok((d, n, v)) => graphml_built(d, n, v@, r),
            Err(stop) => r matches Err(e) && graphml_reported(stop, e),
        },
{
    match read {
        Ok((true, n, edges)) => match Topology::try_from_edges(n, edges) {
            Ok(t) => Ok(GraphMlTopology::Directed(t)),
            Err(e) => Err(e),
        },
        Ok((false, n, edges)) => match UndirectedTopology::try_from_edges(n, edges) {
            Ok(t) => Ok(GraphMlTopology::Undirected(t)),
            Err(e) => Err(e),
        },
        Err(stop) => Err(graphml_error(stop)),
    }
}

/// Reads the structural GraphML subset: one graph, its nodes and edges.
/// Node ids may be any text; nodes are numbered in declaration order.
/// Nested graphs, hyperedges, ports, locators and per-edge directions are
/// refused rather than dropped.
///
/// # Errors
///
/// Returns an error for malformed tags or references, for unsupported
/// features, and for whatever the topology's constructor refuses.
pub fn graphml_decode(input: &str) -> (r: Result<GraphMlTopology>)
    requires
        graphml_read(input@) is Some,
    ensures
        graphml_decoded(graphml_read(input@)->0, r),
{
    match read_graphml(input) {
        Some(read) => decode_read(read),
        None => Err(GraphError::InvalidFormat { format: "GraphML", reason: "malformed attribute".to_owned() }),
    }
}

/// Decodes like `graphml_decode`, or gives `None` for a text on which
/// reading an attribute would cut a character in two.
pub fn graphml_decode_checked(input: &str) -> (r: Option<Result<GraphMlTopology>>)
    ensures
        match graphml_read(input@) {
            None => r is None,
            Some(read) => r matches Some(d) && graphml_decoded(read, d),
        },
{
    match read_graphml(input) {
        Some(read) => Some(decode_read(read)),
        None => None,
    }
}

} // verus!
