//! What JSON is, and that the scanner finds its way through it.
//!
//! The scanner never checks its input: it works its way through whatever bytes
//! it is given. This module says what well-formed JSON text is, down to the
//! whitespace, and proves that on such text the scanner finds every value,
//! exactly where it is.

use crate::scanner::{
    after_child, bare_end, children_from, decoded, delimiter_byte, empty_container, entry_label,
    entry_start, entry_value, kind_of, level_of, level_of_lines, next_child, skip_run, skip_step,
    string_end, token_end, unescape, ws_byte, ws_end, BACKSLASH, CLOSE_BRACE, CLOSE_BRACKET, COLON,
    COMMA, ChildV, Kind, LevelV, OPEN_BRACE, OPEN_BRACKET, QUOTE, SkipV,
};
use crate::text::{decimal, text_of};
use vstd::prelude::*;

verus! {

/// A JSON value as it is written, with its whitespace.
pub enum Doc {
    /// A number, `true`, `false` or `null`.
    Bare(Seq<u8>),
    /// A string, without its quotes, with its escapes.
    Text(Seq<u8>),
    /// An array. Where it is empty, whitespace may stand in its place.
    List(Seq<Item>, Seq<u8>),
    /// An object. Where it is empty, whitespace may stand in its place.
    Record(Seq<Member>, Seq<u8>),
}

/// An element of an array, with the whitespace around it.
pub struct Item {
    pub lead: Seq<u8>,
    pub value: Doc,
    pub trail: Seq<u8>,
}

/// A member of an object, with the whitespace before its key, before and after
/// the colon, and behind its value.
pub struct Member {
    pub lead: Seq<u8>,
    pub key: Seq<u8>,
    pub mid: Seq<u8>,
    pub gap: Seq<u8>,
    pub value: Doc,
    pub trail: Seq<u8>,
}

/// The bytes of a value.
pub open spec fn doc_bytes(d: Doc) -> Seq<u8>
    decreases d, 1int, 0int,
{
    match d {
        Doc::Bare(s) => s,
        Doc::Text(s) => text_bytes(s),
        Doc::List(items, pad) => seq![OPEN_BRACKET] + items_bytes(d, 0) + (if items.len() == 0 {
            pad
        } else {
            Seq::empty()
        }) + seq![CLOSE_BRACKET],
        Doc::Record(members, pad) => seq![OPEN_BRACE] + members_bytes(d, 0) + (if members.len()
            == 0 {
            pad
        } else {
            Seq::empty()
        }) + seq![CLOSE_BRACE],
    }
}

pub open spec fn text_bytes(s: Seq<u8>) -> Seq<u8> {
    seq![QUOTE] + s + seq![QUOTE]
}

/// The comma behind number `k` of `n`, if it is not the last.
pub open spec fn comma(k: int, n: int) -> Seq<u8> {
    if k + 1 < n {
        seq![COMMA]
    } else {
        Seq::empty()
    }
}

/// The bytes of an array's elements from number `k` on.
pub open spec fn items_bytes(d: Doc, k: int) -> Seq<u8>
    decreases d, 0int, (if d is List { d->List_0.len() - k } else { 0 }),
{
    match d {
        Doc::List(items, _) => if 0 <= k < items.len() {
            items[k].lead + doc_bytes(items[k].value) + items[k].trail + comma(
                k,
                items.len() as int,
            ) + items_bytes(d, k + 1)
        } else {
            Seq::empty()
        },
        _ => Seq::empty(),
    }
}

/// A member's bytes up to its value.
pub open spec fn member_head(m: Member) -> Seq<u8> {
    m.lead + text_bytes(m.key) + m.mid + seq![COLON] + m.gap
}

/// The bytes of an object's members from number `k` on.
pub open spec fn members_bytes(d: Doc, k: int) -> Seq<u8>
    decreases d, 0int, (if d is Record { d->Record_0.len() - k } else { 0 }),
{
    match d {
        Doc::Record(members, _) => if 0 <= k < members.len() {
            member_head(members[k]) + doc_bytes(members[k].value) + members[k].trail + comma(
                k,
                members.len() as int,
            ) + members_bytes(d, k + 1)
        } else {
            Seq::empty()
        },
        _ => Seq::empty(),
    }
}

pub open spec fn all_ws(s: Seq<u8>) -> bool {
    forall|i: int| 0 <= i < s.len() ==> ws_byte(#[trigger] s[i])
}

/// A byte that opens, closes or quotes something.
pub open spec fn structural(c: u8) -> bool {
    c == QUOTE || c == OPEN_BRACE || c == OPEN_BRACKET || c == CLOSE_BRACE || c == CLOSE_BRACKET
}

/// The bytes of a number, `true`, `false` or `null`: none of them delimits or
/// structures anything.
pub open spec fn bare_ok(s: Seq<u8>) -> bool {
    s.len() > 0 && forall|i: int|
        0 <= i < s.len() ==> !delimiter_byte(#[trigger] s[i]) && !structural(s[i])
}

/// The inside of a string from `i` on: no quote that is not escaped, and no
/// backslash that escapes nothing.
pub open spec fn text_ok(s: Seq<u8>, i: int) -> bool
    decreases s.len() + 1 - i,
{
    if i >= s.len() {
        i == s.len()
    } else if s[i] == BACKSLASH {
        text_ok(s, i + 2)
    } else {
        s[i] != QUOTE && text_ok(s, i + 1)
    }
}

/// Well-formed JSON.
pub open spec fn doc_ok(d: Doc) -> bool
    decreases d,
{
    match d {
        Doc::Bare(s) => bare_ok(s),
        Doc::Text(s) => text_ok(s, 0),
        Doc::List(items, pad) => all_ws(pad) && forall|i: int|
            0 <= i < items.len() ==> all_ws((#[trigger] items[i]).lead) && all_ws(items[i].trail)
                && doc_ok(items[i].value),
        Doc::Record(members, pad) => all_ws(pad) && forall|i: int|
            0 <= i < members.len() ==> member_ok(#[trigger] members[i]) && doc_ok(
                members[i].value,
            ),
    }
}

pub open spec fn member_ok(m: Member) -> bool {
    all_ws(m.lead) && text_ok(m.key, 0) && all_ws(m.mid) && all_ws(m.gap) && all_ws(m.trail)
}

/// The kind of a value.
pub open spec fn doc_kind(d: Doc) -> Kind {
    match d {
        Doc::Bare(s) => kind_of(s[0]),
        Doc::Text(_) => Kind::Str,
        Doc::List(_, _) => Kind::Array,
        Doc::Record(_, _) => Kind::Object,
    }
}

/// Whether the bytes `s` stand in `b` at `p`.
pub open spec fn stands(b: Seq<u8>, p: int, s: Seq<u8>) -> bool {
    0 <= p && p + s.len() <= b.len() && forall|i: int| 0 <= i < s.len() ==> b[p + i] == #[trigger] s[i]
}

proof fn lemma_stands_split(b: Seq<u8>, p: int, x: Seq<u8>, y: Seq<u8>)
    requires
        stands(b, p, x + y),
    ensures
        stands(b, p, x),
        stands(b, p + x.len(), y),
{
    assert forall|i: int| 0 <= i < x.len() implies b[p + i] == #[trigger] x[i] by {
        assert((x + y)[i] == x[i]);
    }
    assert forall|i: int| 0 <= i < y.len() implies b[p + x.len() + i] == #[trigger] y[i] by {
        assert((x + y)[x.len() + i] == y[i]);
    }
}

// ---------------------------------------------------------------------------
// Passing over a value
// ---------------------------------------------------------------------------
/// The scan passes over bytes that structure nothing.
proof fn lemma_pass_plain(b: Seq<u8>, s: SkipV, t: Seq<u8>, end: int)
    requires
        !s.in_str,
        !s.closed,
        stands(b, s.pos, t),
        s.pos + t.len() <= end,
        forall|i: int| 0 <= i < t.len() ==> !structural(#[trigger] t[i]),
    ensures
        skip_run(b, s, end, end) == skip_run(b, SkipV { pos: s.pos + t.len(), ..s }, end, end),
    decreases t.len(),
{
    if t.len() > 0 {
        assert(b[s.pos + 0] == t[0]);
        let s1 = SkipV { pos: s.pos + 1, ..s };
        assert(skip_step(b, s) == s1);
        let rest = t.skip(1);
        assert(t =~= seq![t[0]] + rest);
        lemma_stands_split(b, s.pos, seq![t[0]], rest);
        assert forall|i: int| 0 <= i < rest.len() implies !structural(#[trigger] rest[i]) by {
            assert(rest[i] == t[i + 1]);
        }
        lemma_pass_plain(b, s1, rest, end);
    }
}

/// The scan passes over the rest of a string.
proof fn lemma_pass_text(b: Seq<u8>, s: SkipV, t: Seq<u8>, i: int, end: int)
    requires
        s.in_str,
        !s.closed,
        0 <= i <= t.len(),
        text_ok(t, i),
        stands(b, s.pos - i, t + seq![QUOTE]),
        s.pos - i + t.len() + 1 <= end,
    ensures
        skip_run(b, s, end, end) == skip_run(
            b,
            SkipV { pos: s.pos - i + t.len() + 1, in_str: false, ..s },
            end,
            end,
        ),
        string_end(b, s.pos, end) == s.pos - i + t.len() + 1,
    decreases t.len() - i,
{
    reveal_with_fuel(text_ok, 2);
    let q = t + seq![QUOTE];
    assert(b[s.pos - i + i] == q[i]);
    if i < t.len() {
        assert(q[i] == t[i]);
        if t[i] == BACKSLASH {
            assert(i + 2 <= t.len());
            let s1 = SkipV { pos: s.pos + 2, ..s };
            assert(skip_step(b, s) == s1);
            lemma_pass_text(b, s1, t, i + 2, end);
        } else {
            let s1 = SkipV { pos: s.pos + 1, ..s };
            assert(skip_step(b, s) == s1);
            lemma_pass_text(b, s1, t, i + 1, end);
        }
    } else {
        assert(q[i] == QUOTE);
        assert(skip_step(b, s) == (SkipV { pos: s.pos + 1, in_str: false, ..s }));
    }
}

/// The scan passes over a whole string.
proof fn lemma_pass_quoted(b: Seq<u8>, s: SkipV, t: Seq<u8>, end: int)
    requires
        !s.in_str,
        !s.closed,
        text_ok(t, 0),
        stands(b, s.pos, text_bytes(t)),
        s.pos + t.len() + 2 <= end,
    ensures
        skip_run(b, s, end, end) == skip_run(b, SkipV { pos: s.pos + t.len() + 2, ..s }, end, end),
        string_end(b, s.pos + 1, end) == s.pos + t.len() + 2,
        b[s.pos] == QUOTE,
{
    let q = seq![QUOTE];
    assert(text_bytes(t) =~= q + (t + q));
    lemma_stands_split(b, s.pos, q, t + q);
    assert(b[s.pos + 0] == q[0]);
    let s1 = SkipV { pos: s.pos + 1, in_str: true, ..s };
    assert(skip_step(b, s) == s1);
    lemma_pass_text(b, s1, t, 0, end);
}

proof fn lemma_ws_plain(t: Seq<u8>)
    requires
        all_ws(t),
    ensures
        forall|i: int| 0 <= i < t.len() ==> !structural(#[trigger] t[i]),
{
    assert forall|i: int| 0 <= i < t.len() implies !structural(#[trigger] t[i]) by {
        assert(ws_byte(t[i]));
    }
}

/// Inside a container the scan passes over a value.
proof fn lemma_pass_doc(b: Seq<u8>, s: SkipV, d: Doc, end: int)
    requires
        !s.in_str,
        !s.closed,
        s.depth >= 1,
        doc_ok(d),
        stands(b, s.pos, doc_bytes(d)),
        s.pos + doc_bytes(d).len() <= end,
    ensures
        skip_run(b, s, end, end) == skip_run(
            b,
            SkipV { pos: s.pos + doc_bytes(d).len(), ..s },
            end,
            end,
        ),
    decreases d, 2int, 0int,
{
    match d {
        Doc::Bare(t) => lemma_pass_plain(b, s, t, end),
        Doc::Text(t) => lemma_pass_quoted(b, s, t, end),
        _ => lemma_pass_container(b, s, d, end),
    }
}

/// The scan passes from a container's opener to its closer.
proof fn lemma_pass_container(b: Seq<u8>, s: SkipV, d: Doc, end: int)
    requires
        !s.in_str,
        !s.closed,
        s.depth >= 0,
        d is List || d is Record,
        doc_ok(d),
        stands(b, s.pos, doc_bytes(d)),
        s.pos + doc_bytes(d).len() <= end,
    ensures
        skip_run(b, s, end, end) == skip_run(
            b,
            SkipV { pos: s.pos + doc_bytes(d).len(), closed: s.depth == 0, ..s },
            end,
            end,
        ),
        doc_bytes(d).len() >= 2,
        kind_of(b[s.pos]) == doc_kind(d),
    decreases d, 1int, 0int,
{
    let open = if d is List {
        seq![OPEN_BRACKET]
    } else {
        seq![OPEN_BRACE]
    };
    let close = if d is List {
        seq![CLOSE_BRACKET]
    } else {
        seq![CLOSE_BRACE]
    };
    let inner = if d is List {
        items_bytes(d, 0)
    } else {
        members_bytes(d, 0)
    };
    let pad = if d is List {
        if d->List_0.len() == 0 {
            d->List_1
        } else {
            Seq::empty()
        }
    } else {
        if d->Record_0.len() == 0 {
            d->Record_1
        } else {
            Seq::empty()
        }
    };
    assert(doc_bytes(d) == open + inner + pad + close);
    lemma_stands_split(b, s.pos, open + inner + pad, close);
    lemma_stands_split(b, s.pos, open + inner, pad);
    lemma_stands_split(b, s.pos, open, inner);
    assert(b[s.pos + 0] == open[0]);
    let s1 = SkipV { pos: s.pos + 1, depth: s.depth + 1, ..s };
    assert(skip_step(b, s) == s1);
    if d is List {
        lemma_pass_items(b, s1, d, 0, end);
    } else {
        lemma_pass_members(b, s1, d, 0, end);
    }
    let s2 = SkipV { pos: s1.pos + inner.len(), ..s1 };
    lemma_ws_plain(pad);
    lemma_pass_plain(b, s2, pad, end);
    let s3 = SkipV { pos: s2.pos + pad.len(), ..s2 };
    assert(b[s3.pos + 0] == close[0]);
    let s4 = SkipV { pos: s3.pos + 1, depth: s.depth, closed: s.depth == 0, ..s };
    assert(skip_step(b, s3) == s4);
}

proof fn lemma_pass_items(b: Seq<u8>, s: SkipV, d: Doc, k: int, end: int)
    requires
        !s.in_str,
        !s.closed,
        s.depth >= 1,
        d is List,
        doc_ok(d),
        0 <= k <= d->List_0.len(),
        stands(b, s.pos, items_bytes(d, k)),
        s.pos + items_bytes(d, k).len() <= end,
    ensures
        skip_run(b, s, end, end) == skip_run(
            b,
            SkipV { pos: s.pos + items_bytes(d, k).len(), ..s },
            end,
            end,
        ),
    decreases d, 0int, d->List_0.len() - k,
{
    let items = d->List_0;
    if k < items.len() {
        let it = items[k];
        let v = doc_bytes(it.value);
        let c = comma(k, items.len() as int);
        let rest = items_bytes(d, k + 1);
        lemma_stands_split(b, s.pos, it.lead + v + it.trail + c, rest);
        lemma_stands_split(b, s.pos, it.lead + v + it.trail, c);
        lemma_stands_split(b, s.pos, it.lead + v, it.trail);
        lemma_stands_split(b, s.pos, it.lead, v);
        lemma_ws_plain(it.lead);
        lemma_ws_plain(it.trail);
        lemma_pass_plain(b, s, it.lead, end);
        let s1 = SkipV { pos: s.pos + it.lead.len(), ..s };
        lemma_pass_doc(b, s1, it.value, end);
        let s2 = SkipV { pos: s1.pos + v.len(), ..s };
        lemma_pass_plain(b, s2, it.trail, end);
        let s3 = SkipV { pos: s2.pos + it.trail.len(), ..s };
        lemma_pass_plain(b, s3, c, end);
        let s4 = SkipV { pos: s3.pos + c.len(), ..s };
        lemma_pass_items(b, s4, d, k + 1, end);
    }
}

proof fn lemma_pass_members(b: Seq<u8>, s: SkipV, d: Doc, k: int, end: int)
    requires
        !s.in_str,
        !s.closed,
        s.depth >= 1,
        d is Record,
        doc_ok(d),
        0 <= k <= d->Record_0.len(),
        stands(b, s.pos, members_bytes(d, k)),
        s.pos + members_bytes(d, k).len() <= end,
    ensures
        skip_run(b, s, end, end) == skip_run(
            b,
            SkipV { pos: s.pos + members_bytes(d, k).len(), ..s },
            end,
            end,
        ),
    decreases d, 0int, d->Record_0.len() - k,
{
    let members = d->Record_0;
    if k < members.len() {
        let m = members[k];
        let h = member_head(m);
        let v = doc_bytes(m.value);
        let c = comma(k, members.len() as int);
        let rest = members_bytes(d, k + 1);
        assert(member_ok(m));
        lemma_stands_split(b, s.pos, h + v + m.trail + c, rest);
        lemma_stands_split(b, s.pos, h + v + m.trail, c);
        lemma_stands_split(b, s.pos, h + v, m.trail);
        lemma_stands_split(b, s.pos, h, v);
        lemma_pass_head(b, s, m, end);
        let s1 = SkipV { pos: s.pos + h.len(), ..s };
        lemma_pass_doc(b, s1, m.value, end);
        let s2 = SkipV { pos: s1.pos + v.len(), ..s };
        lemma_ws_plain(m.trail);
        lemma_pass_plain(b, s2, m.trail, end);
        let s3 = SkipV { pos: s2.pos + m.trail.len(), ..s };
        lemma_pass_plain(b, s3, c, end);
        let s4 = SkipV { pos: s3.pos + c.len(), ..s };
        lemma_pass_members(b, s4, d, k + 1, end);
    }
}

proof fn lemma_head_parts(b: Seq<u8>, p: int, m: Member)
    requires
        stands(b, p, member_head(m)),
    ensures
        ({
            let k = p + m.lead.len();
            let z = k + m.key.len() + 2;
            &&& stands(b, p, m.lead)
            &&& stands(b, k, text_bytes(m.key))
            &&& stands(b, z, m.mid)
            &&& stands(b, z + m.mid.len(), seq![COLON])
            &&& stands(b, z + m.mid.len() + 1, m.gap)
            &&& member_head(m).len() == m.lead.len() + m.key.len() + 2 + m.mid.len() + 1
                + m.gap.len()
        }),
{
    let q = text_bytes(m.key);
    let c = seq![COLON];
    lemma_stands_split(b, p, m.lead + q + m.mid + c, m.gap);
    lemma_stands_split(b, p, m.lead + q + m.mid, c);
    lemma_stands_split(b, p, m.lead + q, m.mid);
    lemma_stands_split(b, p, m.lead, q);
}

proof fn lemma_pass_head(b: Seq<u8>, s: SkipV, m: Member, end: int)
    requires
        !s.in_str,
        !s.closed,
        member_ok(m),
        stands(b, s.pos, member_head(m)),
        s.pos + member_head(m).len() <= end,
    ensures
        skip_run(b, s, end, end) == skip_run(
            b,
            SkipV { pos: s.pos + member_head(m).len(), ..s },
            end,
            end,
        ),
{
    lemma_head_parts(b, s.pos, m);
    lemma_ws_plain(m.lead);
    lemma_ws_plain(m.mid);
    lemma_ws_plain(m.gap);
    lemma_pass_plain(b, s, m.lead, end);
    let s1 = SkipV { pos: s.pos + m.lead.len(), ..s };
    lemma_pass_quoted(b, s1, m.key, end);
    let s2 = SkipV { pos: s1.pos + m.key.len() + 2, ..s };
    lemma_pass_plain(b, s2, m.mid, end);
    let s3 = SkipV { pos: s2.pos + m.mid.len(), ..s };
    lemma_pass_plain(b, s3, seq![COLON], end);
    let s4 = SkipV { pos: s3.pos + 1, ..s };
    lemma_pass_plain(b, s4, m.gap, end);
}

proof fn lemma_bare_run(b: Seq<u8>, p: int, t: Seq<u8>, end: int)
    requires
        stands(b, p, t),
        p + t.len() <= end,
        forall|i: int| 0 <= i < t.len() ==> !delimiter_byte(#[trigger] t[i]),
        p + t.len() < end ==> delimiter_byte(b[p + t.len()]),
    ensures
        bare_end(b, p, end) == p + t.len(),
    decreases t.len(),
{
    if t.len() > 0 {
        let rest = t.skip(1);
        assert(b[p + 0] == t[0]);
        assert(t =~= seq![t[0]] + rest);
        lemma_stands_split(b, p, seq![t[0]], rest);
        assert forall|i: int| 0 <= i < rest.len() implies !delimiter_byte(#[trigger] rest[i]) by {
            assert(rest[i] == t[i + 1]);
        }
        lemma_bare_run(b, p + 1, rest, end);
    }
}

/// The scanner finds the end of a JSON value, wherever the value stands. Only a
/// number or a word needs a delimiter behind it, or the end of what is scanned.
pub proof fn law_value_end(b: Seq<u8>, p: int, d: Doc, end: int)
    requires
        doc_ok(d),
        stands(b, p, doc_bytes(d)),
        p + doc_bytes(d).len() <= end <= b.len(),
        d is Bare && p + doc_bytes(d).len() < end ==> delimiter_byte(b[p + doc_bytes(d).len()]),
    ensures
        token_end(b, p, end) == p + doc_bytes(d).len(),
        kind_of(b[p]) == doc_kind(d),
        doc_bytes(d).len() > 0,
        !ws_byte(b[p]),
        !delimiter_byte(b[p]),
{
    let s = SkipV { pos: p, depth: 0, in_str: false, closed: false };
    match d {
        Doc::Bare(t) => {
            assert(b[p + 0] == t[0]);
            lemma_bare_run(b, p, t, end);
        },
        Doc::Text(t) => {
            lemma_pass_quoted(b, s, t, end);
        },
        _ => {
            lemma_pass_container(b, s, d, end);
            let z = SkipV { pos: p + doc_bytes(d).len(), closed: true, ..s };
            assert(skip_run(b, z, end, end) == z);
            let first = doc_bytes(d)[0];
            assert(b[p + 0] == first);
            assert(first == OPEN_BRACKET || first == OPEN_BRACE);
        },
    }
}

// ---------------------------------------------------------------------------
// Enumerating a container
// ---------------------------------------------------------------------------
/// Whitespace up to something else is skipped.
proof fn lemma_skip_lead(b: Seq<u8>, p: int, t: Seq<u8>, end: int)
    requires
        all_ws(t),
        stands(b, p, t),
        p + t.len() <= end,
        p + t.len() < end ==> !ws_byte(b[p + t.len()]),
    ensures
        ws_end(b, p, end) == p + t.len(),
    decreases t.len(),
{
    if t.len() > 0 {
        let rest = t.skip(1);
        assert(b[p + 0] == t[0]);
        assert(t =~= seq![t[0]] + rest);
        lemma_stands_split(b, p, seq![t[0]], rest);
        assert forall|i: int| 0 <= i < rest.len() implies ws_byte(#[trigger] rest[i]) by {
            assert(rest[i] == t[i + 1]);
        }
        lemma_skip_lead(b, p + 1, rest, end);
    }
}

/// Where element `k` of an array at `p` begins, with its whitespace.
pub open spec fn item_pos(d: Doc, p: int, k: int) -> int
    decreases k,
{
    if k <= 0 {
        p + 1
    } else {
        let it = d->List_0[k - 1];
        item_pos(d, p, k - 1) + it.lead.len() + doc_bytes(it.value).len() + it.trail.len() + comma(
            k - 1,
            d->List_0.len() as int,
        ).len()
    }
}

/// Element `k` of an array at `p`, as the scanner should find it.
pub open spec fn item_child(d: Doc, p: int, k: int) -> ChildV {
    let it = d->List_0[k];
    let start = item_pos(d, p, k) + it.lead.len();
    ChildV {
        label: decimal(k as nat),
        start,
        end: start + doc_bytes(it.value).len(),
        end_exact: true,
        kind: doc_kind(it.value),
        is_index: true,
    }
}

proof fn lemma_items_stand(b: Seq<u8>, p: int, d: Doc, k: int)
    requires
        d is List,
        stands(b, p, doc_bytes(d)),
        0 <= k <= d->List_0.len(),
    ensures
        stands(b, item_pos(d, p, k), items_bytes(d, k)),
        item_pos(d, p, k) + items_bytes(d, k).len() == item_pos(d, p, 0) + items_bytes(d, 0).len(),
    decreases k,
{
    let items = d->List_0;
    let open = seq![OPEN_BRACKET];
    let pad = if items.len() == 0 {
        d->List_1
    } else {
        Seq::empty()
    };
    if k == 0 {
        lemma_stands_split(b, p, open + items_bytes(d, 0) + pad, seq![CLOSE_BRACKET]);
        lemma_stands_split(b, p, open + items_bytes(d, 0), pad);
        lemma_stands_split(b, p, open, items_bytes(d, 0));
    } else {
        lemma_items_stand(b, p, d, k - 1);
        let it = items[k - 1];
        let v = doc_bytes(it.value);
        let c = comma(k - 1, items.len() as int);
        lemma_stands_split(
            b,
            item_pos(d, p, k - 1),
            it.lead + v + it.trail + c,
            items_bytes(d, k),
        );
    }
}

/// What follows the elements of an array.
proof fn lemma_list_tail(b: Seq<u8>, p: int, d: Doc)
    requires
        d is List,
        stands(b, p, doc_bytes(d)),
    ensures
        ({
            let pad = if d->List_0.len() == 0 {
                d->List_1
            } else {
                Seq::empty()
            };
            let z = p + 1 + items_bytes(d, 0).len();
            &&& stands(b, z, pad)
            &&& b[z + pad.len()] == CLOSE_BRACKET
            &&& p + doc_bytes(d).len() == z + pad.len() + 1
        }),
{
    let open = seq![OPEN_BRACKET];
    let close = seq![CLOSE_BRACKET];
    let pad = if d->List_0.len() == 0 {
        d->List_1
    } else {
        Seq::empty()
    };
    lemma_stands_split(b, p, open + items_bytes(d, 0) + pad, close);
    lemma_stands_split(b, p, open + items_bytes(d, 0), pad);
    let z = p + 1 + items_bytes(d, 0).len() + pad.len();
    assert(b[z + 0] == close[0]);
}

/// The level of an array at `p` once `k` elements have been taken.
pub open spec fn list_level(d: Doc, p: int, end: int, k: int) -> LevelV {
    LevelV {
        pos: if k == 0 {
            p + 1
        } else {
            item_child(d, p, k - 1).end
        },
        end,
        is_array: true,
        index: k,
        done: false,
        lines: false,
    }
}

proof fn lemma_list_step(b: Seq<u8>, p: int, d: Doc, end: int, k: int)
    requires
        d is List,
        doc_ok(d),
        stands(b, p, doc_bytes(d)),
        p + doc_bytes(d).len() <= end <= b.len(),
        0 <= k <= d->List_0.len(),
    ensures
        ({
            let s = list_level(d, p, end, k);
            if k < d->List_0.len() {
                next_child(b, s) == Some(item_child(d, p, k)) && after_child(b, s) == list_level(
                    d,
                    p,
                    end,
                    k + 1,
                )
            } else {
                next_child(b, s) is None
            }
        }),
{
    let items = d->List_0;
    let n = items.len() as int;
    let s = list_level(d, p, end, k);
    let at = item_pos(d, p, k);
    lemma_items_stand(b, p, d, k);
    lemma_list_tail(b, p, d);
    let pad = if n == 0 {
        d->List_1
    } else {
        Seq::empty()
    };
    let close = p + 1 + items_bytes(d, 0).len() + pad.len();
    // What stands in front of element `k`: nothing, or the end of the one before.
    if k > 0 {
        let it = items[k - 1];
        let c = comma(k - 1, n);
        let v = doc_bytes(it.value);
        let q = item_pos(d, p, k - 1);
        lemma_items_stand(b, p, d, k - 1);
        lemma_stands_split(b, q, it.lead + v + it.trail + c, items_bytes(d, k));
        lemma_stands_split(b, q, it.lead + v + it.trail, c);
        lemma_stands_split(b, q, it.lead + v, it.trail);
        if k < n {
            assert(b[s.pos + it.trail.len() + 0] == c[0]);
        }
        lemma_skip_lead(b, s.pos, it.trail, end);
    }
    if k < n {
        let it = items[k];
        let v = doc_bytes(it.value);
        let c = comma(k, n);
        lemma_stands_split(b, at, it.lead + v + it.trail + c, items_bytes(d, k + 1));
        lemma_stands_split(b, at, it.lead + v + it.trail, c);
        lemma_stands_split(b, at, it.lead + v, it.trail);
        lemma_stands_split(b, at, it.lead, v);
        let start = at + it.lead.len();
        let z = start + v.len();
        // The value is followed by whitespace, a comma or the closer.
        if it.trail.len() > 0 {
            assert(b[z + 0] == it.trail[0]);
        } else if k + 1 < n {
            assert(b[z + it.trail.len() + 0] == c[0]);
        } else {
            assert(items_bytes(d, k + 1).len() == 0);
            assert(z == close);
        }
        law_value_end(b, start, it.value, end);
        lemma_skip_lead(b, at, it.lead, end);
        assert(entry_start(b, s) == Some(start));
        assert(entry_value(b, s, start) == start);
    } else {
        assert(items_bytes(d, k).len() == 0);
        if n == 0 {
            lemma_skip_lead(b, at, pad, end);
        }
        assert(ws_end(b, s.pos, end) == close);
        assert(entry_start(b, s) is None);
    }
}

/// The elements of an array from number `k` on, as the scanner should find them.
pub open spec fn item_children(d: Doc, p: int, k: int) -> Seq<ChildV>
    decreases d->List_0.len() - k,
{
    if k < d->List_0.len() {
        seq![item_child(d, p, k)] + item_children(d, p, k + 1)
    } else {
        Seq::empty()
    }
}

proof fn lemma_list_children(b: Seq<u8>, p: int, d: Doc, end: int, k: int)
    requires
        d is List,
        doc_ok(d),
        stands(b, p, doc_bytes(d)),
        p + doc_bytes(d).len() <= end <= b.len(),
        b.len() < usize::MAX,
        0 <= k <= d->List_0.len(),
        d->List_0.len() < usize::MAX,
    ensures
        children_from(b, list_level(d, p, end, k)) == item_children(d, p, k),
    decreases d->List_0.len() - k,
{
    lemma_list_step(b, p, d, end, k);
    if k < d->List_0.len() {
        lemma_list_children(b, p, d, end, k + 1);
    }
}

proof fn lemma_item_count(d: Doc, k: int)
    requires
        d is List,
        doc_ok(d),
        0 <= k <= d->List_0.len(),
    ensures
        items_bytes(d, k).len() >= d->List_0.len() - k,
    decreases d->List_0.len() - k,
{
    if k < d->List_0.len() {
        lemma_item_count(d, k + 1);
        lemma_doc_nonempty(d->List_0[k].value);
    }
}

proof fn lemma_doc_nonempty(d: Doc)
    requires
        doc_ok(d),
    ensures
        doc_bytes(d).len() > 0,
{
}

/// The scanner enumerates exactly the elements of a JSON array: each once, in
/// order, numbered from zero, at its own byte range. The level may be bounded by
/// the array's own end or by anything behind it.
pub proof fn law_array_children(b: Seq<u8>, p: int, d: Doc, end: int)
    requires
        d is List,
        doc_ok(d),
        stands(b, p, doc_bytes(d)),
        p + doc_bytes(d).len() <= end <= b.len(),
        b.len() < usize::MAX,
    ensures
        children_from(b, level_of(p, end, true)) == item_children(d, p, 0),
        item_children(d, p, 0).len() == d->List_0.len(),
        forall|k: int|
            0 <= k < d->List_0.len() ==> #[trigger] item_children(d, p, 0)[k] == item_child(
                d,
                p,
                k,
            ) && stands(b, item_child(d, p, k).start, doc_bytes(d->List_0[k].value)),
{
    lemma_item_count(d, 0);
    lemma_list_children(b, p, d, end, 0);
    lemma_item_children(d, p, 0);
    assert forall|k: int| 0 <= k < d->List_0.len() implies #[trigger] item_children(d, p, 0)[k]
        == item_child(d, p, k) && stands(
        b,
        item_child(d, p, k).start,
        doc_bytes(d->List_0[k].value),
    ) by {
        lemma_items_stand(b, p, d, k);
        let it = d->List_0[k];
        let v = doc_bytes(it.value);
        let c = comma(k, d->List_0.len() as int);
        let at = item_pos(d, p, k);
        lemma_stands_split(b, at, it.lead + v + it.trail + c, items_bytes(d, k + 1));
        lemma_stands_split(b, at, it.lead + v + it.trail, c);
        lemma_stands_split(b, at, it.lead + v, it.trail);
        lemma_stands_split(b, at, it.lead, v);
    }
}

proof fn lemma_item_children(d: Doc, p: int, k: int)
    requires
        d is List,
        0 <= k <= d->List_0.len(),
    ensures
        item_children(d, p, k).len() == d->List_0.len() - k,
        forall|j: int|
            0 <= j < d->List_0.len() - k ==> #[trigger] item_children(d, p, k)[j] == item_child(
                d,
                p,
                k + j,
            ),
    decreases d->List_0.len() - k,
{
    if k < d->List_0.len() {
        lemma_item_children(d, p, k + 1);
        let rest = item_children(d, p, k + 1);
        assert forall|j: int| 0 <= j < d->List_0.len() - k implies #[trigger] item_children(
            d,
            p,
            k,
        )[j] == item_child(d, p, k + j) by {
            if j > 0 {
                assert(item_children(d, p, k)[j] == rest[j - 1]);
            }
        }
    }
}

/// Where member `k` of an object at `p` begins, with its whitespace.
pub open spec fn member_pos(d: Doc, p: int, k: int) -> int
    decreases k,
{
    if k <= 0 {
        p + 1
    } else {
        let m = d->Record_0[k - 1];
        member_pos(d, p, k - 1) + member_head(m).len() + doc_bytes(m.value).len() + m.trail.len() + comma(
            k - 1,
            d->Record_0.len() as int,
        ).len()
    }
}

/// Element `k` of an object at `p`, as the scanner should find it.
pub open spec fn member_child(d: Doc, p: int, k: int) -> ChildV {
    let m = d->Record_0[k];
    let start = member_pos(d, p, k) + member_head(m).len();
    ChildV {
        label: text_of(unescape(m.key, 0)),
        start,
        end: start + doc_bytes(m.value).len(),
        end_exact: true,
        kind: doc_kind(m.value),
        is_index: false,
    }
}

proof fn lemma_members_stand(b: Seq<u8>, p: int, d: Doc, k: int)
    requires
        d is Record,
        stands(b, p, doc_bytes(d)),
        0 <= k <= d->Record_0.len(),
    ensures
        stands(b, member_pos(d, p, k), members_bytes(d, k)),
        member_pos(d, p, k) + members_bytes(d, k).len() == member_pos(d, p, 0) + members_bytes(d, 0).len(),
    decreases k,
{
    let members = d->Record_0;
    let open = seq![OPEN_BRACE];
    let pad = if members.len() == 0 {
        d->Record_1
    } else {
        Seq::empty()
    };
    if k == 0 {
        lemma_stands_split(b, p, open + members_bytes(d, 0) + pad, seq![CLOSE_BRACE]);
        lemma_stands_split(b, p, open + members_bytes(d, 0), pad);
        lemma_stands_split(b, p, open, members_bytes(d, 0));
    } else {
        lemma_members_stand(b, p, d, k - 1);
        let m = members[k - 1];
        let v = doc_bytes(m.value);
        let c = comma(k - 1, members.len() as int);
        lemma_stands_split(
            b,
            member_pos(d, p, k - 1),
            member_head(m) + v + m.trail + c,
            members_bytes(d, k),
        );
    }
}

/// What follows the members of an object.
proof fn lemma_record_tail(b: Seq<u8>, p: int, d: Doc)
    requires
        d is Record,
        stands(b, p, doc_bytes(d)),
    ensures
        ({
            let pad = if d->Record_0.len() == 0 {
                d->Record_1
            } else {
                Seq::empty()
            };
            let z = p + 1 + members_bytes(d, 0).len();
            &&& stands(b, z, pad)
            &&& b[z + pad.len()] == CLOSE_BRACE
            &&& p + doc_bytes(d).len() == z + pad.len() + 1
        }),
{
    let open = seq![OPEN_BRACE];
    let close = seq![CLOSE_BRACE];
    let pad = if d->Record_0.len() == 0 {
        d->Record_1
    } else {
        Seq::empty()
    };
    lemma_stands_split(b, p, open + members_bytes(d, 0) + pad, close);
    lemma_stands_split(b, p, open + members_bytes(d, 0), pad);
    let z = p + 1 + members_bytes(d, 0).len() + pad.len();
    assert(b[z + 0] == close[0]);
}

/// The level of an object at `p` once `k` members have been taken.
pub open spec fn record_level(d: Doc, p: int, end: int, k: int) -> LevelV {
    LevelV {
        pos: if k == 0 {
            p + 1
        } else {
            member_child(d, p, k - 1).end
        },
        end,
        is_array: false,
        index: k,
        done: false,
        lines: false,
    }
}

proof fn lemma_record_step(b: Seq<u8>, p: int, d: Doc, end: int, k: int)
    requires
        d is Record,
        doc_ok(d),
        stands(b, p, doc_bytes(d)),
        p + doc_bytes(d).len() <= end <= b.len(),
        0 <= k <= d->Record_0.len(),
    ensures
        ({
            let s = record_level(d, p, end, k);
            if k < d->Record_0.len() {
                next_child(b, s) == Some(member_child(d, p, k)) && after_child(b, s) == record_level(
                    d,
                    p,
                    end,
                    k + 1,
                )
            } else {
                next_child(b, s) is None
            }
        }),
{
    let members = d->Record_0;
    let n = members.len() as int;
    let s = record_level(d, p, end, k);
    let at = member_pos(d, p, k);
    lemma_members_stand(b, p, d, k);
    lemma_record_tail(b, p, d);
    let pad = if n == 0 {
        d->Record_1
    } else {
        Seq::empty()
    };
    let close = p + 1 + members_bytes(d, 0).len() + pad.len();
    // What stands in front of member `k`: nothing, or the end of the one before.
    if k > 0 {
        let m = members[k - 1];
        let c = comma(k - 1, n);
        let v = doc_bytes(m.value);
        let q = member_pos(d, p, k - 1);
        lemma_members_stand(b, p, d, k - 1);
        lemma_stands_split(b, q, member_head(m) + v + m.trail + c, members_bytes(d, k));
        lemma_stands_split(b, q, member_head(m) + v + m.trail, c);
        lemma_stands_split(b, q, member_head(m) + v, m.trail);
        if k < n {
            assert(b[s.pos + m.trail.len() + 0] == c[0]);
        }
        lemma_skip_lead(b, s.pos, m.trail, end);
    }
    if k < n {
        let m = members[k];
        let v = doc_bytes(m.value);
        let c = comma(k, n);
        lemma_stands_split(b, at, member_head(m) + v + m.trail + c, members_bytes(d, k + 1));
        lemma_stands_split(b, at, member_head(m) + v + m.trail, c);
        lemma_stands_split(b, at, member_head(m) + v, m.trail);
        lemma_stands_split(b, at, member_head(m), v);
        let start = at + member_head(m).len();
        let z = start + v.len();
        // The value is followed by whitespace, a comma or the closer.
        if m.trail.len() > 0 {
            assert(b[z + 0] == m.trail[0]);
        } else if k + 1 < n {
            assert(b[z + m.trail.len() + 0] == c[0]);
        } else {
            assert(members_bytes(d, k + 1).len() == 0);
            assert(z == close);
        }
        law_value_end(b, start, m.value, end);
        lemma_record_entry(b, at, m, end, s);
    } else {
        assert(members_bytes(d, k).len() == 0);
        if n == 0 {
            lemma_skip_lead(b, at, pad, end);
        }
        assert(ws_end(b, s.pos, end) == close);
        assert(entry_start(b, s) is None);
    }
}

/// The members of an object from number `k` on, as the scanner should find them.
pub open spec fn member_children(d: Doc, p: int, k: int) -> Seq<ChildV>
    decreases d->Record_0.len() - k,
{
    if k < d->Record_0.len() {
        seq![member_child(d, p, k)] + member_children(d, p, k + 1)
    } else {
        Seq::empty()
    }
}

proof fn lemma_record_children(b: Seq<u8>, p: int, d: Doc, end: int, k: int)
    requires
        d is Record,
        doc_ok(d),
        stands(b, p, doc_bytes(d)),
        p + doc_bytes(d).len() <= end <= b.len(),
        b.len() < usize::MAX,
        0 <= k <= d->Record_0.len(),
        d->Record_0.len() < usize::MAX,
    ensures
        children_from(b, record_level(d, p, end, k)) == member_children(d, p, k),
    decreases d->Record_0.len() - k,
{
    lemma_record_step(b, p, d, end, k);
    if k < d->Record_0.len() {
        lemma_record_children(b, p, d, end, k + 1);
    }
}

proof fn lemma_member_count(d: Doc, k: int)
    requires
        d is Record,
        doc_ok(d),
        0 <= k <= d->Record_0.len(),
    ensures
        members_bytes(d, k).len() >= d->Record_0.len() - k,
    decreases d->Record_0.len() - k,
{
    if k < d->Record_0.len() {
        lemma_member_count(d, k + 1);
        lemma_doc_nonempty(d->Record_0[k].value);
    }
}

/// The scanner enumerates exactly the members of a JSON object: each once, in
/// order, under its decoded key, at its own byte range. The level may be bounded by
/// the object's own end or by anything behind it.
pub proof fn law_object_children(b: Seq<u8>, p: int, d: Doc, end: int)
    requires
        d is Record,
        doc_ok(d),
        stands(b, p, doc_bytes(d)),
        p + doc_bytes(d).len() <= end <= b.len(),
        b.len() < usize::MAX,
    ensures
        children_from(b, level_of(p, end, false)) == member_children(d, p, 0),
        member_children(d, p, 0).len() == d->Record_0.len(),
        forall|k: int|
            0 <= k < d->Record_0.len() ==> #[trigger] member_children(d, p, 0)[k] == member_child(
                d,
                p,
                k,
            ) && stands(b, member_child(d, p, k).start, doc_bytes(d->Record_0[k].value)),
{
    lemma_member_count(d, 0);
    lemma_record_children(b, p, d, end, 0);
    lemma_member_children(d, p, 0);
    assert forall|k: int| 0 <= k < d->Record_0.len() implies #[trigger] member_children(d, p, 0)[k]
        == member_child(d, p, k) && stands(
        b,
        member_child(d, p, k).start,
        doc_bytes(d->Record_0[k].value),
    ) by {
        lemma_members_stand(b, p, d, k);
        let m = d->Record_0[k];
        let v = doc_bytes(m.value);
        let c = comma(k, d->Record_0.len() as int);
        let at = member_pos(d, p, k);
        lemma_stands_split(b, at, member_head(m) + v + m.trail + c, members_bytes(d, k + 1));
        lemma_stands_split(b, at, member_head(m) + v + m.trail, c);
        lemma_stands_split(b, at, member_head(m) + v, m.trail);
        lemma_stands_split(b, at, member_head(m), v);
    }
}

proof fn lemma_member_children(d: Doc, p: int, k: int)
    requires
        d is Record,
        0 <= k <= d->Record_0.len(),
    ensures
        member_children(d, p, k).len() == d->Record_0.len() - k,
        forall|j: int|
            0 <= j < d->Record_0.len() - k ==> #[trigger] member_children(d, p, k)[j] == member_child(
                d,
                p,
                k + j,
            ),
    decreases d->Record_0.len() - k,
{
    if k < d->Record_0.len() {
        lemma_member_children(d, p, k + 1);
        let rest = member_children(d, p, k + 1);
        assert forall|j: int| 0 <= j < d->Record_0.len() - k implies #[trigger] member_children(
            d,
            p,
            k,
        )[j] == member_child(d, p, k + j) by {
            if j > 0 {
                assert(member_children(d, p, k)[j] == rest[j - 1]);
            }
        }
    }
}

/// The key and the colon in front of a member's value are read.
proof fn lemma_record_entry(b: Seq<u8>, at: int, m: Member, end: int, s: LevelV)
    requires
        member_ok(m),
        stands(b, at, member_head(m)),
        at + member_head(m).len() < end <= b.len(),
        !ws_byte(b[at + member_head(m).len()]),
        s.end == end,
        !s.is_array,
        !s.done,
        !s.lines,
        if s.index > 0 {
            ws_end(b, s.pos, end) == at - 1 && b[at - 1] == COMMA
        } else {
            s.pos == at
        },
    ensures
        ({
            let i = at + m.lead.len();
            &&& entry_start(b, s) == Some(i)
            &&& entry_value(b, s, i) == at + member_head(m).len()
            &&& entry_label(b, s, i) == text_of(unescape(m.key, 0))
        }),
{
    lemma_head_parts(b, at, m);
    let i = at + m.lead.len();
    let z = i + m.key.len() + 2;
    let q = SkipV { pos: i, depth: 0, in_str: false, closed: false };
    lemma_pass_quoted(b, q, m.key, end);
    lemma_skip_lead(b, at, m.lead, end);
    assert(b[z + m.mid.len() + 0] == seq![COLON][0]);
    lemma_skip_lead(b, z, m.mid, end);
    lemma_skip_lead(b, z + m.mid.len() + 1, m.gap, end);
    lemma_key_bytes(b, i, m.key);
    assert(entry_start(b, s) == Some(i));
}

proof fn lemma_key_bytes(b: Seq<u8>, i: int, key: Seq<u8>)
    requires
        stands(b, i, text_bytes(key)),
    ensures
        decoded(b, i, i + key.len() + 2) == text_of(unescape(key, 0)),
{
    let t = text_bytes(key);
    let inner = b.subrange(i + 1, i + key.len() + 1);
    assert forall|k: int| 0 <= k < key.len() implies inner[k] == key[k] by {
        assert(t[k + 1] == key[k]);
        assert(b[i + (k + 1)] == t[k + 1]);
    }
    assert(inner =~= key);
}

// ---------------------------------------------------------------------------
// Streams of values
// ---------------------------------------------------------------------------
/// The bytes of the values from number `k` on, one after the other.
pub open spec fn stream_bytes(docs: Seq<Item>, k: int) -> Seq<u8>
    decreases docs.len() - k,
{
    if 0 <= k < docs.len() {
        docs[k].lead + doc_bytes(docs[k].value) + docs[k].trail + stream_bytes(docs, k + 1)
    } else {
        Seq::empty()
    }
}

/// A stream of well-formed values with whitespace between them. A number or a
/// word needs some behind it; anything else may be followed at once.
pub open spec fn stream_ok(docs: Seq<Item>) -> bool {
    forall|i: int|
        0 <= i < docs.len() ==> all_ws((#[trigger] docs[i]).lead) && all_ws(docs[i].trail)
            && doc_ok(docs[i].value) && (docs[i].value is Bare && i + 1 < docs.len()
            ==> docs[i].trail.len() > 0)
}

/// Where value `k` of a stream at `p` begins, with its whitespace.
pub open spec fn stream_pos(docs: Seq<Item>, p: int, k: int) -> int
    decreases k,
{
    if k <= 0 {
        p
    } else {
        let it = docs[k - 1];
        stream_pos(docs, p, k - 1) + it.lead.len() + doc_bytes(it.value).len() + it.trail.len()
    }
}

/// Value `k` of a stream at `p`, as the scanner should find it.
pub open spec fn stream_child(docs: Seq<Item>, p: int, k: int) -> ChildV {
    let start = stream_pos(docs, p, k) + docs[k].lead.len();
    ChildV {
        label: decimal(k as nat),
        start,
        end: start + doc_bytes(docs[k].value).len(),
        end_exact: true,
        kind: doc_kind(docs[k].value),
        is_index: true,
    }
}

/// The values of a stream from number `k` on, as the scanner should find them.
pub open spec fn stream_children(docs: Seq<Item>, p: int, k: int) -> Seq<ChildV>
    decreases docs.len() - k,
{
    if k < docs.len() {
        seq![stream_child(docs, p, k)] + stream_children(docs, p, k + 1)
    } else {
        Seq::empty()
    }
}

proof fn lemma_stream_stands(b: Seq<u8>, p: int, docs: Seq<Item>, k: int)
    requires
        stands(b, p, stream_bytes(docs, 0)),
        0 <= k <= docs.len(),
    ensures
        stands(b, stream_pos(docs, p, k), stream_bytes(docs, k)),
        stream_pos(docs, p, k) + stream_bytes(docs, k).len() == p + stream_bytes(docs, 0).len(),
    decreases k,
{
    if k > 0 {
        lemma_stream_stands(b, p, docs, k - 1);
        let it = docs[k - 1];
        let v = doc_bytes(it.value);
        lemma_stands_split(
            b,
            stream_pos(docs, p, k - 1),
            it.lead + v + it.trail,
            stream_bytes(docs, k),
        );
    }
}

proof fn lemma_stream_numbered(docs: Seq<Item>, p: int, k: int)
    requires
        0 <= k <= docs.len(),
    ensures
        stream_children(docs, p, k).len() == docs.len() - k,
        forall|i: int|
            0 <= i < docs.len() - k ==> #[trigger] stream_children(docs, p, k)[i] == stream_child(
                docs,
                p,
                k + i,
            ),
    decreases docs.len() - k,
{
    if k < docs.len() {
        lemma_stream_numbered(docs, p, k + 1);
        assert forall|i: int| 0 <= i < docs.len() - k implies #[trigger] stream_children(
            docs,
            p,
            k,
        )[i] == stream_child(docs, p, k + i) by {
            if i > 0 {
                assert(stream_children(docs, p, k)[i] == stream_children(docs, p, k + 1)[i - 1]);
            }
        }
    }
}

/// The level of a stream at `p` once `k` values have been taken.
pub open spec fn stream_level(docs: Seq<Item>, p: int, end: int, k: int) -> LevelV {
    LevelV {
        pos: if k == 0 {
            p
        } else {
            stream_child(docs, p, k - 1).end
        },
        end,
        is_array: true,
        index: k,
        done: false,
        lines: true,
    }
}

proof fn lemma_ws_join(a: Seq<u8>, c: Seq<u8>)
    requires
        all_ws(a),
        all_ws(c),
    ensures
        all_ws(a + c),
{
    assert forall|i: int| 0 <= i < (a + c).len() implies ws_byte(#[trigger] (a + c)[i]) by {
        if i < a.len() {
            assert((a + c)[i] == a[i]);
        } else {
            assert((a + c)[i] == c[i - a.len()]);
        }
    }
}

proof fn lemma_stands_join(b: Seq<u8>, p: int, x: Seq<u8>, y: Seq<u8>)
    requires
        stands(b, p, x),
        stands(b, p + x.len(), y),
    ensures
        stands(b, p, x + y),
{
    assert forall|i: int| 0 <= i < (x + y).len() implies b[p + i] == #[trigger] (x + y)[i] by {
        if i >= x.len() {
            assert(b[p + x.len() + (i - x.len())] == y[i - x.len()]);
        }
    }
}

proof fn lemma_stream_step(b: Seq<u8>, p: int, docs: Seq<Item>, k: int)
    requires
        stream_ok(docs),
        stands(b, p, stream_bytes(docs, 0)),
        0 <= k <= docs.len() < usize::MAX,
    ensures
        ({
            let end = p + stream_bytes(docs, 0).len();
            let s = stream_level(docs, p, end, k);
            if k < docs.len() {
                next_child(b, s) == Some(stream_child(docs, p, k)) && after_child(b, s)
                    == stream_level(docs, p, end, k + 1)
            } else {
                next_child(b, s) is None
            }
        }),
{
    let end = p + stream_bytes(docs, 0).len();
    let s = stream_level(docs, p, end, k);
    let at = stream_pos(docs, p, k);
    lemma_stream_stands(b, p, docs, k);
    // What is left of the value before: whitespace.
    let gone = if k > 0 {
        docs[k - 1].trail
    } else {
        Seq::empty()
    };
    if k > 0 {
        let it = docs[k - 1];
        let v = doc_bytes(it.value);
        let q = stream_pos(docs, p, k - 1);
        lemma_stream_stands(b, p, docs, k - 1);
        lemma_stands_split(b, q, it.lead + v + it.trail, stream_bytes(docs, k));
        lemma_stands_split(b, q, it.lead + v, it.trail);
    }
    if k < docs.len() {
        let it = docs[k];
        let v = doc_bytes(it.value);
        lemma_stands_split(b, at, it.lead + v + it.trail, stream_bytes(docs, k + 1));
        lemma_stands_split(b, at, it.lead + v, it.trail);
        lemma_stands_split(b, at, it.lead, v);
        let start = at + it.lead.len();
        let z = start + v.len();
        if it.trail.len() > 0 {
            assert(b[z + 0] == it.trail[0]);
        } else if k + 1 == docs.len() {
            assert(stream_bytes(docs, k + 1).len() == 0);
        }
        law_value_end(b, start, it.value, end);
        lemma_ws_join(gone, it.lead);
        lemma_stands_join(b, s.pos, gone, it.lead);
        lemma_skip_lead(b, s.pos, gone + it.lead, end);
        assert(entry_start(b, s) == Some(start));
    } else {
        lemma_skip_lead(b, s.pos, gone, end);
    }
}

proof fn lemma_stream_children(b: Seq<u8>, p: int, docs: Seq<Item>, k: int)
    requires
        stream_ok(docs),
        stands(b, p, stream_bytes(docs, 0)),
        0 <= k <= docs.len() < usize::MAX,
    ensures
        children_from(b, stream_level(docs, p, p + stream_bytes(docs, 0).len(), k))
            == stream_children(docs, p, k),
    decreases docs.len() - k,
{
    lemma_stream_step(b, p, docs, k);
    if k < docs.len() {
        lemma_stream_children(b, p, docs, k + 1);
    }
}

proof fn lemma_stream_count(docs: Seq<Item>, k: int)
    requires
        stream_ok(docs),
        0 <= k <= docs.len(),
    ensures
        stream_bytes(docs, k).len() >= docs.len() - k,
    decreases docs.len() - k,
{
    if k < docs.len() {
        lemma_stream_count(docs, k + 1);
        lemma_doc_nonempty(docs[k].value);
    }
}

/// The scanner enumerates exactly the values of a stream (NDJSON, JSON Lines,
/// concatenated JSON): each once, in order, numbered from zero, at its own byte
/// range.
pub proof fn law_stream_children(b: Seq<u8>, p: int, docs: Seq<Item>)
    requires
        stream_ok(docs),
        stands(b, p, stream_bytes(docs, 0)),
        b.len() < usize::MAX,
    ensures
        children_from(b, level_of_lines(p, p + stream_bytes(docs, 0).len())) == stream_children(
            docs,
            p,
            0,
        ),
        stream_children(docs, p, 0).len() == docs.len(),
        forall|k: int|
            0 <= k < docs.len() ==> #[trigger] stream_children(docs, p, 0)[k] == stream_child(
                docs,
                p,
                k,
            ) && stands(b, stream_child(docs, p, k).start, doc_bytes(docs[k].value)),
{
    lemma_stream_count(docs, 0);
    lemma_stream_children(b, p, docs, 0);
    lemma_stream_numbered(docs, p, 0);
    assert forall|k: int| 0 <= k < docs.len() implies #[trigger] stream_children(docs, p, 0)[k]
        == stream_child(docs, p, k) && stands(
        b,
        stream_child(docs, p, k).start,
        doc_bytes(docs[k].value),
    ) by {
        lemma_stream_stands(b, p, docs, k);
        let it = docs[k];
        let v = doc_bytes(it.value);
        let at = stream_pos(docs, p, k);
        assert(it.lead + v + it.trail + stream_bytes(docs, k + 1) =~= it.lead + (v + (it.trail
            + stream_bytes(docs, k + 1))));
        lemma_stands_split(b, at, it.lead, v + (it.trail + stream_bytes(docs, k + 1)));
        lemma_stands_split(b, at + it.lead.len(), v, it.trail + stream_bytes(docs, k + 1));
    }
}

/// A container counts as empty exactly where it has no children.
pub proof fn law_empty_container(b: Seq<u8>, p: int, d: Doc, end: int)
    requires
        d is List || d is Record,
        doc_ok(d),
        stands(b, p, doc_bytes(d)),
        p + doc_bytes(d).len() <= end <= b.len(),
        b.len() < usize::MAX,
    ensures
        empty_container(b, p, end) <==> children_from(b, level_of(p, end, d is List)).len() == 0,
{
    let s = level_of(p, end, d is List);
    if d is List {
        lemma_list_step(b, p, d, end, 0);
        lemma_list_tail(b, p, d);
        if d->List_0.len() == 0 {
            lemma_skip_lead(b, p + 1, d->List_1, end);
        }
    } else {
        lemma_record_step(b, p, d, end, 0);
        lemma_record_tail(b, p, d);
        if d->Record_0.len() == 0 {
            lemma_skip_lead(b, p + 1, d->Record_1, end);
        }
    }
}

} // verus!
