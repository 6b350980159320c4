//! Byte-range JSON scanner.
//!
//! Works on raw UTF-8 bytes, never on a decoded string. Structural tokens are
//! all ASCII single bytes and every byte of a multi-byte UTF-8 sequence is at
//! least 0x80, so the scan never decodes. Only `decode_str` does, and only the
//! range it is given.

use crate::text::{decimal, decimal_string, text_from, text_of};
use vstd::prelude::*;
use vstd::utf8::*;

verus! {

pub const QUOTE: u8 = 0x22;

pub const BACKSLASH: u8 = 0x5c;

pub const COMMA: u8 = 0x2c;

pub const COLON: u8 = 0x3a;

pub const OPEN_BRACE: u8 = 0x7b;

pub const CLOSE_BRACE: u8 = 0x7d;

pub const OPEN_BRACKET: u8 = 0x5b;

pub const CLOSE_BRACKET: u8 = 0x5d;

/// How many levels of nesting the recursive walks descend before they stop.
pub const MAX_DEPTH: usize = 512;

#[derive(Clone, Copy, PartialEq, Eq, Debug, Structural)]
pub enum Kind {
    Object,
    Array,
    Str,
    Number,
    Bool,
    Null,
}

impl Kind {
    pub open spec fn spec_is_container(self) -> bool {
        self is Object || self is Array
    }

    /// Objects and arrays.
    #[verifier::when_used_as_spec(spec_is_container)]
    pub fn is_container(self) -> (r: bool)
        ensures
            r == self.spec_is_container(),
    {
        matches!(self, Kind::Object | Kind::Array)
    }
}

/// A buffer whose positions, and the position two past its last byte, are
/// machine integers. Every slice of bytes is one; the scanner needs to know.
pub open spec fn addressable(b: Seq<u8>) -> bool {
    b.len() < usize::MAX
}

// ---------------------------------------------------------------------------
// Whitespace
// ---------------------------------------------------------------------------
pub open spec fn ws_byte(c: u8) -> bool {
    c == 0x20 || c == 0x09 || c == 0x0a || c == 0x0d
}

/// JSON whitespace: space, tab, line feed, carriage return.
pub fn is_ws(c: u8) -> (r: bool)
    ensures
        r == ws_byte(c),
{
    matches!(c, 0x20 | 0x09 | 0x0a | 0x0d)
}

/// The first position from `i` on, and below `end`, that holds no whitespace.
pub open spec fn ws_end(b: Seq<u8>, i: int, end: int) -> int
    decreases end - i,
{
    if i < end && ws_byte(b[i]) {
        ws_end(b, i + 1, end)
    } else {
        i
    }
}

pub proof fn lemma_ws_end(b: Seq<u8>, i: int, end: int)
    ensures
        ws_end(b, i, end) >= i,
        i <= end ==> ws_end(b, i, end) <= end,
        i > end ==> ws_end(b, i, end) == i,
        forall|k: int| i <= k < ws_end(b, i, end) ==> ws_byte(#[trigger] b[k]),
        ws_end(b, i, end) < end ==> !ws_byte(b[ws_end(b, i, end)]),
    decreases end - i,
{
    if i < end && ws_byte(b[i]) {
        lemma_ws_end(b, i + 1, end);
    }
}

pub fn skip_ws(b: &[u8], i: usize, end: usize) -> (r: usize)
    requires
        end <= b@.len(),
    ensures
        r == ws_end(b@, i as int, end as int),
        r >= i,
        i <= end ==> r <= end,
        i > end ==> r == i,
        r < end ==> !ws_byte(b@[r as int]),
{
    let mut k: usize = i;
    while k < end && is_ws(b[k])
        invariant
            end <= b@.len(),
            ws_end(b@, k as int, end as int) == ws_end(b@, i as int, end as int),
        decreases end - k,
    {
        k += 1;
    }
    proof {
        lemma_ws_end(b@, i as int, end as int);
    }
    k
}

// ---------------------------------------------------------------------------
// Skipping values
// ---------------------------------------------------------------------------
/// The position just past the quote that closes a string, scanning its body
/// from `i`. A backslash hides the byte behind it. Without a closing quote this
/// is where the scan runs out: `end`, or `end + 1` where the last byte is a
/// backslash that hides nothing.
pub open spec fn string_end(b: Seq<u8>, i: int, end: int) -> int
    decreases end + 1 - i,
{
    if i >= end {
        i
    } else if b[i] == BACKSLASH {
        string_end(b, i + 2, end)
    } else if b[i] == QUOTE {
        i + 1
    } else {
        string_end(b, i + 1, end)
    }
}

pub proof fn lemma_string_end(b: Seq<u8>, i: int, end: int)
    ensures
        string_end(b, i, end) >= i,
        i <= end ==> string_end(b, i, end) <= end + 1,
        i > end ==> string_end(b, i, end) == i,
        i < end ==> string_end(b, i, end) > i,
        string_end(b, i, end) == end + 1 && 0 <= i < end ==> b[end - 1] == BACKSLASH,
    decreases end + 1 - i,
{
    if i < end && b[i] == BACKSLASH {
        lemma_string_end(b, i + 2, end);
    } else if i < end && b[i] != QUOTE {
        lemma_string_end(b, i + 1, end);
    }
}

/// `i` points at the opening quote; gives the position just past the closing one.
pub fn skip_string(b: &[u8], i: usize, end: usize) -> (r: usize)
    requires
        addressable(b@),
        i < usize::MAX,
        end <= b@.len(),
    ensures
        r == string_end(b@, i + 1, end as int),
        r > i,
        i < end ==> r <= end + 1,
{
    proof {
        lemma_string_end(b@, i + 1, end as int);
    }
    let mut k: usize = i + 1;
    while k < end
        invariant
            addressable(b@),
            end <= b@.len(),
            i < k,
            string_end(b@, k as int, end as int) == string_end(b@, i + 1, end as int),
        decreases end + 1 - k,
    {
        let c: u8 = b[k];
        if c == BACKSLASH {
            k += 2;
        } else if c == QUOTE {
            return k + 1;
        } else {
            k += 1;
        }
    }
    k
}

/// How far a scan to the end of a container has come.
pub struct SkipV {
    /// The next byte to look at.
    pub pos: int,
    /// Openers seen and not yet closed.
    pub depth: int,
    /// Whether `pos` lies inside a string.
    pub in_str: bool,
    /// Whether the matching closer lies just before `pos`.
    pub closed: bool,
}

/// The scan after the byte at `s.pos`. Inside a string a backslash takes the
/// byte behind it along, and brackets do not count.
pub open spec fn skip_step(b: Seq<u8>, s: SkipV) -> SkipV {
    let c = b[s.pos];
    if s.in_str {
        if c == BACKSLASH {
            SkipV { pos: s.pos + 2, ..s }
        } else {
            SkipV { pos: s.pos + 1, in_str: c != QUOTE, ..s }
        }
    } else if c == QUOTE {
        SkipV { pos: s.pos + 1, in_str: true, ..s }
    } else if c == OPEN_BRACE || c == OPEN_BRACKET {
        SkipV { pos: s.pos + 1, depth: s.depth + 1, ..s }
    } else if c == CLOSE_BRACE || c == CLOSE_BRACKET {
        SkipV { pos: s.pos + 1, depth: s.depth - 1, closed: s.depth == 1, ..s }
    } else {
        SkipV { pos: s.pos + 1, ..s }
    }
}

/// The scan run until it closes, or has no byte left below `end` or `limit`.
pub open spec fn skip_run(b: Seq<u8>, s: SkipV, end: int, limit: int) -> SkipV
    decreases end + 1 - s.pos,
{
    if s.closed || s.pos >= end || s.pos >= limit {
        s
    } else {
        skip_run(b, skip_step(b, s), end, limit)
    }
}

/// The position just past the closer that matches the opener at `i`.
pub open spec fn container_end(b: Seq<u8>, i: int, end: int) -> int {
    skip_run(b, SkipV { pos: i, depth: 0, in_str: false, closed: false }, end, end).pos
}

pub proof fn lemma_skip_run(b: Seq<u8>, s: SkipV, end: int, limit: int)
    ensures
        skip_run(b, s, end, limit).pos >= s.pos,
        s.pos <= end ==> skip_run(b, s, end, limit).pos <= end + 1,
        s.pos < end && s.pos < limit && !s.closed ==> skip_run(b, s, end, limit).pos > s.pos,
        limit >= end && skip_run(b, s, end, limit).pos < end ==> skip_run(b, s, end, limit).closed,
    decreases end + 1 - s.pos,
{
    if !(s.closed || s.pos >= end || s.pos >= limit) {
        lemma_skip_run(b, skip_step(b, s), end, limit);
    }
}

/// Stopping at a limit and going on later ends where a scan in one go ends.
pub proof fn lemma_skip_run_resume(b: Seq<u8>, s: SkipV, end: int, limit: int)
    ensures
        skip_run(b, skip_run(b, s, end, limit), end, end) == skip_run(b, s, end, end),
    decreases end + 1 - s.pos,
{
    if !(s.closed || s.pos >= end || s.pos >= limit) {
        lemma_skip_run_resume(b, skip_step(b, s), end, limit);
    }
}

/// An unfinished scan keeps a depth of at least one, and no more openers than
/// bytes behind it.
pub proof fn lemma_skip_depth(b: Seq<u8>, s: SkipV, end: int, limit: int)
    requires
        1 <= s.depth <= s.pos,
        !s.closed,
    ensures
        skip_run(b, s, end, limit).closed || 1 <= skip_run(b, s, end, limit).depth <= skip_run(
            b,
            s,
            end,
            limit,
        ).pos,
    decreases end + 1 - s.pos,
{
    reveal_with_fuel(skip_run, 2);
    if !(s.pos >= end || s.pos >= limit) && !skip_step(b, s).closed {
        lemma_skip_depth(b, skip_step(b, s), end, limit);
    }
}

/// Inside a string the scan goes to the string's end.
pub proof fn lemma_skip_run_string(b: Seq<u8>, s: SkipV, end: int)
    requires
        s.in_str,
        !s.closed,
        s.pos <= end,
    ensures
        skip_run(b, s, end, end).pos == skip_run(
            b,
            SkipV { pos: string_end(b, s.pos, end), in_str: false, ..s },
            end,
            end,
        ).pos,
    decreases end + 1 - s.pos,
{
    reveal_with_fuel(skip_run, 2);
    reveal_with_fuel(string_end, 2);
    if s.pos < end {
        let c = b[s.pos];
        if c != QUOTE && skip_step(b, s).pos <= end {
            lemma_skip_run_string(b, skip_step(b, s), end);
        }
    }
}

/// `i` points at `{` or `[`; gives the position just past the matching closer,
/// where brackets inside strings do not count.
pub fn skip_container(b: &[u8], i: usize, end: usize) -> (r: usize)
    requires
        addressable(b@),
        end <= b@.len(),
    ensures
        r == container_end(b@, i as int, end as int),
        r >= i,
        i < end ==> i < r <= end + 1,
{
    let ghost first = SkipV { pos: i as int, depth: 0, in_str: false, closed: false };
    proof {
        lemma_skip_run(b@, first, end as int, end as int);
    }
    let mut k: usize = i;
    let mut depth: i128 = 0;
    while k < end
        invariant
            addressable(b@),
            end <= b@.len(),
            i <= k,
            -(k - i) <= depth <= k - i,
            skip_run(
                b@,
                SkipV { pos: k as int, depth: depth as int, in_str: false, closed: false },
                end as int,
                end as int,
            ).pos == container_end(b@, i as int, end as int),
        decreases end + 1 - k,
    {
        let c: u8 = b[k];
        let ghost at = SkipV { pos: k as int, depth: depth as int, in_str: false, closed: false };
        if c == QUOTE {
            proof {
                lemma_skip_run_string(b@, skip_step(b@, at), end as int);
            }
            k = skip_string(b, k, end);
        } else {
            if c == OPEN_BRACE || c == OPEN_BRACKET {
                depth += 1;
            } else if c == CLOSE_BRACE || c == CLOSE_BRACKET {
                depth -= 1;
                if depth == 0 {
                    proof {
                        reveal_with_fuel(skip_run, 2);
                    }
                    return k + 1;
                }
            }
            k += 1;
        }
    }
    k
}

pub open spec fn delimiter_byte(c: u8) -> bool {
    c == COMMA || c == CLOSE_BRACE || c == CLOSE_BRACKET || ws_byte(c)
}

/// The end of a number, `true`, `false` or `null`: the next delimiter.
pub open spec fn bare_end(b: Seq<u8>, i: int, end: int) -> int
    decreases end + 1 - i,
{
    if i < end && !delimiter_byte(b[i]) {
        bare_end(b, i + 1, end)
    } else {
        i
    }
}

pub proof fn lemma_bare_end(b: Seq<u8>, i: int, end: int)
    ensures
        bare_end(b, i, end) >= i,
        i <= end ==> bare_end(b, i, end) <= end,
        i > end ==> bare_end(b, i, end) == i,
        forall|k: int| i <= k < bare_end(b, i, end) ==> !delimiter_byte(#[trigger] b[k]),
        bare_end(b, i, end) < end ==> delimiter_byte(b[bare_end(b, i, end)]),
    decreases end + 1 - i,
{
    if i < end && !delimiter_byte(b[i]) {
        lemma_bare_end(b, i + 1, end);
    }
}

/// The position just past the value whose first byte is at `i`.
pub open spec fn token_end(b: Seq<u8>, i: int, end: int) -> int {
    if i >= end {
        i
    } else if b[i] == QUOTE {
        string_end(b, i + 1, end)
    } else if b[i] == OPEN_BRACE || b[i] == OPEN_BRACKET {
        container_end(b, i, end)
    } else {
        bare_end(b, i, end)
    }
}

pub proof fn lemma_token_end(b: Seq<u8>, i: int, end: int)
    ensures
        token_end(b, i, end) >= i,
        i <= end ==> token_end(b, i, end) <= end + 1,
        i < end && !delimiter_byte(b[i]) ==> token_end(b, i, end) > i,
        i < end && !(kind_of(b[i]).is_container() || kind_of(b[i]) is Str) ==> token_end(b, i, end)
            <= end,
{
    if i < end {
        lemma_string_end(b, i + 1, end);
        lemma_skip_run(
            b,
            SkipV { pos: i, depth: 0, in_str: false, closed: false },
            end,
            end,
        );
        lemma_bare_end(b, i, end);
    }
}

/// Skips a whole value starting at or after `i`; gives the position just past it.
pub fn skip_value(b: &[u8], i: usize, end: usize) -> (r: usize)
    requires
        addressable(b@),
        end <= b@.len(),
    ensures
        r == token_end(b@, ws_end(b@, i as int, end as int), end as int),
        r >= i,
        i <= end ==> r <= end + 1,
{
    let i: usize = skip_ws(b, i, end);
    proof {
        lemma_token_end(b@, i as int, end as int);
    }
    if i >= end {
        return i;
    }
    let c: u8 = b[i];
    if c == QUOTE {
        skip_string(b, i, end)
    } else if c == OPEN_BRACE || c == OPEN_BRACKET {
        skip_container(b, i, end)
    } else {
        let mut j: usize = i;
        while j < end && !(b[j] == COMMA || b[j] == CLOSE_BRACE || b[j] == CLOSE_BRACKET) && !is_ws(
            b[j],
        )
            invariant
                end <= b@.len(),
                bare_end(b@, j as int, end as int) == bare_end(b@, i as int, end as int),
            decreases end - j,
        {
            j += 1;
        }
        j
    }
}

// ---------------------------------------------------------------------------
// Kinds
// ---------------------------------------------------------------------------
/// The kind of a value, told by its first byte.
pub open spec fn kind_of(c: u8) -> Kind {
    if c == OPEN_BRACE {
        Kind::Object
    } else if c == OPEN_BRACKET {
        Kind::Array
    } else if c == QUOTE {
        Kind::Str
    } else if c == 0x74 || c == 0x66 {
        Kind::Bool
    } else if c == 0x6e {
        Kind::Null
    } else {
        Kind::Number
    }
}

pub fn value_kind(b: &[u8], i: usize) -> (r: Kind)
    requires
        i < b@.len(),
    ensures
        r == kind_of(b@[i as int]),
{
    match b[i] {
        0x7b => Kind::Object,
        0x5b => Kind::Array,
        0x22 => Kind::Str,
        0x74 | 0x66 => Kind::Bool,
        0x6e => Kind::Null,
        _ => Kind::Number,
    }
}

/// Whether nothing but a closer follows the opener at `start`.
pub open spec fn empty_container(b: Seq<u8>, start: int, end: int) -> bool {
    let to = if end <= b.len() {
        end
    } else {
        b.len() as int
    };
    let i = ws_end(b, start + 1, to);
    i >= to || b[i] == CLOSE_BRACE || b[i] == CLOSE_BRACKET
}

/// True if a container `{`/`[` at `start` has no children (so it's not expandable).
pub fn container_empty(b: &[u8], start: usize, end: usize) -> (r: bool)
    requires
        start < usize::MAX,
    ensures
        r == empty_container(b@, start as int, end as int),
{
    let to: usize = if end <= b.len() {
        end
    } else {
        b.len()
    };
    let i: usize = skip_ws(b, start + 1, to);
    i >= to || b[i] == CLOSE_BRACE || b[i] == CLOSE_BRACKET
}

// ---------------------------------------------------------------------------
// Strings
// ---------------------------------------------------------------------------
/// The value of a hexadecimal digit.
pub open spec fn hex_digit(c: u8) -> Option<int> {
    if 0x30 <= c <= 0x39 {
        Some(c - 0x30)
    } else if 0x41 <= c <= 0x46 {
        Some(c - 0x41 + 10)
    } else if 0x61 <= c <= 0x66 {
        Some(c - 0x61 + 10)
    } else {
        None
    }
}

/// The value of a run of hexadecimal digits.
pub open spec fn hex_number(s: Seq<u8>) -> Option<int>
    decreases s.len(),
{
    if s.len() == 0 {
        Some(0)
    } else {
        match (hex_number(s.drop_last()), hex_digit(s.last())) {
            (Some(h), Some(d)) => Some(16 * h + d),
            _ => None,
        }
    }
}

/// The number that the four bytes behind `\u` stand for. A leading `+` is read
/// as a sign.
pub open spec fn code_unit(s: Seq<u8>) -> Option<int> {
    if s[0] == 0x2b {
        hex_number(s.skip(1))
    } else {
        hex_number(s)
    }
}

/// The UTF-8 bytes that the four bytes behind `\u` stand for: none where they
/// are no number, and none for one half of a surrogate pair by itself.
pub open spec fn code_unit_bytes(s: Seq<u8>) -> Seq<u8> {
    match code_unit(s) {
        Some(n) => if is_scalar(n as u32) {
            encode_utf8(seq![(n as u32) as char])
        } else {
            Seq::empty()
        },
        None => Seq::empty(),
    }
}

/// The character that two halves of a surrogate pair stand for.
pub open spec fn paired(hi: int, lo: int) -> int {
    0x10000 + (hi - 0xd800) * 0x400 + (lo - 0xdc00)
}

/// The character that the escape at `s[i]` and the one behind it stand for, where
/// they are the two halves of a surrogate pair.
pub open spec fn pair_at(s: Seq<u8>, i: int) -> Option<int> {
    if i + 12 <= s.len() && s[i + 6] == BACKSLASH && s[i + 7] == 0x75 {
        match (code_unit(s.subrange(i + 2, i + 6)), code_unit(s.subrange(i + 8, i + 12))) {
            (Some(hi), Some(lo)) => if 0xd800 <= hi <= 0xdbff && 0xdc00 <= lo <= 0xdfff {
                Some(paired(hi, lo))
            } else {
                None
            },
            _ => None,
        }
    } else {
        None
    }
}

/// The byte that a backslash and `c` (other than `u`) stand for.
pub open spec fn escaped_byte(c: u8) -> u8 {
    if c == 0x6e {
        0x0a
    } else if c == 0x74 {
        0x09
    } else if c == 0x72 {
        0x0d
    } else if c == 0x62 {
        0x08
    } else if c == 0x66 {
        0x0c
    } else {
        c
    }
}

/// What the escape at `s[i]` stands for, and how many bytes it takes up. Two escapes
/// that are the halves of a surrogate pair stand for one character together.
pub open spec fn escape_at(s: Seq<u8>, i: int) -> (Seq<u8>, int) {
    if s[i + 1] != 0x75 {
        (seq![escaped_byte(s[i + 1])], 2)
    } else if let Some(n) = pair_at(s, i) {
        (encode_utf8(seq![(n as u32) as char]), 12)
    } else if i + 6 <= s.len() {
        (code_unit_bytes(s.subrange(i + 2, i + 6)), 6)
    } else {
        (Seq::empty(), 2)
    }
}

/// The bytes of `s` from `i` on with the escapes expanded.
pub open spec fn unescape(s: Seq<u8>, i: int) -> Seq<u8>
    decreases s.len() - i,
{
    if i >= s.len() {
        Seq::empty()
    } else if s[i] == BACKSLASH && i + 1 < s.len() {
        escape_at(s, i).0 + unescape(s, i + escape_at(s, i).1)
    } else {
        seq![s[i]] + unescape(s, i + 1)
    }
}

/// The text of the JSON string at `[start, end)`, quotes included in the range.
pub open spec fn decoded(b: Seq<u8>, start: int, end: int) -> Seq<char> {
    if end <= start + 1 {
        Seq::empty()
    } else {
        text_of(unescape(b.subrange(start + 1, end - 1), 0))
    }
}

pub proof fn lemma_unescape_plain(s: Seq<u8>, i: int)
    requires
        0 <= i <= s.len(),
        forall|k: int| i <= k < s.len() ==> s[k] != BACKSLASH,
    ensures
        unescape(s, i) == s.skip(i),
    decreases s.len() - i,
{
    if i < s.len() {
        lemma_unescape_plain(s, i + 1);
    }
    assert(unescape(s, i) =~= s.skip(i));
}

fn hex_digit_of(c: u8) -> (r: Option<u32>)
    ensures
        r is Some <==> hex_digit(c) is Some,
        r is Some ==> r->0 == hex_digit(c)->0 && r->0 < 16,
{
    if 0x30 <= c && c <= 0x39 {
        Some((c - 0x30) as u32)
    } else if 0x41 <= c && c <= 0x46 {
        Some((c - 0x41 + 10) as u32)
    } else if 0x61 <= c && c <= 0x66 {
        Some((c - 0x61 + 10) as u32)
    } else {
        None
    }
}

proof fn lemma_hex_number_none(s: Seq<u8>, n: int)
    requires
        0 <= n <= s.len(),
        hex_number(s.take(n)) is None,
    ensures
        hex_number(s) is None,
    decreases s.len() - n,
{
    if n < s.len() {
        assert(s.take(n + 1).drop_last() =~= s.take(n));
        lemma_hex_number_none(s, n + 1);
    } else {
        assert(s.take(n) =~= s);
    }
}

/// The number that the four bytes at `s[at..]` stand for.
fn read_code_unit(s: &[u8], at: usize) -> (r: Option<u32>)
    requires
        addressable(s@),
        at + 4 <= s@.len(),
    ensures
        ({
            let n = code_unit(s@.subrange(at as int, at + 4));
            &&& r is Some <==> n is Some
            &&& r is Some ==> r->0 == n->0
        }),
{
    let ghost four = s@.subrange(at as int, at + 4);
    let from: usize = if s[at] == 0x2b {
        at + 1
    } else {
        at
    };
    let ghost digits = if four[0] == 0x2b {
        four.skip(1)
    } else {
        four
    };
    let mut acc: u32 = 0;
    let mut k: usize = from;
    while k < at + 4
        invariant
            addressable(s@),
            at + 4 <= s@.len(),
            code_unit(s@.subrange(at as int, at + 4)) == hex_number(digits),
            from == at || from == at + 1,
            from <= k <= at + 4,
            digits.len() == at + 4 - from,
            forall|j: int| 0 <= j < digits.len() ==> digits[j] == #[trigger] s@[from + j],
            hex_number(digits.take(k - from)) == Some(acc as int),
            k == from ==> acc < 1,
            k == from + 1 ==> acc < 16,
            k == from + 2 ==> acc < 256,
            k == from + 3 ==> acc < 4096,
            acc < 65536,
        decreases at + 4 - k,
    {
        proof {
            assert(digits.take(k + 1 - from).drop_last() =~= digits.take(k - from));
            assert(digits[k - from] == s@[from + (k - from)]);
            assert(digits.take(k + 1 - from).last() == s@[k as int]);
        }
        match hex_digit_of(s[k]) {
            Some(d) => {
                acc = acc * 16 + d;
            },
            None => {
                proof {
                    lemma_hex_number_none(digits, k + 1 - from);
                }
                return None;
            },
        }
        k += 1;
    }
    assert(digits.take(digits.len() as int) =~= digits);
    Some(acc)
}

/// Put the UTF-8 bytes of a character behind others; nothing where the number is that
/// of no character.
fn push_scalar(out: &mut Vec<u8>, n: u32)
    ensures
        final(out)@ == old(out)@ + if is_scalar(n) {
            encode_utf8(seq![n as char])
        } else {
            Seq::empty()
        },
{
    let ghost before = out@;
    if let Some(ch) = char::from_u32(n) {
        let mut one = String::new();
        one.push(ch);
        out.extend_from_slice(one.as_str().as_bytes());
        proof {
            char_u32_cast(ch, n);
        }
        assert(one@ =~= seq![n as char]);
    }
    assert(out@ =~= before + if is_scalar(n) {
        encode_utf8(seq![n as char])
    } else {
        Seq::empty()
    });
}

/// The character of the surrogate pair at `s[i..]`, if one is there.
fn read_pair(s: &[u8], i: usize) -> (r: Option<u32>)
    requires
        addressable(s@),
        i + 6 <= s@.len(),
    ensures
        match pair_at(s@, i as int) {
            Some(n) => r == Some(n as u32) && n == n as u32 && is_scalar(n as u32),
            None => r is None,
        },
{
    if s.len() - i < 12 || s[i + 6] != BACKSLASH || s[i + 7] != 0x75 {
        return None;
    }
    match (read_code_unit(s, i + 2), read_code_unit(s, i + 8)) {
        (Some(hi), Some(lo)) => {
            if 0xd800 <= hi && hi <= 0xdbff && 0xdc00 <= lo && lo <= 0xdfff {
                Some(0x10000 + (hi - 0xd800) * 0x400 + (lo - 0xdc00))
            } else {
                None
            }
        },
        _ => None,
    }
}

/// Decodes a JSON string whose byte range `[start, end)` includes the quotes.
/// Multi-byte UTF-8 is kept as it is; only backslash escapes are expanded.
pub fn decode_str(b: &[u8], start: usize, end: usize) -> (r: String)
    requires
        addressable(b@),
        start < usize::MAX,
        end <= b@.len() + 1,
    ensures
        r@ == decoded(b@, start as int, end as int),
{
    if end <= start + 1 {
        return String::new();
    }
    let inner: &[u8] = vstd::slice::slice_subrange(b, start + 1, end - 1);
    let mut k: usize = 0;
    while k < inner.len() && inner[k] != BACKSLASH
        invariant
            k <= inner@.len(),
            forall|j: int| 0 <= j < k ==> inner@[j] != BACKSLASH,
        decreases inner@.len() - k,
    {
        k += 1;
    }
    if k == inner.len() {
        proof {
            lemma_unescape_plain(inner@, 0);
            assert(inner@.skip(0) =~= inner@);
        }
        return text_from(inner);
    }
    let mut out: Vec<u8> = Vec::new();
    let mut i: usize = 0;
    while i < inner.len()
        invariant
            addressable(inner@),
            i <= inner@.len(),
            out@ + unescape(inner@, i as int) == unescape(inner@, 0),
        decreases inner@.len() - i,
    {
        let c: u8 = inner[i];
        let ghost before = out@;
        let ghost at = i as int;
        if c == BACKSLASH && i + 1 < inner.len() {
            let e: u8 = inner[i + 1];
            if e == 0x75 {
                if inner.len() - i < 6 {
                    i += 2;
                } else if let Some(n) = read_pair(inner, i) {
                    push_scalar(&mut out, n);
                    i += 12;
                } else {
                    if let Some(n) = read_code_unit(inner, i + 2) {
                        push_scalar(&mut out, n);
                    }
                    i += 6;
                }
            } else {
                let v: u8 = match e {
                    0x6e => 0x0a,
                    0x74 => 0x09,
                    0x72 => 0x0d,
                    0x62 => 0x08,
                    0x66 => 0x0c,
                    other => other,
                };
                out.push(v);
                i += 2;
            }
            proof {
                assert(out@ =~= before + escape_at(inner@, at).0);
            }
        } else {
            out.push(c);
            i += 1;
        }
        proof {
            assert(out@ + unescape(inner@, i as int) =~= before + unescape(inner@, at));
        }
    }
    assert(out@ + unescape(inner@, i as int) =~= out@);
    text_from(out.as_slice())
}

// ---------------------------------------------------------------------------
// The children of a container
// ---------------------------------------------------------------------------
/// One immediate child of a container: its display label and value byte range.
pub struct RawChild {
    pub label: String,
    pub start: usize,
    pub end: usize,
    /// False when `end` is provisional: the closer of this container has not
    /// been scanned yet and `end` is the bound of the level it was found in.
    pub end_exact: bool,
    pub kind: Kind,
    /// True when the label is an array index (vs. an object key).
    pub is_index: bool,
}

/// A child as the contracts speak of it.
pub struct ChildV {
    pub label: Seq<char>,
    pub start: int,
    pub end: int,
    pub end_exact: bool,
    pub kind: Kind,
    pub is_index: bool,
}

impl View for RawChild {
    type V = ChildV;

    open spec fn view(&self) -> ChildV {
        ChildV {
            label: self.label@,
            start: self.start as int,
            end: self.end as int,
            end_exact: self.end_exact,
            kind: self.kind,
            is_index: self.is_index,
        }
    }
}

/// How far the enumeration of one level has come.
pub struct LevelV {
    /// Where the search for the next child starts.
    pub pos: int,
    /// Where the level ends at the latest.
    pub end: int,
    pub is_array: bool,
    /// How many children came before.
    pub index: int,
    pub done: bool,
    /// Values separated by whitespace, with no brackets and no commas around them.
    pub lines: bool,
}

pub open spec fn closer_byte(c: u8) -> bool {
    c == CLOSE_BRACE || c == CLOSE_BRACKET
}

/// Where the next child begins (with its key, in an object), if there is one. A
/// stream that never moves on, with a delimiter in the place of a value, ends
/// where its values can no longer be numbered.
pub open spec fn entry_start(b: Seq<u8>, s: LevelV) -> Option<int> {
    let i = ws_end(b, s.pos, s.end);
    if s.done || i >= s.end || s.lines && s.index >= usize::MAX {
        None
    } else if s.lines {
        Some(i)
    } else if closer_byte(b[i]) {
        None
    } else if s.index > 0 && b[i] == COMMA {
        let j = ws_end(b, i + 1, s.end);
        if j >= s.end || closer_byte(b[j]) {
            None
        } else {
            Some(j)
        }
    } else {
        Some(i)
    }
}

/// Where the value of the child that begins at `i` begins.
pub open spec fn entry_value(b: Seq<u8>, s: LevelV, i: int) -> int {
    if s.is_array {
        i
    } else {
        let k = ws_end(b, string_end(b, i + 1, s.end), s.end);
        if k < s.end && b[k] == COLON {
            ws_end(b, k + 1, s.end)
        } else {
            k
        }
    }
}

/// The label of the child that begins at `i`: its index, or its decoded key.
pub open spec fn entry_label(b: Seq<u8>, s: LevelV, i: int) -> Seq<char> {
    if s.is_array {
        decimal(s.index as nat)
    } else {
        decoded(b, i, string_end(b, i + 1, s.end))
    }
}

/// The level as far as there are bytes of it: a container that is cut off behind a
/// backslash reaches one byte past those it was found in.
pub open spec fn clipped(b: Seq<u8>, s: LevelV) -> LevelV {
    LevelV {
        end: if s.end <= b.len() {
            s.end
        } else {
            b.len() as int
        },
        ..s
    }
}

/// The next child of a level, if there is one. A child whose value has not
/// arrived yet is none.
pub open spec fn next_child(b: Seq<u8>, level: LevelV) -> Option<ChildV> {
    let s = clipped(b, level);
    match entry_start(b, s) {
        None => None,
        Some(i) => {
            let v = entry_value(b, s, i);
            if v >= s.end {
                None
            } else {
                Some(
                    ChildV {
                        label: entry_label(b, s, i),
                        start: v,
                        end: token_end(b, v, s.end),
                        end_exact: true,
                        kind: kind_of(b[v]),
                        is_index: s.is_array,
                    },
                )
            }
        },
    }
}

/// The level once the next child has been taken.
pub open spec fn after_child(b: Seq<u8>, level: LevelV) -> LevelV {
    let s = clipped(b, level);
    match next_child(b, level) {
        None => LevelV { done: true, ..s },
        Some(c) => LevelV { pos: c.end, index: s.index + 1, ..s },
    }
}

/// `c` before its end has been looked for: a container's end is left at the
/// bound of its level.
pub open spec fn tentative(c: ChildV, bound: int) -> ChildV {
    if c.kind.is_container() {
        ChildV { end: bound, end_exact: false, ..c }
    } else {
        c
    }
}

/// The level of the container whose opener is at `start`.
pub open spec fn level_of(start: int, end: int, is_array: bool) -> LevelV {
    LevelV { pos: start + 1, end, is_array, index: 0, done: false, lines: false }
}

/// The level of a stream of values in `[start, end)`.
pub open spec fn level_of_lines(start: int, end: int) -> LevelV {
    LevelV { pos: start, end, is_array: true, index: 0, done: false, lines: true }
}

/// A level inside the buffer `b`.
pub open spec fn level_wf(b: Seq<u8>, s: LevelV) -> bool {
    &&& 0 <= s.pos
    &&& 0 <= s.end <= b.len() + 1
    &&& 0 <= s.index <= usize::MAX
    &&& s.lines ==> s.is_array
    &&& !s.lines ==> 1 <= s.pos && s.index <= s.pos
}

/// What is known of a level and its next child.
pub proof fn lemma_next_child(b: Seq<u8>, s: LevelV)
    requires
        level_wf(b, s),
        addressable(b),
    ensures
        level_wf(b, after_child(b, s)),
        match next_child(b, s) {
            None => true,
            Some(c) => {
                &&& s.index < usize::MAX
                &&& s.pos <= c.start < clipped(b, s).end
                &&& c.start <= c.end
                &&& c.end == after_child(b, s).pos <= clipped(b, s).end + 1
                &&& c.kind is Str || c.kind.is_container() || c.end <= clipped(b, s).end
                &&& c.kind.is_container() || c.kind is Str ==> c.start < c.end
                &&& c.kind == kind_of(b[c.start])
                &&& s.index > 0 && !s.lines ==> after_child(b, s).pos > s.pos
            },
        },
{
    let s = clipped(b, s);
    lemma_ws_end(b, s.pos, s.end);
    let i = ws_end(b, s.pos, s.end);
    lemma_ws_end(b, i + 1, s.end);
    if let Some(j) = entry_start(b, s) {
        lemma_string_end(b, j + 1, s.end);
        let e = string_end(b, j + 1, s.end);
        lemma_ws_end(b, e, s.end);
        lemma_ws_end(b, ws_end(b, e, s.end) + 1, s.end);
        let v = entry_value(b, s, j);
        lemma_token_end(b, v, s.end);
    }
}

/// All the children that are left in a level.
pub open spec fn children_from(b: Seq<u8>, s: LevelV) -> Seq<ChildV>
    decreases usize::MAX - s.index,
{
    match next_child(b, s) {
        Some(c) if s.index < usize::MAX => seq![c] + children_from(b, after_child(b, s)),
        _ => Seq::empty(),
    }
}

/// How far a cursor has come: its level, with the container handed out last
/// already behind it, and the scan over that container while it is unfinished.
pub struct CursorV {
    pub level: LevelV,
    pub skipping: Option<SkipV>,
}

/// A cursor that walks a level of the buffer `b`.
pub open spec fn cursor_wf(b: Seq<u8>, c: CursorV) -> bool {
    &&& addressable(b)
    &&& level_wf(b, c.level)
    &&& match c.skipping {
        None => true,
        Some(k) => {
            &&& 1 <= k.depth <= k.pos <= c.level.end + 1
            &&& !k.closed
            &&& c.level.end <= b.len()
            &&& c.level.pos == skip_run(b, k, c.level.end, c.level.end).pos
        },
    }
}

/// The cursor once the next child has been scanned to its end.
pub open spec fn after_next(b: Seq<u8>, c: CursorV) -> CursorV {
    CursorV { level: after_child(b, c.level), skipping: None }
}

/// The scan that is left to do once the child `c` has been handed out.
pub open spec fn skip_after(c: Option<ChildV>) -> Option<SkipV> {
    match c {
        Some(c) if c.kind.is_container() => Some(
            SkipV { pos: c.start + 1, depth: 1, in_str: false, closed: false },
        ),
        _ => None,
    }
}

/// Whether `budget` more bytes do not bring the unfinished scan to its end.
pub open spec fn runs_dry(b: Seq<u8>, c: CursorV, budget: int) -> bool {
    match c.skipping {
        None => false,
        Some(k) => {
            let z = skip_run(b, k, c.level.end, k.pos + budget);
            !z.closed && z.pos < c.level.end
        },
    }
}

/// What one step gives.
pub enum StepV {
    Child(ChildV),
    Done,
    Yield,
}

/// What one step of `budget` bytes gives.
pub open spec fn step_result(b: Seq<u8>, c: CursorV, budget: int) -> StepV {
    if runs_dry(b, c, budget) {
        StepV::Yield
    } else {
        match next_child(b, c.level) {
            None => StepV::Done,
            Some(ch) => StepV::Child(tentative(ch, clipped(b, c.level).end)),
        }
    }
}

/// The cursor after one step of `budget` bytes.
pub open spec fn after_step(b: Seq<u8>, c: CursorV, budget: int) -> CursorV {
    if runs_dry(b, c, budget) {
        let k = c.skipping->0;
        CursorV { skipping: Some(skip_run(b, k, c.level.end, k.pos + budget)), ..c }
    } else {
        CursorV {
            level: after_child(b, c.level),
            skipping: skip_after(next_child(b, c.level)),
        }
    }
}

/// A scan to the end of a container that can be taken up again.
#[derive(Clone, Copy)]
struct Skip {
    pos: usize,
    depth: usize,
    in_str: bool,
}

impl Skip {
    closed spec fn model(self) -> SkipV {
        SkipV {
            pos: self.pos as int,
            depth: self.depth as int,
            in_str: self.in_str,
            closed: false,
        }
    }
}

proof fn lemma_skip_run_limit(b: Seq<u8>, s: SkipV, end: int, limit: int)
    requires
        limit >= end,
    ensures
        skip_run(b, s, end, limit) == skip_run(b, s, end, end),
    decreases end + 1 - s.pos,
{
    if !(s.closed || s.pos >= end || s.pos >= limit) {
        lemma_skip_run_limit(b, skip_step(b, s), end, limit);
    }
}

/// Whether the buffer `b` is the buffer `a` with more bytes behind it.
pub open spec fn extends(a: Seq<u8>, b: Seq<u8>) -> bool {
    a.len() <= b.len() && b.take(a.len() as int) == a
}

/// A scan does not look at what lies behind its end.
proof fn lemma_skip_run_extends(a: Seq<u8>, b: Seq<u8>, s: SkipV, end: int, limit: int)
    requires
        extends(a, b),
        0 <= s.pos,
        end <= a.len(),
    ensures
        skip_run(b, s, end, limit) == skip_run(a, s, end, limit),
    decreases end + 1 - s.pos,
{
    if !(s.closed || s.pos >= end || s.pos >= limit) {
        assert(b[s.pos] == b.take(a.len() as int)[s.pos]);
        lemma_skip_run_extends(a, b, skip_step(b, s), end, limit);
    }
}

/// Carries the scan `k` on for `budget` bytes. `Ok` gives the position where it
/// ended, `Err` how far it has come.
fn resume_skip(b: &[u8], k: Skip, end: usize, budget: usize) -> (r: Result<usize, Skip>)
    requires
        addressable(b@),
        end <= b@.len(),
        1 <= k.depth <= k.pos <= end + 1,
    ensures
        ({
            let z = skip_run(b@, k.model(), end as int, k.pos + budget);
            match r {
                Ok(p) => (z.closed || z.pos >= end) && p == z.pos,
                Err(k2) => {
                    &&& !z.closed && z.pos < end
                    &&& k2.model() == z
                    &&& 1 <= k2.depth <= k2.pos
                },
            }
        }),
{
    let mut k2 = k;
    let limit: usize = if k.pos < end && budget < end - k.pos {
        k.pos + budget
    } else {
        end
    };
    let ghost z = skip_run(b@, k.model(), end as int, limit as int);
    proof {
        if limit == end {
            if k.pos + budget >= end {
                lemma_skip_run_limit(b@, k.model(), end as int, k.pos + budget);
            }
        }
    }
    while k2.pos < limit
        invariant
            addressable(b@),
            limit <= end <= b@.len(),
            1 <= k2.depth <= k2.pos <= end + 1,
            z == skip_run(b@, k2.model(), end as int, limit as int),
            z == skip_run(b@, k.model(), end as int, k.pos + budget),
        decreases end + 1 - k2.pos,
    {
        let c: u8 = b[k2.pos];
        let ghost at = k2.model();
        if k2.in_str {
            if c == BACKSLASH {
                k2.pos = k2.pos + 2;
            } else {
                k2.in_str = c != QUOTE;
                k2.pos = k2.pos + 1;
            }
        } else if c == QUOTE {
            k2.in_str = true;
            k2.pos = k2.pos + 1;
        } else if c == OPEN_BRACE || c == OPEN_BRACKET {
            k2.depth = k2.depth + 1;
            k2.pos = k2.pos + 1;
        } else if c == CLOSE_BRACE || c == CLOSE_BRACKET {
            k2.depth = k2.depth - 1;
            k2.pos = k2.pos + 1;
            if k2.depth == 0 {
                proof {
                    reveal_with_fuel(skip_run, 2);
                }
                return Ok(k2.pos);
            }
        } else {
            k2.pos = k2.pos + 1;
        }
        proof {
            assert(k2.model() == skip_step(b@, at));
        }
    }
    if k2.pos < end {
        Err(k2)
    } else {
        Ok(k2.pos)
    }
}

/// One round of an incremental enumeration.
pub enum Step {
    /// The next child; a container's end is provisional.
    Child(RawChild),
    /// There are no more children.
    Done,
    /// The budget ran out on the way over the previous child.
    Yield,
}

/// Resumable cursor over a container's immediate children. Each `next` scans
/// exactly one more child, so a level is enumerated only as far as it is needed.
pub struct Cursor {
    pos: usize,
    end: usize,
    is_array: bool,
    index: usize,
    done: bool,
    /// Values are whitespace-separated with no enclosing bracket and no commas
    /// (see [`Cursor::lines`]).
    lines: bool,
    /// The container handed out last, while its end has not been looked for.
    pending: Option<Skip>,
}

impl Cursor {
    /// This cursor over the buffer `b`.
    pub closed spec fn model(&self, b: Seq<u8>) -> CursorV {
        CursorV {
            level: LevelV {
                pos: match self.pending {
                    None => self.pos as int,
                    Some(k) => skip_run(b, k.model(), self.end as int, self.end as int).pos,
                },
                end: self.end as int,
                is_array: self.is_array,
                index: self.index as int,
                done: self.done,
                lines: self.lines,
            },
            skipping: match self.pending {
                None => None,
                Some(k) => Some(k.model()),
            },
        }
    }

    pub open spec fn wf(&self, b: Seq<u8>) -> bool {
        cursor_wf(b, self.model(b))
    }

    /// A cursor over a buffer is one over the buffer with more bytes behind it, in
    /// the same place.
    pub proof fn lemma_extends(&self, a: Seq<u8>, b: Seq<u8>)
        requires
            self.wf(a),
            extends(a, b),
            addressable(b),
        ensures
            self.wf(b),
            self.model(b) == self.model(a),
    {
        if let Some(k) = self.pending {
            lemma_skip_run_extends(a, b, k.model(), self.end as int, self.end as int);
        }
    }

    /// `start` points at the container's opening `{`/`[`.
    pub fn new(start: usize, end: usize, is_array: bool) -> (r: Self)
        requires
            start < usize::MAX,
        ensures
            forall|b: Seq<u8>|
                #[trigger] r.model(b) == (CursorV {
                    level: level_of(start as int, end as int, is_array),
                    skipping: None,
                }),
    {
        Cursor {
            pos: start + 1,
            end,
            is_array,
            index: 0,
            done: false,
            lines: false,
            pending: None,
        }
    }

    /// A cursor over a whitespace-separated stream of JSON values: NDJSON, JSON
    /// Lines, concatenated JSON. There is no enclosing bracket; each value is an
    /// array-style element, one per `next`.
    pub fn lines(start: usize, end: usize) -> (r: Self)
        ensures
            forall|b: Seq<u8>|
                #[trigger] r.model(b) == (CursorV {
                    level: level_of_lines(start as int, end as int),
                    skipping: None,
                }),
    {
        Cursor { pos: start, end, is_array: true, index: 0, done: false, lines: true, pending: None }
    }

    /// Finds the next child. A scalar is scanned to its end; the end of a
    /// container is left to `pending`.
    fn advance(&mut self, b: &[u8]) -> (r: Option<RawChild>)
        requires
            old(self).wf(b@),
            old(self).model(b@).skipping is None,
        ensures
            final(self).wf(b@),
            ({
                let s = old(self).model(b@).level;
                &&& final(self).model(b@).level == after_child(b@, s)
                &&& final(self).model(b@).skipping == skip_after(next_child(b@, s))
                &&& match next_child(b@, s) {
                    None => r is None,
                    Some(c) => r is Some && r->0@ == tentative(c, clipped(b@, s).end),
                }
            }),
    {
        let ghost s = self.model(b@).level;
        proof {
            lemma_next_child(b@, s);
            reveal_with_fuel(skip_run, 2);
        }
        if self.end > b.len() {
            self.end = b.len();
        }
        if self.done {
            return None;
        }
        let mut i: usize = skip_ws(b, self.pos, self.end);
        if self.lines && self.index == usize::MAX {
            self.done = true;
            return None;
        }
        if i >= self.end || (!self.lines && (b[i] == CLOSE_BRACE || b[i] == CLOSE_BRACKET)) {
            self.done = true;
            return None;
        }
        if !self.lines && self.index > 0 {
            if b[i] == COMMA {
                i = skip_ws(b, i + 1, self.end);
            }
            if i >= self.end || b[i] == CLOSE_BRACE || b[i] == CLOSE_BRACKET {
                self.done = true;
                return None;
            }
        }
        let label: String;
        let vstart: usize;
        if self.is_array {
            label = decimal_string(self.index as u64);
            vstart = i;
        } else {
            let kend: usize = skip_string(b, i, self.end);
            label = decode_str(b, i, kend);
            let mut j: usize = skip_ws(b, kend, self.end);
            if j < self.end && b[j] == COLON {
                j += 1;
            }
            vstart = skip_ws(b, j, self.end);
        }
        // The value isn't in the buffer yet: truncated mid-key or at the colon
        // while an incomplete document streams in. Stop here; a later scan with
        // more bytes will pick it up.
        if vstart >= self.end {
            self.done = true;
            return None;
        }
        let kind = value_kind(b, vstart);
        let vend: usize;
        if kind.is_container() {
            vend = self.end;
            self.pending = Some(Skip { pos: vstart + 1, depth: 1, in_str: false });
        } else {
            vend = skip_value(b, vstart, self.end);
            self.pos = vend;
        }
        self.index = self.index + 1;
        Some(
            RawChild {
                label,
                start: vstart,
                end: vend,
                end_exact: !kind.is_container(),
                kind,
                is_index: self.is_array,
            },
        )
    }

    /// Finishes the scan over the container handed out last.
    fn settle(&mut self, b: &[u8])
        requires
            old(self).wf(b@),
        ensures
            final(self).wf(b@),
            final(self).model(b@) == (CursorV { skipping: None, ..old(self).model(b@) }),
            final(self).pos == old(self).model(b@).level.pos,
            final(self).end == old(self).end,
    {
        if let Some(k) = self.pending {
            proof {
                lemma_skip_run_limit(b@, k.model(), self.end as int, k.pos + usize::MAX);
                lemma_skip_run(b@, k.model(), self.end as int, self.end as int);
            }
            if let Ok(p) = resume_skip(b, k, self.end, usize::MAX) {
                self.pos = p;
            }
            self.pending = None;
        }
    }

    /// Scans one more child to its end.
    pub fn next(&mut self, b: &[u8]) -> (r: Option<RawChild>)
        requires
            old(self).wf(b@),
        ensures
            final(self).wf(b@),
            final(self).model(b@) == after_next(b@, old(self).model(b@)),
            match next_child(b@, old(self).model(b@).level) {
                None => r is None,
                Some(c) => r is Some && r->0@ == c,
            },
    {
        self.settle(b);
        proof {
            lemma_next_child(b@, self.model(b@).level);
            reveal_with_fuel(skip_run, 2);
        }
        match self.advance(b) {
            None => None,
            Some(rc) => {
                let mut rc = rc;
                self.settle(b);
                if rc.kind.is_container() {
                    rc.end = self.pos;
                    rc.end_exact = true;
                }
                Some(rc)
            },
        }
    }

    /// Scans one more child, at a bounded cost: the way over the container handed
    /// out last is cut into pieces of `budget` bytes, with a `Yield` after each
    /// piece but the last.
    pub fn step(&mut self, b: &[u8], budget: usize) -> (r: Step)
        requires
            old(self).wf(b@),
        ensures
            final(self).wf(b@),
            final(self).model(b@) == after_step(b@, old(self).model(b@), budget as int),
            match step_result(b@, old(self).model(b@), budget as int) {
                StepV::Child(c) => r is Child && r->Child_0@ == c,
                StepV::Done => r is Done,
                StepV::Yield => r is Yield,
            },
    {
        if let Some(k) = self.pending {
            proof {
                lemma_skip_run_resume(b@, k.model(), self.end as int, k.pos + budget);
                lemma_skip_run(b@, k.model(), self.end as int, k.pos + budget);
                reveal_with_fuel(skip_run, 2);
            }
            match resume_skip(b, k, self.end, budget) {
                Ok(p) => {
                    self.pos = p;
                    self.pending = None;
                    assert(self.model(b@).level == old(self).model(b@).level);
                },
                Err(k2) => {
                    self.pending = Some(k2);
                    return Step::Yield;
                },
            }
        }
        match self.advance(b) {
            None => Step::Done,
            Some(rc) => Step::Child(rc),
        }
    }
}

// ---------------------------------------------------------------------------
// What holds of every scan
// ---------------------------------------------------------------------------
/// Stepping gives what scanning in one go gives, bit by bit: a step that yields
/// leaves the same children ahead and has come further; one that ends says that there
/// is none; one that hands out a child hands out the next one, whose end it may not
/// know yet.
pub proof fn law_stepping_gives_next(b: Seq<u8>, c: CursorV, budget: int)
    requires
        cursor_wf(b, c),
        budget > 0,
    ensures
        match step_result(b, c, budget) {
            StepV::Yield => {
                let d = after_step(b, c, budget);
                &&& d.level == c.level
                &&& c.skipping->0.pos < d.skipping->0.pos < c.level.end
            },
            StepV::Done => next_child(b, c.level) is None,
            StepV::Child(h) => {
                &&& next_child(b, c.level) matches Some(x) && h.label == x.label && h.start
                    == x.start && h.kind == x.kind && h.is_index == x.is_index && (h.end_exact
                    ==> h.end == x.end)
                &&& after_step(b, c, budget).level == after_next(b, c).level
            },
        },
{
    if runs_dry(b, c, budget) {
        let k = c.skipping->0;
        lemma_skip_run(b, k, c.level.end, k.pos + budget);
        reveal_with_fuel(skip_run, 2);
    } else if let Some(x) = next_child(b, c.level) {
        lemma_next_child(b, c.level);
    }
}

/// Whether the string whose content starts at `i` has its closing quote before `end`.
pub open spec fn string_closed(b: Seq<u8>, i: int, end: int) -> bool
    decreases end + 1 - i,
{
    i < end && if b[i] == BACKSLASH {
        string_closed(b, i + 2, end)
    } else {
        b[i] == QUOTE || string_closed(b, i + 1, end)
    }
}

/// Whether the bytes before `end` show where the value at `i` ends: a string by its
/// quote, a container by its closer, any other by the delimiter behind it.
pub open spec fn token_closed(b: Seq<u8>, i: int, end: int) -> bool {
    i < end && if b[i] == QUOTE {
        string_closed(b, i + 1, end)
    } else if b[i] == OPEN_BRACE || b[i] == OPEN_BRACKET {
        skip_run(b, SkipV { pos: i, depth: 0, in_str: false, closed: false }, end, end).closed
    } else {
        bare_end(b, i, end) < end
    }
}

proof fn lemma_string_closed(b: Seq<u8>, i: int, end: int)
    ensures
        string_end(b, i, end) < end ==> string_closed(b, i, end),
        string_closed(b, i, end) ==> string_end(b, i, end) <= end,
    decreases end + 1 - i,
{
    if i < end && b[i] == BACKSLASH {
        lemma_string_closed(b, i + 2, end);
    } else if i < end && b[i] != QUOTE {
        lemma_string_closed(b, i + 1, end);
    }
}

/// A value that ends before the bound is seen to end there.
pub proof fn lemma_token_closed(b: Seq<u8>, i: int, end: int)
    requires
        token_end(b, i, end) < end,
    ensures
        token_closed(b, i, end),
{
    lemma_token_end(b, i, end);
    lemma_string_closed(b, i + 1, end);
    lemma_skip_run(b, SkipV { pos: i, depth: 0, in_str: false, closed: false }, end, end);
}

proof fn lemma_string_end_stays(a: Seq<u8>, b: Seq<u8>, i: int, end: int, more: int)
    requires
        extends(a, b),
        0 <= i,
        end <= a.len(),
        end <= more,
        string_closed(a, i, end),
    ensures
        string_end(b, i, more) == string_end(a, i, end),
        string_closed(b, i, more),
    decreases end + 1 - i,
{
    assert(b[i] == b.take(a.len() as int)[i]);
    if a[i] == BACKSLASH {
        lemma_string_end_stays(a, b, i + 2, end, more);
    } else if a[i] != QUOTE {
        lemma_string_end_stays(a, b, i + 1, end, more);
    }
}

proof fn lemma_skip_run_stays(a: Seq<u8>, b: Seq<u8>, s: SkipV, end: int, more: int)
    requires
        extends(a, b),
        0 <= s.pos,
        end <= a.len(),
        end <= more,
        skip_run(a, s, end, end).closed,
    ensures
        skip_run(b, s, more, more) == skip_run(a, s, end, end),
    decreases end + 1 - s.pos,
{
    if s.pos < end && !s.closed {
        assert(b[s.pos] == b.take(a.len() as int)[s.pos]);
        lemma_skip_run_stays(a, b, skip_step(a, s), end, more);
    }
}

proof fn lemma_bare_end_stays(a: Seq<u8>, b: Seq<u8>, i: int, end: int, more: int)
    requires
        extends(a, b),
        0 <= i,
        end <= a.len(),
        end <= more,
        bare_end(a, i, end) < end,
    ensures
        bare_end(b, i, more) == bare_end(a, i, end),
    decreases end + 1 - i,
{
    if i < end {
        assert(b[i] == b.take(a.len() as int)[i]);
        if !delimiter_byte(a[i]) {
            lemma_bare_end_stays(a, b, i + 1, end, more);
        }
    }
}

/// A value whose end is seen before the bound it is looked for in ends there whatever
/// the bound, and whatever bytes arrive behind it. A string or a container may end
/// right at the bound.
pub proof fn law_ended_value_stays(a: Seq<u8>, b: Seq<u8>, i: int, end: int, more: int)
    requires
        extends(a, b),
        0 <= i,
        end <= a.len(),
        end <= more,
        token_closed(a, i, end),
    ensures
        token_end(b, i, more) == token_end(a, i, end),
        token_closed(b, i, more),
{
    assert(b[i] == b.take(a.len() as int)[i]);
    if a[i] == QUOTE {
        lemma_string_end_stays(a, b, i + 1, end, more);
    } else if a[i] == OPEN_BRACE || a[i] == OPEN_BRACKET {
        let s = SkipV { pos: i, depth: 0, in_str: false, closed: false };
        lemma_skip_run_stays(a, b, s, end, more);
    } else {
        lemma_bare_end_stays(a, b, i, end, more);
    }
}

/// Text is kept verbatim: a string that holds the characters `t` and no escape decodes to
/// `t`.
pub proof fn law_plain_text_is_verbatim(b: Seq<u8>, start: int, t: Seq<char>)
    requires
        0 <= start,
        start + encode_utf8(t).len() + 2 <= b.len(),
        b.subrange(start + 1, start + 1 + encode_utf8(t).len()) == encode_utf8(t),
        !encode_utf8(t).contains(BACKSLASH),
    ensures
        decoded(b, start, start + encode_utf8(t).len() + 2) == t,
{
    let inner = encode_utf8(t);
    assert forall|k: int| 0 <= k < inner.len() implies inner[k] != BACKSLASH by {
        if inner[k] == BACKSLASH {
            assert(inner.contains(inner[k]));
        }
    }
    lemma_unescape_plain(inner, 0);
    assert(inner.skip(0) =~= inner);
    encode_utf8_valid_utf8(t);
    encode_utf8_decode_utf8(t);
}

} // verus!
