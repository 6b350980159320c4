//! What is written in a JSON string, piece by piece, and that it decodes to the characters
//! that the pieces stand for.

use crate::scanner::{code_unit, decoded, escape_at, hex_number, pair_at, unescape, BACKSLASH};
use crate::text::text_of;
use vstd::prelude::*;
use vstd::utf8::*;

verus! {

/// A piece of a string as it is written.
pub enum Piece {
    /// Characters that stand for themselves.
    Plain(Seq<char>),
    /// A backslash and one byte.
    Short(u8),
    /// A backslash, the letter `u`, and four hexadecimal digits.
    Code(u8, u8, u8, u8),
    /// Two of those that stand for one character.
    Pair((u8, u8, u8, u8), (u8, u8, u8, u8)),
}

pub open spec fn hex_byte(c: u8) -> bool {
    0x30 <= c <= 0x39 || 0x41 <= c <= 0x46 || 0x61 <= c <= 0x66
}

/// The value of a hexadecimal digit: of `0` to `9`, of `A` to `F` and of `a` to `f`.
pub open spec fn hex_value(c: u8) -> int {
    if c <= 0x39 {
        c - 0x30
    } else if c <= 0x46 {
        c - 0x37
    } else {
        c - 0x57
    }
}

/// The value of four hexadecimal digits.
pub open spec fn unit_value(x: u8, y: u8, z: u8, w: u8) -> int {
    4096 * hex_value(x) + 256 * hex_value(y) + 16 * hex_value(z) + hex_value(w)
}

pub open spec fn hex_unit(x: u8, y: u8, z: u8, w: u8) -> bool {
    hex_byte(x) && hex_byte(y) && hex_byte(z) && hex_byte(w)
}

/// What the byte behind a backslash stands for: the quote, the backslash and the slash for
/// themselves, and five letters for the characters that they are the names of.
pub open spec fn short_meaning(c: u8) -> Option<char> {
    if c == 0x22 {
        Some('"')
    } else if c == 0x5c {
        Some('\\')
    } else if c == 0x2f {
        Some('/')
    } else if c == 0x62 {
        Some('\u{8}')
    } else if c == 0x66 {
        Some('\u{c}')
    } else if c == 0x6e {
        Some('\n')
    } else if c == 0x72 {
        Some('\r')
    } else if c == 0x74 {
        Some('\t')
    } else {
        None
    }
}

/// Whether a piece is one of those that JSON has.
pub open spec fn piece_ok(p: Piece) -> bool {
    match p {
        Piece::Plain(t) => forall|i: int|
            0 <= i < encode_utf8(t).len() ==> #[trigger] encode_utf8(t)[i] != 0x5c,
        Piece::Short(c) => short_meaning(c) is Some,
        Piece::Code(x, y, z, w) => hex_unit(x, y, z, w) && !(0xd800 <= unit_value(x, y, z, w)
            <= 0xdfff),
        Piece::Pair(h, l) => {
            &&& hex_unit(h.0, h.1, h.2, h.3)
            &&& hex_unit(l.0, l.1, l.2, l.3)
            &&& 0xd800 <= unit_value(h.0, h.1, h.2, h.3) <= 0xdbff
            &&& 0xdc00 <= unit_value(l.0, l.1, l.2, l.3) <= 0xdfff
        },
    }
}

/// The bytes of a piece.
pub open spec fn piece_bytes(p: Piece) -> Seq<u8> {
    match p {
        Piece::Plain(t) => encode_utf8(t),
        Piece::Short(c) => seq![0x5cu8, c],
        Piece::Code(x, y, z, w) => seq![0x5cu8, 0x75, x, y, z, w],
        Piece::Pair(h, l) => seq![
            0x5cu8,
            0x75,
            h.0,
            h.1,
            h.2,
            h.3,
            0x5c,
            0x75,
            l.0,
            l.1,
            l.2,
            l.3,
        ],
    }
}

/// The characters that a piece stands for.
pub open spec fn piece_text(p: Piece) -> Seq<char> {
    match p {
        Piece::Plain(t) => t,
        Piece::Short(c) => seq![short_meaning(c)->0],
        Piece::Code(x, y, z, w) => seq![unit_value(x, y, z, w) as u32 as char],
        Piece::Pair(h, l) => seq![
            (0x10000 + (unit_value(h.0, h.1, h.2, h.3) - 0xd800) * 0x400 + (unit_value(
                l.0,
                l.1,
                l.2,
                l.3,
            ) - 0xdc00)) as u32 as char,
        ],
    }
}

pub open spec fn pieces_bytes(ps: Seq<Piece>) -> Seq<u8>
    decreases ps.len(),
{
    if ps.len() == 0 {
        Seq::empty()
    } else {
        piece_bytes(ps[0]) + pieces_bytes(ps.skip(1))
    }
}

pub open spec fn pieces_text(ps: Seq<Piece>) -> Seq<char>
    decreases ps.len(),
{
    if ps.len() == 0 {
        Seq::empty()
    } else {
        piece_text(ps[0]) + pieces_text(ps.skip(1))
    }
}

pub proof fn lemma_encode_join(s: Seq<char>, t: Seq<char>)
    ensures
        encode_utf8(s + t) == encode_utf8(s) + encode_utf8(t),
    decreases s.len(),
{
    if s.len() == 0 {
        assert(s + t =~= t);
        assert(encode_utf8(s) + encode_utf8(t) =~= encode_utf8(t));
    } else {
        assert((s + t).drop_first() =~= s.drop_first() + t);
        lemma_encode_join(s.drop_first(), t);
        assert(encode_utf8(s + t) =~= encode_utf8(s) + encode_utf8(t));
    }
}

/// What lies before does not matter.
proof fn lemma_unescape_shift(p: Seq<u8>, s: Seq<u8>, i: int)
    requires
        0 <= i,
    ensures
        unescape(p + s, p.len() + i) == unescape(s, i),
    decreases s.len() - i,
{
    let t = p + s;
    if i < s.len() {
        assert(t[p.len() + i] == s[i]);
        if s[i] == BACKSLASH && i + 1 < s.len() {
            assert(t[p.len() + i + 1] == s[i + 1]);
            if i + 6 <= s.len() {
                assert(t.subrange(p.len() + i + 2, p.len() + i + 6) =~= s.subrange(i + 2, i + 6));
            }
            if i + 12 <= s.len() {
                assert(t[p.len() + i + 6] == s[i + 6] && t[p.len() + i + 7] == s[i + 7]);
                assert(t.subrange(p.len() + i + 8, p.len() + i + 12) =~= s.subrange(
                    i + 8,
                    i + 12,
                ));
            }
            assert(escape_at(t, p.len() + i) == escape_at(s, i));
            lemma_unescape_shift(p, s, i + escape_at(s, i).1);
        } else {
            lemma_unescape_shift(p, s, i + 1);
        }
    }
}

proof fn lemma_unescape_plain_run(x: Seq<u8>, s: Seq<u8>, i: int)
    requires
        0 <= i <= x.len(),
        forall|k: int| 0 <= k < x.len() ==> #[trigger] x[k] != 0x5c,
    ensures
        unescape(x + s, i) == x.skip(i) + unescape(s, 0),
    decreases x.len() - i,
{
    let t = x + s;
    if i < x.len() {
        assert(t[i] == x[i]);
        lemma_unescape_plain_run(x, s, i + 1);
        assert(unescape(t, i) =~= x.skip(i) + unescape(s, 0));
    } else {
        lemma_unescape_shift(x, s, 0);
        assert(x.skip(i) + unescape(s, 0) =~= unescape(s, 0));
    }
}

proof fn lemma_unit(x: u8, y: u8, z: u8, w: u8)
    requires
        hex_unit(x, y, z, w),
    ensures
        code_unit(seq![x, y, z, w]) == Some(unit_value(x, y, z, w)),
        0 <= unit_value(x, y, z, w) <= 0xffff,
{
    let s = seq![x, y, z, w];
    assert(s.drop_last() =~= seq![x, y, z]);
    assert(s.drop_last().drop_last() =~= seq![x, y]);
    assert(s.drop_last().drop_last().drop_last() =~= seq![x]);
    assert(seq![x].drop_last() =~= Seq::<u8>::empty());
    reveal_with_fuel(hex_number, 5);
}

/// The first piece decodes to what it stands for, and the others go on as before.
proof fn lemma_piece(p: Piece, s: Seq<u8>)
    requires
        piece_ok(p),
    ensures
        unescape(piece_bytes(p) + s, 0) == encode_utf8(piece_text(p)) + unescape(s, 0),
{
    let x = piece_bytes(p);
    let t = x + s;
    match p {
        Piece::Plain(u) => {
            lemma_unescape_plain_run(x, s, 0);
            assert(x.skip(0) =~= x);
        },
        Piece::Short(c) => {
            assert(t[0] == 0x5c && t[1] == c);
            lemma_unescape_shift(x, s, 0);
            let u = piece_text(p);
            assert(is_ascii_chars(u));
            is_ascii_chars_encode_utf8(u);
            assert(encode_utf8(u) =~= escape_at(t, 0).0);
        },
        Piece::Code(a, b, c, d) => {
            assert(t[0] == 0x5c && t[1] == 0x75);
            assert(t.subrange(2, 6) =~= seq![a, b, c, d]);
            lemma_unit(a, b, c, d);
            lemma_unescape_shift(x, s, 0);
            assert(pair_at(t, 0) is None);
            assert(is_scalar(unit_value(a, b, c, d) as u32));
        },
        Piece::Pair(h, l) => {
            assert(t[0] == 0x5c && t[1] == 0x75 && t[6] == 0x5c && t[7] == 0x75);
            assert(t.subrange(2, 6) =~= seq![h.0, h.1, h.2, h.3]);
            assert(t.subrange(8, 12) =~= seq![l.0, l.1, l.2, l.3]);
            lemma_unit(h.0, h.1, h.2, h.3);
            lemma_unit(l.0, l.1, l.2, l.3);
            lemma_unescape_shift(x, s, 0);
        },
    }
}

proof fn lemma_pieces(ps: Seq<Piece>)
    requires
        forall|i: int| 0 <= i < ps.len() ==> piece_ok(#[trigger] ps[i]),
    ensures
        unescape(pieces_bytes(ps), 0) == encode_utf8(pieces_text(ps)),
    decreases ps.len(),
{
    if ps.len() > 0 {
        let rest = ps.skip(1);
        assert forall|i: int| 0 <= i < rest.len() implies piece_ok(#[trigger] rest[i]) by {
            assert(rest[i] == ps[i + 1]);
        }
        lemma_pieces(rest);
        lemma_piece(ps[0], pieces_bytes(rest));
        lemma_encode_join(piece_text(ps[0]), pieces_text(rest));
    }
}

/// A string decodes to the characters that its pieces stand for: what is written plainly,
/// the eight short escapes, and characters by their number, in one escape or in two.
pub proof fn law_strings_read_back(b: Seq<u8>, start: int, ps: Seq<Piece>)
    requires
        forall|i: int| 0 <= i < ps.len() ==> piece_ok(#[trigger] ps[i]),
        0 <= start,
        start + pieces_bytes(ps).len() + 2 <= b.len(),
        b.subrange(start + 1, start + 1 + pieces_bytes(ps).len()) == pieces_bytes(ps),
    ensures
        decoded(b, start, start + pieces_bytes(ps).len() + 2) == pieces_text(ps),
        text_of(unescape(pieces_bytes(ps), 0)) == pieces_text(ps),
{
    lemma_pieces(ps);
    encode_utf8_valid_utf8(pieces_text(ps));
    encode_utf8_decode_utf8(pieces_text(ps));
}

} // verus!
