//! Numbers and words as JSON writes them, and that the library reads them as what they
//! are.

use crate::json::{
    doc_bytes, doc_ok, item_child, item_children, law_array_children, law_object_children,
    law_stream_children, member_child, member_children, stands, stream_bytes, stream_child,
    stream_children, stream_ok, Doc, Item,
};
use crate::numbers::{number_texts, spans, SpanV};
use crate::scanner::{children_from, kind_of, Kind};
use crate::text::{decimal_from, digits_end, float_text, is_digit, trimmed, white_space};
use crate::tree::{fresh_cursor, NodeV};
use vstd::prelude::*;
use vstd::utf8::*;

verus! {

// ---------------------------------------------------------------------------
// The grammar of numbers
// ---------------------------------------------------------------------------
pub open spec fn digit_byte(c: u8) -> bool {
    0x30 <= c <= 0x39
}

/// One digit or more.
pub open spec fn some_digits(s: Seq<u8>) -> bool {
    s.len() > 0 && forall|i: int| 0 <= i < s.len() ==> digit_byte(#[trigger] s[i])
}

/// The whole part of a number: digits, with no zero in front of others, and perhaps a
/// minus sign.
pub open spec fn whole_part(s: Seq<u8>) -> bool {
    let d = if s.len() > 0 && s[0] == 0x2d {
        s.skip(1)
    } else {
        s
    };
    some_digits(d) && (d[0] == 0x30 ==> d.len() == 1)
}

/// The fraction of a number: a point and digits, or nothing.
pub open spec fn fraction_part(s: Seq<u8>) -> bool {
    s.len() == 0 || s[0] == 0x2e && some_digits(s.skip(1))
}

/// The exponent of a number: a letter, perhaps a sign, and digits, or nothing.
pub open spec fn exponent_part(s: Seq<u8>) -> bool {
    s.len() == 0 || (s[0] == 0x65 || s[0] == 0x45) && (some_digits(s.skip(1)) || s.len() > 1 && (
    s[1] == 0x2b || s[1] == 0x2d) && some_digits(s.skip(2)))
}

pub open spec fn number_parts(s: Seq<u8>, whole: Seq<u8>, fraction: Seq<u8>, exponent: Seq<u8>) -> bool {
    &&& s == whole + fraction + exponent
    &&& whole_part(whole)
    &&& fraction_part(fraction)
    &&& exponent_part(exponent)
}

/// A number, by the grammar of JSON.
pub open spec fn json_number(s: Seq<u8>) -> bool {
    exists|whole: Seq<u8>, fraction: Seq<u8>, exponent: Seq<u8>|
        number_parts(s, whole, fraction, exponent)
}

/// The characters that bytes below 128 are.
pub open spec fn plain_text(s: Seq<u8>) -> Seq<char> {
    Seq::new(s.len(), |i: int| s[i] as char)
}

proof fn lemma_plain_text(s: Seq<u8>)
    requires
        forall|i: int| 0 <= i < s.len() ==> #[trigger] s[i] < 128,
    ensures
        valid_utf8(s),
        decode_utf8(s) == plain_text(s),
{
    let t = plain_text(s);
    assert forall|i: int| 0 <= i < t.len() implies (#[trigger] t[i]) as u32 == s[i] as u32 by {
        assert(s[i] < 128);
    }
    assert(is_ascii_chars(t));
    is_ascii_chars_encode_utf8(t);
    assert(encode_utf8(t) =~= s);
    encode_utf8_valid_utf8(t);
    encode_utf8_decode_utf8(t);
}

/// Every byte of a number is a digit, a sign, a point or the letter of an exponent.
pub open spec fn number_byte(c: u8) -> bool {
    digit_byte(c) || c == 0x2d || c == 0x2b || c == 0x2e || c == 0x65 || c == 0x45
}

proof fn lemma_number_bytes(s: Seq<u8>)
    requires
        json_number(s),
    ensures
        s.len() > 0,
        forall|i: int| 0 <= i < s.len() ==> number_byte(#[trigger] s[i]),
        digit_byte(s[0]) || s[0] == 0x2d,
{
    let (w, f, e) = choose|whole: Seq<u8>, fraction: Seq<u8>, exponent: Seq<u8>|
        number_parts(s, whole, fraction, exponent);
    assert forall|i: int| 0 <= i < s.len() implies number_byte(#[trigger] s[i]) by {
        if i < w.len() {
            assert(s[i] == w[i]);
            if w[0] == 0x2d && i > 0 {
                assert(w.skip(1)[i - 1] == w[i]);
            }
        } else if i < w.len() + f.len() {
            let k = i - w.len();
            assert(s[i] == f[k]);
            if k > 0 {
                assert(f.skip(1)[k - 1] == f[k]);
            }
        } else {
            let k = i - w.len() - f.len();
            assert(s[i] == e[k]);
            if some_digits(e.skip(1)) && k > 0 {
                assert(e.skip(1)[k - 1] == e[k]);
            } else if k > 1 {
                assert(e.skip(2)[k - 2] == e[k]);
            }
        }
    }
    assert(s[0] == w[0]);
}

pub proof fn lemma_digits_run(t: Seq<char>, i: int, z: int)
    requires
        0 <= i <= z <= t.len(),
        forall|k: int| i <= k < z ==> is_digit(#[trigger] t[k]),
        z < t.len() ==> !is_digit(t[z]),
    ensures
        digits_end(t, i) == z,
    decreases z - i,
{
    if i < z {
        lemma_digits_run(t, i + 1, z);
    }
}

/// A JSON number is text that reads as a number, with nothing to trim away.
pub proof fn law_json_numbers_read_as_numbers(s: Seq<u8>)
    requires
        json_number(s),
    ensures
        valid_utf8(s),
        decode_utf8(s) == plain_text(s),
        trimmed(plain_text(s)) == plain_text(s),
        float_text(plain_text(s)),
{
    lemma_number_bytes(s);
    assert forall|i: int| 0 <= i < s.len() implies #[trigger] s[i] < 128 by {
        assert(number_byte(s[i]));
    }
    lemma_plain_text(s);
    let t = plain_text(s);
    assert(number_byte(s[0]) && number_byte(s[s.len() - 1]));
    assert(!white_space(t[0]) && !white_space(t.last()));
    assert(trimmed(t) == t);
    let (w, f, e) = choose|whole: Seq<u8>, fraction: Seq<u8>, exponent: Seq<u8>|
        number_parts(s, whole, fraction, exponent);
    let i: int = if w[0] == 0x2d {
        1
    } else {
        0
    };
    let a = w.len() as int;
    let z = a + f.len();
    assert(s[0] == w[0]);
    assert forall|k: int| i <= k < a implies is_digit(#[trigger] t[k]) by {
        assert(s[k] == w[k]);
        if i == 1 {
            assert(w.skip(1)[k - 1] == w[k]);
        }
    }
    if f.len() > 0 {
        assert(s[a] == f[0]);
        assert forall|k: int| a + 1 <= k < z implies is_digit(#[trigger] t[k]) by {
            assert(s[k] == f[k - a]);
            assert(f.skip(1)[k - a - 1] == f[k - a]);
        }
    }
    if e.len() > 0 {
        assert(s[z] == e[0]);
    }
    lemma_digits_run(t, i, a);
    if f.len() > 0 {
        lemma_digits_run(t, a + 1, z);
        assert(f.skip(1).len() > 0);
    }
    if e.len() > 0 {
        let k: int = if some_digits(e.skip(1)) {
            z + 1
        } else {
            z + 2
        };
        assert forall|j: int| k <= j < t.len() implies is_digit(#[trigger] t[j]) by {
            assert(s[j] == e[j - z]);
            assert(e.skip(k - z)[j - k] == e[j - z]);
        }
        assert(s[z + 1] == e[1]);
        if k == z + 1 {
            assert(e.skip(1)[0] == e[1]);
        }
        assert(k < t.len());
        lemma_digits_run(t, k, t.len() as int);
    }
    assert(decimal_from(t, i));
}

// ---------------------------------------------------------------------------
// Kinds
// ---------------------------------------------------------------------------
/// What the first byte of a value tells of its kind: a digit or a minus sign a number, a
/// quote a string, a bracket an array, a brace an object, and the first letters of `true`,
/// `false` and `null` those words.
pub proof fn law_first_byte_tells_the_kind(c: u8)
    ensures
        digit_byte(c) || c == 0x2d ==> kind_of(c) == Kind::Number,
        kind_of(c) == Kind::Str <==> c == 0x22,
        kind_of(c) == Kind::Array <==> c == 0x5b,
        kind_of(c) == Kind::Object <==> c == 0x7b,
        kind_of(c) == Kind::Bool <==> c == 0x74 || c == 0x66,
        kind_of(c) == Kind::Null <==> c == 0x6e,
{
}

// ---------------------------------------------------------------------------
// Walking over numbers
// ---------------------------------------------------------------------------
/// Every JSON number among the values is given, each in the text that is written for it.
pub proof fn law_every_number_is_given(b: Seq<u8>, ss: Seq<SpanV>)
    requires
        forall|i: int|
            0 <= i < ss.len() ==> (#[trigger] ss[i]).kind == Kind::Number && json_number(
                b.subrange(ss[i].start, ss[i].end),
            ),
    ensures
        number_texts(b, ss).len() == ss.len(),
        forall|i: int|
            0 <= i < ss.len() ==> #[trigger] number_texts(b, ss)[i] == plain_text(
                b.subrange(ss[i].start, ss[i].end),
            ),
    decreases ss.len(),
{
    if ss.len() > 0 {
        let rest = ss.skip(1);
        law_json_numbers_read_as_numbers(b.subrange(ss[0].start, ss[0].end));
        assert forall|i: int| 0 <= i < rest.len() implies (#[trigger] rest[i]).kind == Kind::Number
            && json_number(b.subrange(rest[i].start, rest[i].end)) by {
            assert(rest[i] == ss[i + 1]);
        }
        law_every_number_is_given(b, rest);
        assert forall|i: int| 0 <= i < ss.len() implies #[trigger] number_texts(b, ss)[i]
            == plain_text(b.subrange(ss[i].start, ss[i].end)) by {
            if i > 0 {
                assert(number_texts(b, ss)[i] == number_texts(b, rest)[i - 1]);
                assert(rest[i - 1] == ss[i]);
            }
        }
    }
}

/// What is no number is walked over, wherever it stands: the texts that come before it and
/// behind it are those that come without it.
pub proof fn law_what_is_no_number_is_left_out(b: Seq<u8>, before: Seq<SpanV>, s: SpanV, behind: Seq<
    SpanV,
>)
    requires
        s.kind == Kind::Str || s.kind == Kind::Bool || s.kind == Kind::Null || s.kind
            == Kind::Array || s.kind == Kind::Object,
    ensures
        number_texts(b, before + seq![s] + behind) == number_texts(b, before) + number_texts(
            b,
            behind,
        ),
{
    law_walks_add_up(b, before + seq![s], behind);
    law_walks_add_up(b, before, seq![s]);
    reveal_with_fuel(number_texts, 2);
    assert(number_texts(b, seq![s]) =~= Seq::empty());
    assert(number_texts(b, before) + number_texts(b, seq![s]) =~= number_texts(b, before));
}

/// A walk over values and then over more gives the texts of the first and then those of the
/// others.
pub proof fn law_walks_add_up(b: Seq<u8>, xs: Seq<SpanV>, ys: Seq<SpanV>)
    ensures
        number_texts(b, xs + ys) == number_texts(b, xs) + number_texts(b, ys),
    decreases xs.len(),
{
    if xs.len() == 0 {
        assert(xs + ys =~= ys);
        assert(number_texts(b, xs) + number_texts(b, ys) =~= number_texts(b, ys));
    } else {
        assert((xs + ys).skip(1) =~= xs.skip(1) + ys);
        law_walks_add_up(b, xs.skip(1), ys);
        assert(number_texts(b, xs + ys) =~= number_texts(b, xs) + number_texts(b, ys));
    }
}

proof fn lemma_span_is_number(b: Seq<u8>, s: SpanV, w: Seq<u8>)
    requires
        json_number(w),
        stands(b, s.start, w),
        s.end == s.start + w.len(),
    ensures
        b.subrange(s.start, s.end) == w,
        kind_of(w[0]) == Kind::Number,
{
    lemma_number_bytes(w);
    assert(b.subrange(s.start, s.end) =~= w) by {
        assert forall|i: int| 0 <= i < w.len() implies b.subrange(s.start, s.end)[i] == #[trigger] w[i] by {
            assert(b[s.start + i] == w[i]);
        }
    }
}

/// The walk over an array of JSON numbers gives as many texts as there are elements, each
/// what is written for its element.
pub proof fn law_walk_over_an_array_of_numbers(b: Seq<u8>, n: NodeV, d: Doc)
    requires
        doc_ok(d),
        stands(b, n.start, doc_bytes(d)),
        n.start + doc_bytes(d).len() <= n.end <= b.len(),
        b.len() < usize::MAX,
        !n.jsonl,
        n.kind == Kind::Array,
        d is List,
        forall|k: int|
            0 <= k < d->List_0.len() ==> (#[trigger] d->List_0[k]).value is Bare && json_number(
                d->List_0[k].value->Bare_0,
            ),
    ensures
        ({
            let texts = number_texts(b, spans(children_from(b, fresh_cursor(n).level)));
            &&& texts.len() == d->List_0.len()
            &&& forall|k: int|
                0 <= k < d->List_0.len() ==> #[trigger] texts[k] == plain_text(
                    d->List_0[k].value->Bare_0,
                )
        }),
{
    law_array_children(b, n.start, d, n.end);
    let ss = spans(item_children(d, n.start, 0));
    assert forall|i: int| 0 <= i < ss.len() implies (#[trigger] ss[i]).kind == Kind::Number
        && b.subrange(ss[i].start, ss[i].end) == d->List_0[i].value->Bare_0 by {
        assert(item_children(d, n.start, 0)[i] == item_child(d, n.start, i));
        lemma_span_is_number(b, ss[i], d->List_0[i].value->Bare_0);
    }
    law_every_number_is_given(b, ss);
}

/// The walk over an object whose values are JSON numbers gives as many texts as there are
/// members, each what is written for its member.
pub proof fn law_walk_over_an_object_of_numbers(b: Seq<u8>, n: NodeV, d: Doc)
    requires
        doc_ok(d),
        stands(b, n.start, doc_bytes(d)),
        n.start + doc_bytes(d).len() <= n.end <= b.len(),
        b.len() < usize::MAX,
        !n.jsonl,
        n.kind == Kind::Object,
        d is Record,
        forall|k: int|
            0 <= k < d->Record_0.len() ==> (#[trigger] d->Record_0[k]).value is Bare && json_number(
                d->Record_0[k].value->Bare_0,
            ),
    ensures
        ({
            let texts = number_texts(b, spans(children_from(b, fresh_cursor(n).level)));
            &&& texts.len() == d->Record_0.len()
            &&& forall|k: int|
                0 <= k < d->Record_0.len() ==> #[trigger] texts[k] == plain_text(
                    d->Record_0[k].value->Bare_0,
                )
        }),
{
    law_object_children(b, n.start, d, n.end);
    let ss = spans(member_children(d, n.start, 0));
    assert forall|i: int| 0 <= i < ss.len() implies (#[trigger] ss[i]).kind == Kind::Number
        && b.subrange(ss[i].start, ss[i].end) == d->Record_0[i].value->Bare_0 by {
        assert(member_children(d, n.start, 0)[i] == member_child(d, n.start, i));
        lemma_span_is_number(b, ss[i], d->Record_0[i].value->Bare_0);
    }
    law_every_number_is_given(b, ss);
}

/// The walk over documents that follow one another, where each is a JSON number, gives as
/// many texts as there are documents, each what is written for its document.
pub proof fn law_walk_over_a_stream_of_numbers(b: Seq<u8>, n: NodeV, docs: Seq<Item>)
    requires
        stream_ok(docs),
        stands(b, n.start, stream_bytes(docs, 0)),
        n.start + stream_bytes(docs, 0).len() == b.len(),
        n.end == b.len(),
        b.len() < usize::MAX,
        n.jsonl,
        forall|k: int|
            0 <= k < docs.len() ==> (#[trigger] docs[k]).value is Bare && json_number(
                docs[k].value->Bare_0,
            ),
    ensures
        ({
            let texts = number_texts(b, spans(children_from(b, fresh_cursor(n).level)));
            &&& texts.len() == docs.len()
            &&& forall|k: int|
                0 <= k < docs.len() ==> #[trigger] texts[k] == plain_text(docs[k].value->Bare_0)
        }),
{
    law_stream_children(b, n.start, docs);
    let ss = spans(stream_children(docs, n.start, 0));
    assert forall|i: int| 0 <= i < ss.len() implies (#[trigger] ss[i]).kind == Kind::Number
        && b.subrange(ss[i].start, ss[i].end) == docs[i].value->Bare_0 by {
        assert(stream_children(docs, n.start, 0)[i] == stream_child(docs, n.start, i));
        lemma_span_is_number(b, ss[i], docs[i].value->Bare_0);
    }
    law_every_number_is_given(b, ss);
}

} // verus!
