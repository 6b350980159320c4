//! Values as they are handed on: the bytes of a value and nothing else.

use crate::json::{doc_bytes, doc_ok, law_value_end, stands, Doc};
use crate::overlay::lower;
use crate::scanner::{addressable, delimiter_byte, skip_value, token_end, ws_end};
use vstd::prelude::*;

verus! {

/// ASCII whitespace.
pub open spec fn ascii_space(c: u8) -> bool {
    c == 0x20 || c == 0x09 || c == 0x0a || c == 0x0c || c == 0x0d
}

/// The bytes without the whitespace at their end.
pub open spec fn end_trimmed(s: Seq<u8>) -> Seq<u8>
    decreases s.len(),
{
    if s.len() > 0 && ascii_space(s.last()) {
        end_trimmed(s.drop_last())
    } else {
        s
    }
}

pub proof fn lemma_end_trimmed(s: Seq<u8>)
    ensures
        end_trimmed(s).len() <= s.len(),
    decreases s.len(),
{
    if s.len() > 0 && ascii_space(s.last()) {
        lemma_end_trimmed(s.drop_last());
    }
}

/// Where `b[s..z]` ends without the whitespace at its end.
pub fn trim_end(b: &[u8], s: usize, z: usize) -> (r: usize)
    requires
        s <= z <= b@.len(),
    ensures
        s <= r <= z,
        b@.subrange(s as int, r as int) == end_trimmed(b@.subrange(s as int, z as int)),
{
    let ghost all = b@.subrange(s as int, z as int);
    let mut k: usize = z;
    while k > s && matches!(b[k - 1], 0x20 | 0x09 | 0x0a | 0x0c | 0x0d)
        invariant
            s <= k <= z <= b@.len(),
            end_trimmed(b@.subrange(s as int, k as int)) == end_trimmed(all),
        decreases k - s,
    {
        assert(b@.subrange(s as int, k as int).drop_last() =~= b@.subrange(s as int, k - 1));
        k -= 1;
    }
    k
}

/// The bytes of the value at `start`, where `end` is its end or that of the level it
/// is in.
pub open spec fn value_bytes(b: Seq<u8>, start: int, end: int) -> Seq<u8> {
    let to = lower(end, b.len() as int);
    let stop = token_end(b, ws_end(b, start, to), to);
    end_trimmed(b.subrange(start, lower(stop, b.len() as int)))
}

/// The whitespace-trimmed JSON at `start`. A collapsed container's end is
/// provisional, so its real one is found first. Uncapped, unlike the clipboard copy:
/// the slice is a view into the buffer.
pub fn value_slice<'a>(b: &'a [u8], start: usize, end: usize) -> (r: &'a [u8])
    requires
        addressable(b@),
        start <= b@.len(),
        start <= end,
    ensures
        r@ == value_bytes(b@, start as int, end as int),
{
    let to: usize = if end <= b.len() {
        end
    } else {
        b.len()
    };
    let e: usize = skip_value(b, start, to);
    let z: usize = if e <= b.len() {
        e
    } else {
        b.len()
    };
    vstd::slice::slice_subrange(b, start, trim_end(b, start, z))
}

/// The whitespace-trimmed JSON at each of the ranges, to be written one per line.
pub fn value_slices<'a>(b: &'a [u8], ranges: &[(usize, usize)]) -> (r: Vec<&'a [u8]>)
    requires
        addressable(b@),
        forall|i: int|
            0 <= i < ranges@.len() ==> (#[trigger] ranges@[i]).0 <= b@.len() && ranges@[i].0
                <= ranges@[i].1,
    ensures
        r@.len() == ranges@.len(),
        forall|i: int|
            0 <= i < r@.len() ==> (#[trigger] r@[i])@ == value_bytes(
                b@,
                ranges@[i].0 as int,
                ranges@[i].1 as int,
            ),
{
    let mut out: Vec<&'a [u8]> = Vec::new();
    let mut i: usize = 0;
    while i < ranges.len()
        invariant
            i <= ranges@.len(),
            out@.len() == i,
            addressable(b@),
            forall|k: int|
                0 <= k < ranges@.len() ==> (#[trigger] ranges@[k]).0 <= b@.len() && ranges@[k].0
                    <= ranges@[k].1,
            forall|k: int|
                0 <= k < i ==> (#[trigger] out@[k])@ == value_bytes(
                    b@,
                    ranges@[k].0 as int,
                    ranges@[k].1 as int,
                ),
        decreases ranges@.len() - i,
    {
        let (start, end) = ranges[i];
        assert(ranges@[i as int].0 <= b@.len());
        out.push(value_slice(b, start, end));
        i += 1;
    }
    out
}

/// Nothing but whitespace is left out at the end of a value, and no whitespace is
/// left there.
pub proof fn law_value_is_trimmed(s: Seq<u8>)
    ensures
        end_trimmed(s).len() <= s.len(),
        end_trimmed(s) == s.take(end_trimmed(s).len() as int),
        end_trimmed(s).len() > 0 ==> !ascii_space(end_trimmed(s).last()),
        forall|i: int| end_trimmed(s).len() <= i < s.len() ==> ascii_space(#[trigger] s[i]),
    decreases s.len(),
{
    if s.len() > 0 && ascii_space(s.last()) {
        law_value_is_trimmed(s.drop_last());
        assert forall|i: int| end_trimmed(s).len() <= i < s.len() implies ascii_space(
            #[trigger] s[i],
        ) by {
            if i < s.len() - 1 {
                assert(s.drop_last()[i] == s[i]);
            }
        }
        assert(s.take(end_trimmed(s).len() as int) =~= s.drop_last().take(
            end_trimmed(s).len() as int,
        ));
    } else {
        assert(s.take(s.len() as int) =~= s);
    }
}

/// What is handed on of a JSON value is the value, whole and with nothing around it, whether
/// its own end is known or only that of the level it is in.
pub proof fn law_a_value_is_handed_on_whole(b: Seq<u8>, p: int, d: Doc, end: int)
    requires
        doc_ok(d),
        stands(b, p, doc_bytes(d)),
        p + doc_bytes(d).len() <= end <= b.len(),
        d is Bare && p + doc_bytes(d).len() < end ==> delimiter_byte(b[p + doc_bytes(d).len()]),
        d is Bare ==> !ascii_space(doc_bytes(d).last()),
    ensures
        value_bytes(b, p, end) == doc_bytes(d),
{
    let s = doc_bytes(d);
    law_value_end(b, p, d, end);
    assert(ws_end(b, p, end) == p);
    assert(b.subrange(p, p + s.len()) =~= s) by {
        assert forall|i: int| 0 <= i < s.len() implies b.subrange(p, p + s.len())[i]
            == #[trigger] s[i] by {
            assert(b[p + i] == s[i]);
        }
    }
    assert(!ascii_space(s.last()));
}

} // verus!
