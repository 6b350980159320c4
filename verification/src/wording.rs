//! What holds of texts: trimming, cutting, joining, and numbers written out and read back.

use crate::literals::lemma_digits_run;
use crate::text::{
    cut, decimal, digits_value, float_text, is_digit, joined, lemma_decimal, lower_ascii, lower_text,
    trimmed, trimmed_end, trimmed_start, unsigned_value, white_space,
};
use vstd::prelude::*;
use vstd::utf8::*;

verus! {

/// A number written out is digits, without a zero in front unless it is zero, and reads back
/// as that number; different numbers are written differently.
pub proof fn law_numbers_read_back(n: nat)
    ensures
        decimal(n).len() > 0,
        forall|i: int| 0 <= i < decimal(n).len() ==> '0' <= #[trigger] decimal(n)[i] <= '9',
        decimal(n)[0] == '0' <==> n == 0,
        digits_value(decimal(n)) == Some(n),
    decreases n,
{
    lemma_decimal(n);
    if n >= 10 {
        law_numbers_read_back(n / 10);
        assert(decimal(n)[0] == decimal(n / 10)[0]);
    }
}

/// An unsigned number is read where it fits, with a plus sign in front or without; a text with
/// anything but digits behind that is none.
pub proof fn law_unsigned_numbers(n: nat, max: nat, s: Seq<char>)
    ensures
        unsigned_value(decimal(n), max) == (if n <= max {
            Some(n)
        } else {
            None
        }),
        unsigned_value(seq!['+'] + decimal(n), max) == unsigned_value(decimal(n), max),
        unsigned_value(Seq::empty(), max) is None,
        (exists|i: int| 1 <= i < s.len() && !is_digit(#[trigger] s[i])) ==> unsigned_value(s, max)
            is None,
{
    law_numbers_read_back(n);
    assert((seq!['+'] + decimal(n)).skip(1) =~= decimal(n));
    if exists|i: int| 1 <= i < s.len() && !is_digit(#[trigger] s[i]) {
        let i = choose|i: int| 1 <= i < s.len() && !is_digit(#[trigger] s[i]);
        if s[0] == '+' {
            lemma_all_digits(s.skip(1), i - 1);
        } else {
            lemma_all_digits(s, i);
        }
    }
}

proof fn lemma_all_digits(s: Seq<char>, i: int)
    requires
        0 <= i < s.len(),
        !is_digit(s[i]),
    ensures
        digits_value(s) is None,
    decreases s.len(),
{
    if i < s.len() - 1 {
        lemma_all_digits(s.drop_last(), i);
    }
}

/// Trimming takes whitespace away at both ends, all of it and nothing else.
pub proof fn law_trimming(s: Seq<char>)
    ensures
        exists|i: int, j: int| #[trigger] trims(s, i, j),
        trimmed(s).len() > 0 ==> !white_space(trimmed(s)[0]) && !white_space(trimmed(s).last()),
{
    lemma_trims_start(s);
    let m = trimmed_start(s);
    lemma_trims_end(m);
    let i = s.len() - m.len();
    let j = i + trimmed(s).len();
    assert(trimmed(s) =~= s.subrange(i, j));
    assert forall|k: int| j <= k < s.len() implies white_space(#[trigger] s[k]) by {
        assert(m[k - i] == s[k]);
    }
    assert(trims(s, i, j));
    if trimmed(s).len() > 0 {
        assert(trimmed(s)[0] == m[0]);
    }
}

/// Whether the trimmed text is the part from `i` up to `j`, with only whitespace around it.
pub open spec fn trims(s: Seq<char>, i: int, j: int) -> bool {
    &&& 0 <= i <= j <= s.len()
    &&& trimmed(s) == s.subrange(i, j)
    &&& forall|k: int| 0 <= k < i ==> white_space(#[trigger] s[k])
    &&& forall|k: int| j <= k < s.len() ==> white_space(#[trigger] s[k])
}

proof fn lemma_trims_start(s: Seq<char>)
    ensures
        ({
            let m = trimmed_start(s);
            &&& m.len() <= s.len()
            &&& m == s.skip(s.len() - m.len())
            &&& m.len() > 0 ==> !white_space(m[0])
            &&& forall|k: int| 0 <= k < s.len() - m.len() ==> white_space(#[trigger] s[k])
        }),
    decreases s.len(),
{
    let m = trimmed_start(s);
    if s.len() > 0 && white_space(s[0]) {
        lemma_trims_start(s.skip(1));
        assert(m =~= s.skip(s.len() - m.len()));
        assert forall|k: int| 0 <= k < s.len() - m.len() implies white_space(#[trigger] s[k]) by {
            if k > 0 {
                assert(s.skip(1)[k - 1] == s[k]);
            }
        }
    } else {
        assert(s =~= s.skip(0));
    }
}

proof fn lemma_trims_end(s: Seq<char>)
    ensures
        ({
            let m = trimmed_end(s);
            &&& m.len() <= s.len()
            &&& m == s.take(m.len() as int)
            &&& m.len() > 0 ==> !white_space(m.last())
            &&& forall|k: int| m.len() <= k < s.len() ==> white_space(#[trigger] s[k])
        }),
    decreases s.len(),
{
    let m = trimmed_end(s);
    if s.len() > 0 && white_space(s.last()) {
        lemma_trims_end(s.drop_last());
        assert(m =~= s.take(m.len() as int));
        assert forall|k: int| m.len() <= k < s.len() implies white_space(#[trigger] s[k]) by {
            if k < s.len() - 1 {
                assert(s.drop_last()[k] == s[k]);
            }
        }
    } else {
        assert(s =~= s.take(s.len() as int));
    }
}

/// Blanks, tabs and line breaks are whitespace, and no other character of ASCII is, but for
/// the vertical tab and the form feed.
pub proof fn law_whitespace(c: char)
    ensures
        c == ' ' || c == '\t' || c == '\n' || c == '\r' ==> white_space(c),
        c <= '\u{7f}' && white_space(c) ==> c == ' ' || c == '\t' || c == '\n' || c == '\r' || c
            == '\u{b}' || c == '\u{c}',
        white_space('\u{b}') && white_space('\u{c}'),
{
}

/// A text that is cut keeps its beginning, and has an ellipsis behind it where something is
/// missing; one that is short enough stays.
pub proof fn law_cutting(s: Seq<char>, n: int)
    requires
        0 <= n,
    ensures
        s.len() <= n ==> cut(s, n) == s,
        s.len() > n ==> cut(s, n).len() == n + 1 && cut(s, n).last() == '…' && cut(s, n).take(n)
            == s.take(n),
{
    if s.len() > n {
        assert(cut(s, n).take(n) =~= s.take(n));
    }
}

/// Joined texts stand behind each other with one separator between any two: nothing is put
/// around one alone, and two lists joined are those joined on their own with the separator
/// between them.
pub proof fn law_joining(x: Seq<Seq<char>>, y: Seq<Seq<char>>, sep: Seq<char>, s: Seq<char>)
    requires
        x.len() > 0,
        y.len() > 0,
    ensures
        joined(seq![s], sep) == s,
        joined(Seq::empty(), sep).len() == 0,
        joined(x + y, sep) == joined(x, sep) + sep + joined(y, sep),
    decreases y.len(),
{
    let all = x + y;
    assert(all.drop_last() =~= x + y.drop_last());
    assert(all.last() == y.last());
    if y.len() == 1 {
        assert(x + y.drop_last() =~= x);
        assert(joined(y, sep) == y[0]);
    } else {
        law_joining(x, y.drop_last(), sep, s);
        assert(joined(all, sep) =~= joined(x, sep) + sep + (joined(y.drop_last(), sep) + sep
            + y.last()));
    }
}

/// Lower case leaves what is no capital letter of ASCII; a capital becomes the small letter
/// that many places behind it, and nothing changes the second time.
pub proof fn law_lower_case(c: char, s: Seq<char>, i: int)
    ensures
        !('A' <= c <= 'Z') ==> lower_ascii(c) == c,
        'A' <= c <= 'Z' ==> 'a' <= lower_ascii(c) <= 'z' && lower_ascii(c) as int - 'a' as int == c
            as int - 'A' as int,
        lower_ascii(lower_ascii(c)) == lower_ascii(c),
        is_ascii_chars(s) && 0 <= i < s.len() ==> lower_text(s).len() == s.len() && lower_text(s)[i]
            == lower_ascii(s[i]),
{
}

/// A whole number reads as a floating-point number, with a sign or without, and so does one
/// with digits behind a point; a blank in front or an `x` behind it makes it none.
pub proof fn law_numbers_are_numbers(n: nat, m: nat)
    ensures
        float_text(decimal(n)),
        float_text(seq!['-'] + decimal(n)),
        float_text(decimal(n) + seq!['.'] + decimal(m)),
        !float_text(Seq::empty()),
        !float_text(seq![' '] + decimal(n)),
        !float_text(decimal(n) + seq!['x']),
{
    law_numbers_read_back(n);
    let s = decimal(n);
    lemma_digits_run(s, 0, s.len() as int);
    let t = seq!['-'] + s;
    lemma_digits_run(t, 1, t.len() as int);
    law_numbers_read_back(m);
    let w = s + seq!['.'] + decimal(m);
    let k = s.len() as int;
    lemma_digits_run(w, 0, k);
    assert forall|x: int| k + 1 <= x < w.len() implies is_digit(#[trigger] w[x]) by {
        assert(w[x] == decimal(m)[x - k - 1]);
    }
    lemma_digits_run(w, k + 1, w.len() as int);
    let u = s + seq!['x'];
    lemma_digits_run(u, 0, s.len() as int);
    assert(u[s.len() as int] == 'x');
    assert(u[0] == s[0]);
    assert(lower_ascii(u[0]) == u[0]);
}

} // verus!
