//! Texts for the clipboard and the status line: base64, and grouped numbers.

use crate::text::{decimal, decimal_string, digit_char, lemma_decimal};
use vstd::prelude::*;

verus! {

// ---------------------------------------------------------------------------
// Base64
// ---------------------------------------------------------------------------
/// The character of a base64 digit.
pub open spec fn base64_char(d: int) -> char {
    if d < 26 {
        (65 + d) as u8 as char
    } else if d < 52 {
        (97 + d - 26) as u8 as char
    } else if d < 62 {
        (48 + d - 52) as u8 as char
    } else if d == 62 {
        '+'
    } else {
        '/'
    }
}

/// The base64 digit of a character.
pub open spec fn base64_digit(c: char) -> int {
    if 'A' <= c <= 'Z' {
        c as int - 65
    } else if 'a' <= c <= 'z' {
        c as int - 97 + 26
    } else if '0' <= c <= '9' {
        c as int - 48 + 52
    } else if c == '+' {
        62
    } else {
        63
    }
}

/// The byte at `i`, or 0 behind the end.
pub open spec fn byte_at(data: Seq<u8>, i: int) -> int {
    if i < data.len() {
        data[i] as int
    } else {
        0
    }
}

/// The four characters of the up to three bytes from `i` on.
pub open spec fn base64_quad(data: Seq<u8>, i: int) -> Seq<char> {
    let n = byte_at(data, i) * 65536 + byte_at(data, i + 1) * 256 + byte_at(data, i + 2);
    seq![
        base64_char(n / 262144),
        base64_char(n / 4096 % 64),
        if i + 1 < data.len() {
            base64_char(n / 64 % 64)
        } else {
            '='
        },
        if i + 2 < data.len() {
            base64_char(n % 64)
        } else {
            '='
        },
    ]
}

/// The base64 text of the bytes from `i` on, with padding.
pub open spec fn base64_from(data: Seq<u8>, i: int) -> Seq<char>
    decreases data.len() + 2 - i,
{
    if i >= data.len() {
        Seq::empty()
    } else {
        base64_quad(data, i) + base64_from(data, i + 3)
    }
}

fn base64_of(d: u32) -> (r: char)
    requires
        d < 64,
    ensures
        r == base64_char(d as int),
{
    if d < 26 {
        (65u8 + d as u8) as char
    } else if d < 52 {
        (97u8 + (d as u8 - 26)) as char
    } else if d < 62 {
        (48u8 + (d as u8 - 52)) as char
    } else if d == 62 {
        '+'
    } else {
        '/'
    }
}

/// Minimal standard-base64 encoder (with `=` padding), for the clipboard escape.
pub fn base64_encode(data: &[u8]) -> (out: String)
    ensures
        out@ == base64_from(data@, 0),
{
    let mut out = String::new();
    let len: usize = data.len();
    let mut i: usize = 0;
    assert(out@ + base64_from(data@, 0) =~= base64_from(data@, 0));
    while i < len
        invariant
            len == data@.len(),
            i <= len,
            out@ + base64_from(data@, i as int) == base64_from(data@, 0),
        decreases len - i,
    {
        let ghost before = out@;
        let b0: u32 = data[i] as u32;
        let b1: u32 = if len - i > 1 {
            data[i + 1] as u32
        } else {
            0
        };
        let b2: u32 = if len - i > 2 {
            data[i + 2] as u32
        } else {
            0
        };
        let n: u32 = b0 * 65536 + b1 * 256 + b2;
        out.push(base64_of(n / 262144));
        out.push(base64_of(n / 4096 % 64));
        out.push(
            if len - i > 1 {
                base64_of(n / 64 % 64)
            } else {
                '='
            },
        );
        out.push(
            if len - i > 2 {
                base64_of(n % 64)
            } else {
                '='
            },
        );
        proof {
            assert(out@ =~= before + base64_quad(data@, i as int));
            let rest = base64_from(data@, i + 3);
            assert(before + (base64_quad(data@, i as int) + rest) =~= out@ + rest);
        }
        i = if len - i >= 3 {
            i + 3
        } else {
            len
        };
    }
    assert(out@ + base64_from(data@, i as int) =~= out@);
    out
}

// ---------------------------------------------------------------------------
// Grouped numbers
// ---------------------------------------------------------------------------
/// Three digits of a number below a thousand.
pub open spec fn three_digits(n: int) -> Seq<char> {
    seq![digit_char(n / 100), digit_char(n / 10 % 10), digit_char(n % 10)]
}

/// A number in decimal, with a comma in front of every third digit from the right.
pub open spec fn grouped(n: nat) -> Seq<char>
    decreases n,
{
    if n < 1000 {
        decimal(n)
    } else {
        grouped(n / 1000) + seq![','] + three_digits((n % 1000) as int)
    }
}

/// Group an integer with thousands separators: `1234567` becomes `1,234,567`.
pub fn group(n: usize) -> (r: String)
    ensures
        r@ == grouped(n as nat),
    decreases n,
{
    if n < 1000 {
        decimal_string(n as u64)
    } else {
        let mut s = group(n / 1000);
        let ghost head = s@;
        let low: u16 = (n % 1000) as u16;
        s.push(',');
        s.push((48u8 + (low / 100) as u8) as char);
        s.push((48u8 + (low / 10 % 10) as u8) as char);
        s.push((48u8 + (low % 10) as u8) as char);
        assert(s@ =~= head + seq![','] + three_digits(low as int));
        s
    }
}

// ---------------------------------------------------------------------------
// Laws
// ---------------------------------------------------------------------------
/// The bytes that base64 text from `i` on stands for.
pub open spec fn base64_decoded(text: Seq<char>, i: int) -> Seq<u8>
    decreases text.len() - i,
{
    if i + 3 >= text.len() {
        Seq::empty()
    } else {
        let n = base64_digit(text[i]) * 262144 + base64_digit(text[i + 1]) * 4096 + (if text[i + 2]
            == '=' {
            0
        } else {
            base64_digit(text[i + 2])
        }) * 64 + (if text[i + 3] == '=' {
            0
        } else {
            base64_digit(text[i + 3])
        });
        seq![(n / 65536) as u8] + (if text[i + 2] == '=' {
            Seq::empty()
        } else {
            seq![(n / 256 % 256) as u8]
        }) + (if text[i + 3] == '=' {
            Seq::empty()
        } else {
            seq![(n % 256) as u8]
        }) + base64_decoded(text, i + 4)
    }
}

proof fn lemma_base64_char(d: int)
    requires
        0 <= d < 64,
    ensures
        base64_digit(base64_char(d)) == d,
        base64_char(d) != '=',
{
}

/// Base64 text is four characters for every three bytes, or part of three.
pub proof fn law_base64_length(data: Seq<u8>, i: int)
    requires
        0 <= i <= data.len(),
    ensures
        base64_from(data, i).len() == (data.len() - i + 2) / 3 * 4,
    decreases data.len() - i,
{
    reveal_with_fuel(base64_from, 2);
    if i + 3 <= data.len() {
        law_base64_length(data, i + 3);
    }
}

/// Decoding base64 text gives back the bytes that were encoded.
pub proof fn law_base64_round_trip(data: Seq<u8>)
    ensures
        base64_decoded(base64_from(data, 0), 0) == data,
{
    let text = base64_from(data, 0);
    assert(text.skip(0) =~= text);
    lemma_base64_round_trip(data, 0, text, 0);
    assert(data.skip(0) =~= data);
}

/// The four digits of three bytes put together give the bytes.
proof fn lemma_quad_digits(x: int, y: int, z: int)
    requires
        0 <= x < 256,
        0 <= y < 256,
        0 <= z < 256,
    ensures
        ({
            let n = x * 65536 + y * 256 + z;
            &&& 0 <= n / 262144 < 64
            &&& 0 <= n / 4096 % 64 < 64
            &&& 0 <= n / 64 % 64 < 64
            &&& 0 <= n % 64 < 64
            &&& n / 262144 * 262144 + n / 4096 % 64 * 4096 + n / 64 % 64 * 64 + n % 64 == n
            &&& n / 65536 == x
            &&& n / 256 % 256 == y
            &&& n % 256 == z
            &&& y == 0 && z == 0 ==> n / 64 % 64 == 0
            &&& z == 0 ==> n % 64 == 0
        }),
{
    let a = x as u32;
    let c = y as u32;
    let d = z as u32;
    let n = (a * 65536 + c * 256 + d) as u32;
    assert(n / 262144 < 64 && n / 262144 * 262144 + n / 4096 % 64 * 4096 + n / 64 % 64 * 64 + n % 64
        == n && n / 65536 == a && n / 256 % 256 == c && n % 256 == d && (c == 0 && d == 0 ==> n / 64
        % 64 == 0) && (d == 0 ==> n % 64 == 0)) by (bit_vector)
        requires
            a < 256,
            c < 256,
            d < 256,
            n == a * 65536 + c * 256 + d,
    ;
}

/// One quad decodes to its bytes, and the rest follows.
proof fn lemma_decoded_quad(data: Seq<u8>, i: int, text: Seq<char>, at: int)
    requires
        0 <= i < data.len(),
        0 <= at,
        at + 3 < text.len(),
        text[at] == base64_quad(data, i)[0],
        text[at + 1] == base64_quad(data, i)[1],
        text[at + 2] == base64_quad(data, i)[2],
        text[at + 3] == base64_quad(data, i)[3],
    ensures
        base64_decoded(text, at) == data.subrange(
            i,
            if i + 3 <= data.len() {
                i + 3
            } else {
                data.len() as int
            },
        ) + base64_decoded(text, at + 4),
{
    let x = byte_at(data, i);
    let y = byte_at(data, i + 1);
    let z = byte_at(data, i + 2);
    let n = x * 65536 + y * 256 + z;
    lemma_quad_digits(x, y, z);
    lemma_base64_char(n / 262144);
    lemma_base64_char(n / 4096 % 64);
    lemma_base64_char(n / 64 % 64);
    lemma_base64_char(n % 64);
    let end = if i + 3 <= data.len() {
        i + 3
    } else {
        data.len() as int
    };
    let rest = base64_decoded(text, at + 4);
    let m = base64_digit(text[at]) * 262144 + base64_digit(text[at + 1]) * 4096 + (if text[at + 2]
        == '=' {
        0
    } else {
        base64_digit(text[at + 2])
    }) * 64 + (if text[at + 3] == '=' {
        0
    } else {
        base64_digit(text[at + 3])
    });
    assert(m == n);
    assert(base64_decoded(text, at) =~= data.subrange(i, end) + rest);
}

proof fn lemma_base64_round_trip(data: Seq<u8>, i: int, text: Seq<char>, at: int)
    requires
        0 <= i,
        0 <= at <= text.len(),
        text.skip(at) == base64_from(data, i),
    ensures
        i <= data.len() ==> base64_decoded(text, at) == data.skip(i),
        i > data.len() ==> base64_decoded(text, at) == Seq::<u8>::empty(),
    decreases data.len() + 2 - i,
{
    let rest = text.skip(at);
    if i < data.len() {
        let quad = base64_quad(data, i);
        let tail = base64_from(data, i + 3);
        assert(rest == quad + tail);
        assert forall|k: int| 0 <= k < 4 implies text[at + k] == quad[k] by {
            assert(rest[k] == quad[k]);
        }
        assert(text[at] == quad[0] && text[at + 1] == quad[1] && text[at + 2] == quad[2] && text[at
            + 3] == quad[3]) by {
            assert(text[at + 0] == quad[0]);
        }
        assert(text.skip(at + 4) =~= tail) by {
            assert(rest.skip(4) =~= tail);
            assert(rest.skip(4) =~= text.skip(at + 4));
        }
        lemma_base64_round_trip(data, i + 3, text, at + 4);
        lemma_decoded_quad(data, i, text, at);
        assert(base64_decoded(text, at) =~= data.skip(i));
    } else {
        assert(rest.len() == 0);
        assert(data.skip(data.len() as int) =~= Seq::<u8>::empty());
    }
}

/// The characters of base64 text: the capital letters, the small letters, the digits, a plus
/// sign and a slash, for the numbers from zero on.
pub proof fn law_base64_alphabet(d: int)
    requires
        0 <= d < 64,
    ensures
        d < 26 ==> base64_char(d) as int == 'A' as int + d,
        26 <= d < 52 ==> base64_char(d) as int == 'a' as int + d - 26,
        52 <= d < 62 ==> base64_char(d) as int == '0' as int + d - 52,
        d == 62 ==> base64_char(d) == '+',
        d == 63 ==> base64_char(d) == '/',
{
}

/// A text without its commas.
pub open spec fn without_commas(s: Seq<char>) -> Seq<char>
    decreases s.len(),
{
    if s.len() == 0 {
        Seq::empty()
    } else if s.last() == ',' {
        without_commas(s.drop_last())
    } else {
        without_commas(s.drop_last()).push(s.last())
    }
}

proof fn lemma_without_commas(s: Seq<char>, t: Seq<char>)
    requires
        forall|i: int| 0 <= i < t.len() ==> #[trigger] t[i] != ',',
    ensures
        without_commas(s + t) == without_commas(s) + t,
    decreases t.len(),
{
    if t.len() == 0 {
        assert(s + t =~= s);
        assert(without_commas(s) + t =~= without_commas(s));
    } else {
        let u = t.drop_last();
        assert((s + t).drop_last() =~= s + u);
        assert(t[t.len() - 1] != ',');
        assert forall|i: int| 0 <= i < u.len() implies #[trigger] u[i] != ',' by {
            assert(u[i] == t[i]);
        }
        lemma_without_commas(s, u);
        assert(without_commas(s) + t =~= (without_commas(s) + u).push(t.last()));
    }
}

/// A grouped number is the number in decimal, with a comma in front of every three digits
/// that have another before them.
pub proof fn law_grouping_keeps_the_digits(n: nat)
    ensures
        without_commas(grouped(n)) == decimal(n),
        grouped(n).len() > 0 && grouped(n)[0] != ',',
        forall|i: int|
            0 <= i < grouped(n).len() ==> (#[trigger] grouped(n)[i] == ',' <==> (grouped(n).len()
                - i) % 4 == 0),
    decreases n,
{
    lemma_decimal(n);
    if n < 1000 {
        let d = decimal(n);
        assert forall|i: int| 0 <= i < d.len() implies #[trigger] d[i] != ',' by {}
        lemma_without_commas(Seq::empty(), d);
        assert(Seq::<char>::empty() + d =~= d);
        assert(d.len() <= 3) by {
            reveal_with_fuel(decimal, 4);
        }
    } else {
        let q = n / 1000;
        let r = (n % 1000) as int;
        let g = grouped(q);
        let t = three_digits(r);
        let s = grouped(n);
        law_grouping_keeps_the_digits(q);
        assert(s == g + seq![','] + t);
        assert((g + seq![',']).drop_last() =~= g);
        assert forall|i: int| 0 <= i < t.len() implies #[trigger] t[i] != ',' by {}
        lemma_without_commas(g + seq![','], t);
        assert(without_commas(g + seq![',']) == decimal(q));
        assert(decimal(n) =~= decimal(q) + t) by {
            reveal_with_fuel(decimal, 2);
            let a = n / 10;
            let c = a / 10;
            assert(c / 10 == q);
            assert(decimal(n) == decimal(a).push(digit_char((n % 10) as int)));
            assert(decimal(a) == decimal(c).push(digit_char((a % 10) as int)));
            assert(decimal(c) == decimal(q).push(digit_char((c % 10) as int)));
            assert(c % 10 == r / 100 && a % 10 == r / 10 % 10 && n % 10 == r % 10);
        }
        assert forall|i: int| 0 <= i < s.len() implies (#[trigger] s[i] == ',' <==> (s.len() - i)
            % 4 == 0) by {
            if i < g.len() {
                assert(s[i] == g[i]);
            } else if i > g.len() {
                assert(s[i] == t[i - g.len() - 1]);
            }
        }
    }
}

} // verus!
