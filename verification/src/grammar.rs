//! How a filter is written, and that what is written is what is read: every path, every
//! condition and every program comes back from its text.

use crate::literals::lemma_digits_run;
use crate::program::{
    and_at, and_tail, bareword_end, blank_end, bracket_at, comparison_at, cond_path_from,
    condition, integer_at, keyword_end, name_end, operand_at, ops_after, ops_from, or_at, or_tail,
    parts, parts_from, pipeline, primary_at, question_end, quoted_from, select_inner, stages_from,
    term, terms_from, test_at, tilde_at, CmpOp, CondV, LiteralV, OperandV, PathOpV, PathSegV,
    TermV,
};
use crate::search::query_pattern;
use crate::text::{
    decimal, float_text, has_prefix, is_digit, lemma_decimal, occurs_at, trimmed, trimmed_start,
    white_space, word_char,
};
use vstd::prelude::*;

verus! {

/// Whether `t` stands in `cs` at `i`.
pub open spec fn holds_at(cs: Seq<char>, i: int, t: Seq<char>) -> bool {
    &&& 0 <= i
    &&& i + t.len() <= cs.len()
    &&& forall|k: int| 0 <= k < t.len() ==> cs[i + k] == #[trigger] t[k]
}

proof fn lemma_holds_split(cs: Seq<char>, i: int, s: Seq<char>, t: Seq<char>)
    requires
        holds_at(cs, i, s + t),
    ensures
        holds_at(cs, i, s),
        holds_at(cs, i + s.len(), t),
{
    assert forall|k: int| 0 <= k < s.len() implies cs[i + k] == #[trigger] s[k] by {
        assert((s + t)[k] == s[k]);
    }
    assert forall|k: int| 0 <= k < t.len() implies cs[i + s.len() + k] == #[trigger] t[k] by {
        assert((s + t)[s.len() + k] == t[k]);
    }
}

// ---------------------------------------------------------------------------
// Texts and numbers
// ---------------------------------------------------------------------------
/// The inside of a string in quotes, and the closing quote: a backslash stands before a
/// quote and before a backslash.
pub open spec fn quoted_inside(s: Seq<char>) -> Seq<char>
    decreases s.len(),
{
    if s.len() == 0 {
        seq!['"']
    } else {
        (if s[0] == '"' || s[0] == '\\' {
            seq!['\\', s[0]]
        } else {
            seq![s[0]]
        }) + quoted_inside(s.skip(1))
    }
}

/// A string in quotes.
pub open spec fn in_quotes(s: Seq<char>) -> Seq<char> {
    seq!['"'] + quoted_inside(s)
}

proof fn lemma_quoted(cs: Seq<char>, i: int, s: Seq<char>, acc: Seq<char>)
    requires
        holds_at(cs, i, quoted_inside(s)),
    ensures
        quoted_from(cs, i, acc) == Ok::<(Seq<char>, int), Seq<char>>(
            (acc + s, i + quoted_inside(s).len()),
        ),
    decreases s.len(),
{
    let t = quoted_inside(s);
    if s.len() == 0 {
        assert(cs[i + 0] == t[0]);
        assert(acc + s =~= acc);
    } else {
        let rest = quoted_inside(s.skip(1));
        let first = if s[0] == '"' || s[0] == '\\' {
            seq!['\\', s[0]]
        } else {
            seq![s[0]]
        };
        lemma_holds_split(cs, i, first, rest);
        assert(cs[i + 0] == first[0]);
        assert(first.len() > 1 ==> cs[i + 1] == first[1]);
        lemma_quoted(cs, i + first.len(), s.skip(1), acc.push(s[0]));
        assert(acc.push(s[0]) + s.skip(1) =~= acc + s);
    }
}

/// A number in decimal, behind a minus sign where it is negative.
pub open spec fn signed(n: int) -> Seq<char> {
    if n < 0 {
        seq!['-'] + decimal((-n) as nat)
    } else {
        decimal(n as nat)
    }
}

proof fn lemma_integer(cs: Seq<char>, i: int, n: int)
    requires
        holds_at(cs, i, signed(n)),
        i + signed(n).len() < cs.len() ==> !is_digit(cs[i + signed(n).len()]),
        i64::MIN <= n <= i64::MAX,
    ensures
        integer_at(cs, i) == Ok::<(Option<int>, int), Seq<char>>((Some(n), i + signed(n).len())),
        signed(n).len() > 0,
        signed(n)[0] == '-' || is_digit(signed(n)[0]),
{
    let m = if n < 0 {
        -n
    } else {
        n
    };
    let d = decimal(m as nat);
    lemma_decimal(m as nat);
    let j = if n < 0 {
        i + 1
    } else {
        i
    };
    if n < 0 {
        lemma_holds_split(cs, i, seq!['-'], d);
        assert(cs[i + 0] == seq!['-'][0]);
    } else {
        assert(cs[i + 0] == d[0]);
    }
    let z = j + d.len();
    assert forall|k: int| j <= k < z implies is_digit(#[trigger] cs[k]) by {
        assert(cs[j + (k - j)] == d[k - j]);
    }
    lemma_digits_run(cs, j, z);
    assert(cs.subrange(j, z) =~= d) by {
        assert forall|k: int| 0 <= k < d.len() implies cs.subrange(j, z)[k] == #[trigger] d[k] by {
            assert(cs[j + k] == d[k]);
        }
    }
}

// ---------------------------------------------------------------------------
// Paths
// ---------------------------------------------------------------------------
/// A name that can stand behind a dot.
pub open spec fn is_name(s: Seq<char>) -> bool {
    s.len() > 0 && forall|i: int|
        0 <= i < s.len() ==> word_char(#[trigger] s[i]) && !white_space(s[i])
}

proof fn lemma_name(cs: Seq<char>, i: int, s: Seq<char>)
    requires
        holds_at(cs, i, s),
        forall|k: int| 0 <= k < s.len() ==> word_char(#[trigger] s[k]),
        i + s.len() < cs.len() ==> !word_char(cs[i + s.len()]),
    ensures
        name_end(cs, i) == i + s.len(),
        cs.subrange(i, i + s.len()) == s,
    decreases s.len(),
{
    assert(cs.subrange(i, i + s.len()) =~= s) by {
        assert forall|k: int| 0 <= k < s.len() implies cs.subrange(i, i + s.len())[k]
            == #[trigger] s[k] by {
            assert(cs[i + k] == s[k]);
        }
    }
    if s.len() > 0 {
        assert(cs[i + 0] == s[0]);
        let t = s.skip(1);
        assert(s =~= seq![s[0]] + t);
        lemma_holds_split(cs, i, seq![s[0]], t);
        lemma_name(cs, i + 1, t);
    }
}

/// What stands in brackets for a step: nothing, a key in quotes, a number, or two numbers
/// with a colon between them, each of which can be missing.
pub open spec fn in_brackets(op: PathOpV) -> Seq<char> {
    match op {
        PathOpV::Iterate => Seq::empty(),
        PathOpV::Field(key) => in_quotes(key),
        PathOpV::Index(n) => signed(n),
        PathOpV::Slice(lo, hi) => bound_text(lo) + seq![':'] + bound_text(hi),
        PathOpV::Recurse => Seq::empty(),
    }
}

pub open spec fn bound_text(x: Option<int>) -> Seq<char> {
    match x {
        Some(n) => signed(n),
        None => Seq::empty(),
    }
}

pub open spec fn bound_ok(x: Option<int>) -> bool {
    x matches Some(n) ==> i64::MIN <= n <= i64::MAX
}

/// Whether the numbers of a step can be written.
pub open spec fn op_ok(op: PathOpV) -> bool {
    match op {
        PathOpV::Index(n) => i64::MIN <= n <= i64::MAX,
        PathOpV::Slice(lo, hi) => bound_ok(lo) && bound_ok(hi),
        _ => true,
    }
}

proof fn lemma_no_blank(cs: Seq<char>, i: int)
    requires
        i < cs.len() ==> !white_space(cs[i]),
    ensures
        blank_end(cs, i) == i,
{
}

proof fn lemma_bound(cs: Seq<char>, i: int, x: Option<int>)
    requires
        holds_at(cs, i, bound_text(x)),
        bound_ok(x),
        i + bound_text(x).len() < cs.len(),
        cs[i + bound_text(x).len()] == ':' || cs[i + bound_text(x).len()] == ']',
    ensures
        integer_at(cs, i) == Ok::<(Option<int>, int), Seq<char>>((x, i + bound_text(x).len())),
        blank_end(cs, i) == i,
        cs[i] != '"',
        x is Some ==> cs[i] != ']' && cs[i] != ':',
{
    if let Some(n) = x {
        lemma_integer(cs, i, n);
        assert(cs[i + 0] == signed(n)[0]);
    }
}

/// A step in brackets reads back.
proof fn lemma_bracket(cs: Seq<char>, i: int, op: PathOpV)
    requires
        !(op is Recurse),
        op_ok(op),
        holds_at(cs, i, seq!['['] + in_brackets(op) + seq![']']),
    ensures
        bracket_at(cs, i) == Ok::<(PathOpV, int), Seq<char>>(
            (op, i + 2 + in_brackets(op).len()),
        ),
{
    let t = in_brackets(op);
    let a = i + 1;
    let z = a + t.len();
    lemma_holds_split(cs, i, seq!['['] + t, seq![']']);
    lemma_holds_split(cs, i, seq!['['], t);
    assert(cs[z + 0] == seq![']'][0]);
    lemma_no_blank(cs, z);
    match op {
        PathOpV::Iterate => {},
        PathOpV::Field(key) => {
            lemma_holds_split(cs, a, seq!['"'], quoted_inside(key));
            assert(cs[a + 0] == seq!['"'][0]);
            lemma_no_blank(cs, a);
            lemma_quoted(cs, a + 1, key, Seq::empty());
            assert(Seq::<char>::empty() + key =~= key);
        },
        PathOpV::Index(n) => {
            lemma_bound(cs, a, Some(n));
        },
        PathOpV::Slice(lo, hi) => {
            let x = bound_text(lo);
            lemma_holds_split(cs, a, x + seq![':'], bound_text(hi));
            lemma_holds_split(cs, a, x, seq![':']);
            assert(cs[a + x.len() + 0] == seq![':'][0]);
            lemma_bound(cs, a, lo);
            lemma_no_blank(cs, a + x.len());
            lemma_bound(cs, a + x.len() + 1, hi);
        },
        _ => {},
    }
}

/// A step as it is written: with a dot before it or without, and with a question mark
/// behind it or without, which changes nothing.
pub struct Written {
    pub op: PathOpV,
    pub dot: bool,
    pub lenient: bool,
}

pub open spec fn written_text(w: Written) -> Seq<char> {
    let step = match w.op {
        PathOpV::Recurse => seq!['.', '.'],
        PathOpV::Field(key) if w.dot && is_name(key) => seq!['.'] + key,
        _ => (if w.dot {
            seq!['.']
        } else {
            Seq::empty()
        }) + (seq!['['] + in_brackets(w.op) + seq![']']),
    };
    if w.lenient && !(w.op is Recurse) {
        step + seq!['?']
    } else {
        step
    }
}

pub open spec fn path_text(ws: Seq<Written>) -> Seq<char>
    decreases ws.len(),
{
    if ws.len() == 0 {
        Seq::empty()
    } else {
        written_text(ws[0]) + path_text(ws.skip(1))
    }
}

pub open spec fn written_ops(ws: Seq<Written>) -> Seq<PathOpV> {
    Seq::new(ws.len(), |i: int| ws[i].op)
}

/// The text of a path begins with a dot or a bracket.
proof fn lemma_path_begins(ws: Seq<Written>)
    requires
        ws.len() > 0,
    ensures
        path_text(ws).len() > 0,
        path_text(ws)[0] == '.' || path_text(ws)[0] == '[',
        written_text(ws[0]).len() > 0,
{
    let t = written_text(ws[0]);
    assert(t.len() > 0 && (t[0] == '.' || t[0] == '['));
}

/// A step reads back wherever it stands, where what follows it is no name and no question
/// mark.
proof fn lemma_step(cs: Seq<char>, i: int, w: Written)
    requires
        op_ok(w.op),
        holds_at(cs, i, written_text(w)),
        ({
            let z = i + written_text(w).len();
            z < cs.len() ==> cs[z] == '.' || cs[z] == '['
        }),
    ensures
        ops_from(cs, i) == ops_after(seq![w.op], ops_from(cs, i + written_text(w).len())),
{
    let n = cs.len();
    let t = written_text(w);
    let z = i + t.len();
    assert(t.len() > 0);
    assert(cs[i + 0] == t[0]);
    if w.op is Recurse {
        assert(cs[i + 1] == t[1]);
    } else {
        let step = if w.lenient {
            t.drop_last()
        } else {
            t
        };
        assert(t =~= step + (if w.lenient {
            seq!['?']
        } else {
            Seq::empty()
        }));
        lemma_holds_split(
            cs,
            i,
            step,
            if w.lenient {
                seq!['?']
            } else {
                Seq::empty()
            },
        );
        let y = i + step.len();
        if w.lenient {
            assert(cs[y + 0] == seq!['?'][0]);
        }
        assert(question_end(cs, y) == z);
        if w.op is Field && w.dot && is_name(w.op->Field_0) {
            let key = w.op->Field_0;
            assert(step =~= seq!['.'] + key);
            lemma_holds_split(cs, i, seq!['.'], key);
            assert(cs[i + 1 + 0] == key[0]);
            assert(word_char(key[0]));
            lemma_name(cs, i + 1, key);
        } else {
            let br = seq!['['] + in_brackets(w.op) + seq![']'];
            let a = if w.dot {
                i + 1
            } else {
                i
            };
            if w.dot {
                assert(step =~= seq!['.'] + br);
                lemma_holds_split(cs, i, seq!['.'], br);
            } else {
                assert(step =~= br);
            }
            assert(cs[a + 0] == br[0]);
            lemma_bracket(cs, a, w.op);
            assert(ops_from(cs, a) == ops_after(seq![w.op], ops_from(cs, z)));
        }
    }
}

proof fn lemma_path(cs: Seq<char>, i: int, ws: Seq<Written>)
    requires
        holds_at(cs, i, path_text(ws)),
        i + path_text(ws).len() == cs.len(),
        forall|k: int| 0 <= k < ws.len() ==> op_ok((#[trigger] ws[k]).op),
    ensures
        ops_from(cs, i) == Ok::<Seq<PathOpV>, Seq<char>>(written_ops(ws)),
    decreases ws.len(),
{
    if ws.len() == 0 {
        assert(written_ops(ws) =~= Seq::empty());
    } else {
        let rest = ws.skip(1);
        let t = written_text(ws[0]);
        lemma_holds_split(cs, i, t, path_text(rest));
        if rest.len() > 0 {
            lemma_path_begins(rest);
            assert(cs[i + t.len() + 0] == path_text(rest)[0]);
        }
        lemma_path_begins(ws);
        assert(op_ok(ws[0].op));
        lemma_step(cs, i, ws[0]);
        assert forall|k: int| 0 <= k < rest.len() implies op_ok((#[trigger] rest[k]).op) by {
            assert(rest[k] == ws[k + 1]);
        }
        lemma_path(cs, i + t.len(), rest);
        assert(written_ops(ws) =~= seq![ws[0].op] + written_ops(rest));
    }
}

// ---------------------------------------------------------------------------
// Operands
// ---------------------------------------------------------------------------
/// An operand as it is written.
pub enum Spelt {
    /// A path of keys and indices; the value itself where it has no steps.
    Path(Seq<Written>),
    /// A number, by its text.
    Number(Seq<char>),
    /// A string, in quotes.
    Text(Seq<char>),
    Truth(bool),
    Null,
}

pub open spec fn word_text(x: bool) -> Seq<char> {
    if x {
        seq!['t', 'r', 'u', 'e']
    } else {
        seq!['f', 'a', 'l', 's', 'e']
    }
}

pub open spec fn spelt_text(o: Spelt) -> Seq<char> {
    match o {
        Spelt::Path(ws) => if ws.len() == 0 {
            seq!['.']
        } else {
            path_text(ws)
        },
        Spelt::Number(t) => t,
        Spelt::Text(s) => in_quotes(s),
        Spelt::Truth(x) => word_text(x),
        Spelt::Null => seq!['n', 'u', 'l', 'l'],
    }
}

pub open spec fn step_of(op: PathOpV) -> PathSegV {
    match op {
        PathOpV::Field(key) => PathSegV::Field(key),
        PathOpV::Index(n) => PathSegV::Index(n),
        _ => arbitrary(),
    }
}

pub open spec fn steps_of(ws: Seq<Written>) -> Seq<PathSegV> {
    Seq::new(ws.len(), |i: int| step_of(ws[i].op))
}

/// What an operand stands for.
pub open spec fn spelt_meaning(o: Spelt) -> OperandV {
    match o {
        Spelt::Path(ws) => OperandV::Path(steps_of(ws)),
        Spelt::Number(t) => OperandV::Lit(LiteralV::Num(t)),
        Spelt::Text(s) => OperandV::Lit(LiteralV::Str(s)),
        Spelt::Truth(x) => OperandV::Lit(LiteralV::Bool(x)),
        Spelt::Null => OperandV::Lit(LiteralV::Null),
    }
}

/// A character that can stand in a number.
pub open spec fn number_char(c: char) -> bool {
    is_digit(c) || c == '+' || c == '-' || c == '.' || 'a' <= c <= 'z' || 'A' <= c <= 'Z'
}

pub open spec fn spelt_ok(o: Spelt) -> bool {
    match o {
        Spelt::Path(ws) => forall|k: int|
            0 <= k < ws.len() ==> ((#[trigger] ws[k]).op is Field || ws[k].op is Index) && op_ok(
                ws[k].op,
            ) && !ws[k].lenient,
        Spelt::Number(t) => {
            &&& t.len() > 0
            &&& t[0] != '.'
            &&& float_text(t)
            &&& t != word_text(true) && t != word_text(false) && t != seq!['n', 'u', 'l', 'l']
            &&& forall|k: int| 0 <= k < t.len() ==> number_char(#[trigger] t[k])
        },
        _ => true,
    }
}

/// Whether something ends at `z`: nothing follows, a blank, or a closing bracket.
pub open spec fn closes(cs: Seq<char>, z: int) -> bool {
    z >= cs.len() || cs[z] == ' ' || cs[z] == ')'
}

proof fn lemma_cond_path(cs: Seq<char>, i: int, ws: Seq<Written>, acc: Seq<PathSegV>)
    requires
        spelt_ok(Spelt::Path(ws)),
        holds_at(cs, i, path_text(ws)),
        closes(cs, i + path_text(ws).len()),
    ensures
        cond_path_from(cs, i, acc) == Ok::<(Seq<PathSegV>, int), Seq<char>>(
            (acc + steps_of(ws), i + path_text(ws).len()),
        ),
    decreases ws.len(),
{
    if ws.len() == 0 {
        assert(acc + steps_of(ws) =~= acc);
    } else {
        let w = ws[0];
        let rest = ws.skip(1);
        let t = written_text(w);
        let z = i + t.len();
        lemma_holds_split(cs, i, t, path_text(rest));
        lemma_path_begins(ws);
        if rest.len() > 0 {
            lemma_path_begins(rest);
            assert(cs[z + 0] == path_text(rest)[0]);
        } else {
            assert(path_text(rest).len() == 0);
        }
        assert(w.op is Field || w.op is Index);
        assert(op_ok(w.op) && !w.lenient);
        assert(cs[i + 0] == t[0]);
        let more = acc.push(step_of(w.op));
        if w.op is Field && w.dot && is_name(w.op->Field_0) {
            let key = w.op->Field_0;
            lemma_holds_split(cs, i, seq!['.'], key);
            assert(cs[i + 1 + 0] == key[0]);
            assert(word_char(key[0]));
            lemma_name(cs, i + 1, key);
        } else {
            let br = seq!['['] + in_brackets(w.op) + seq![']'];
            let a = if w.dot {
                i + 1
            } else {
                i
            };
            if w.dot {
                lemma_holds_split(cs, i, seq!['.'], br);
            } else {
                assert(t =~= br);
            }
            assert(cs[a + 0] == br[0]);
            lemma_bracket(cs, a, w.op);
            assert(cond_path_from(cs, a, acc) == cond_path_from(cs, z, more));
        }
        assert(cond_path_from(cs, i, acc) == cond_path_from(cs, z, more));
        assert forall|k: int| 0 <= k < rest.len() implies ((#[trigger] rest[k]).op is Field
            || rest[k].op is Index) && op_ok(rest[k].op) && !rest[k].lenient by {
            assert(rest[k] == ws[k + 1]);
        }
        lemma_cond_path(cs, z, rest, more);
        assert(more + steps_of(rest) =~= acc + steps_of(ws));
    }
}

proof fn lemma_bareword(cs: Seq<char>, i: int, t: Seq<char>)
    requires
        holds_at(cs, i, t),
        closes(cs, i + t.len()),
        forall|k: int| 0 <= k < t.len() ==> number_char(#[trigger] t[k]),
    ensures
        bareword_end(cs, i) == i + t.len(),
        cs.subrange(i, i + t.len()) == t,
    decreases t.len(),
{
    assert(cs.subrange(i, i + t.len()) =~= t) by {
        assert forall|k: int| 0 <= k < t.len() implies cs.subrange(i, i + t.len())[k]
            == #[trigger] t[k] by {
            assert(cs[i + k] == t[k]);
        }
    }
    if t.len() > 0 {
        assert(cs[i + 0] == t[0]);
        assert(number_char(t[0]));
        assert(t =~= seq![t[0]] + t.skip(1));
        lemma_holds_split(cs, i, seq![t[0]], t.skip(1));
        lemma_bareword(cs, i + 1, t.skip(1));
    }
}

/// The text of an operand begins with no blank and no round bracket.
proof fn lemma_spelt_begins(o: Spelt)
    requires
        spelt_ok(o),
    ensures
        spelt_text(o).len() > 0,
        !white_space(spelt_text(o)[0]),
        spelt_text(o)[0] != '(',
{
    match o {
        Spelt::Path(ws) => {
            if ws.len() > 0 {
                lemma_path_begins(ws);
            }
        },
        Spelt::Number(t) => {
            assert(number_char(t[0]));
        },
        _ => {},
    }
}

/// An operand reads back wherever it stands, behind blanks or not.
proof fn lemma_operand(cs: Seq<char>, i: int, a: int, o: Spelt)
    requires
        spelt_ok(o),
        blank_end(cs, i) == a,
        holds_at(cs, a, spelt_text(o)),
        closes(cs, a + spelt_text(o).len()),
    ensures
        operand_at(cs, i) == Ok::<(OperandV, int), Seq<char>>(
            (spelt_meaning(o), a + spelt_text(o).len()),
        ),
{
    let t = spelt_text(o);
    lemma_spelt_begins(o);
    assert(cs[a + 0] == t[0]);
    reveal_strlit("true");
    reveal_strlit("false");
    reveal_strlit("null");
    assert("true"@ =~= word_text(true));
    assert("false"@ =~= word_text(false));
    assert("null"@ =~= seq!['n', 'u', 'l', 'l']);
    match o {
        Spelt::Path(ws) => {
            if ws.len() == 0 {
                assert(steps_of(ws) =~= Seq::empty());
                assert(name_end(cs, a + 1) == a + 1);
                assert(cond_path_from(cs, a, Seq::empty()) == Ok::<
                    (Seq<PathSegV>, int),
                    Seq<char>,
                >((Seq::empty(), a + 1)));
            } else {
                lemma_path_begins(ws);
                lemma_cond_path(cs, a, ws, Seq::empty());
                assert(Seq::<PathSegV>::empty() + steps_of(ws) =~= steps_of(ws));
            }
        },
        Spelt::Text(s) => {
            lemma_holds_split(cs, a, seq!['"'], quoted_inside(s));
            lemma_quoted(cs, a + 1, s, Seq::empty());
            assert(Seq::<char>::empty() + s =~= s);
        },
        Spelt::Number(u) => {
            assert(number_char(u[0]));
            lemma_bareword(cs, a, t);
        },
        Spelt::Truth(x) => {
            lemma_bareword(cs, a, t);
            if !x {
                assert(word_text(false)[0] != word_text(true)[0]);
            }
        },
        Spelt::Null => {
            lemma_bareword(cs, a, t);
            assert(t[0] != word_text(true)[0] && t[0] != word_text(false)[0]);
        },
    }
}

// ---------------------------------------------------------------------------
// Conditions
// ---------------------------------------------------------------------------
/// A condition as it is written.
pub enum Clause {
    /// An operand alone.
    Lone(Spelt),
    Compare(Spelt, CmpOp, Spelt),
    /// A match, negated or not, with the text of its pattern.
    Matches(Spelt, bool, Seq<char>),
    Both(Box<Clause>, Box<Clause>),
    Either(Box<Clause>, Box<Clause>),
}

pub open spec fn operator_text(op: CmpOp) -> Seq<char> {
    match op {
        CmpOp::Eq => seq!['=', '='],
        CmpOp::Ne => seq!['!', '='],
        CmpOp::Lt => seq!['<'],
        CmpOp::Le => seq!['<', '='],
        CmpOp::Gt => seq!['>'],
        CmpOp::Ge => seq!['>', '='],
    }
}

pub open spec fn tilde_text(negated: bool) -> Seq<char> {
    if negated {
        seq!['!', '~']
    } else {
        seq!['~']
    }
}

/// The text of a condition where only what binds as strongly as `level` says may stand
/// without brackets: anything at 0, no `or` at 1, no `and` either at 2. `and` binds
/// stronger than `or`, and both bind to the left.
pub open spec fn clause_text(c: Clause, level: int) -> Seq<char>
    decreases c,
{
    match c {
        Clause::Lone(o) => spelt_text(o),
        Clause::Compare(x, op, y) => spelt_text(x) + (seq![' '] + operator_text(op) + seq![' '])
            + spelt_text(y),
        Clause::Matches(x, negated, s) => spelt_text(x) + (seq![' '] + tilde_text(negated) + seq![
            ' ',
        ]) + in_quotes(s),
        Clause::Both(x, y) => {
            let t = clause_text(*x, 1) + seq![' ', 'a', 'n', 'd', ' '] + clause_text(*y, 2);
            if level > 1 {
                seq!['('] + t + seq![')']
            } else {
                t
            }
        },
        Clause::Either(x, y) => {
            let t = clause_text(*x, 0) + seq![' ', 'o', 'r', ' '] + clause_text(*y, 1);
            if level > 0 {
                seq!['('] + t + seq![')']
            } else {
                t
            }
        },
    }
}

pub open spec fn clause_ok(c: Clause) -> bool
    decreases c,
{
    match c {
        Clause::Lone(o) => spelt_ok(o),
        Clause::Compare(x, _, y) => spelt_ok(x) && spelt_ok(y),
        Clause::Matches(x, _, s) => spelt_ok(x) && query_pattern(s) is Ok,
        Clause::Both(x, y) => clause_ok(*x) && clause_ok(*y),
        Clause::Either(x, y) => clause_ok(*x) && clause_ok(*y),
    }
}

/// What a condition stands for.
pub open spec fn clause_meaning(c: Clause) -> CondV
    decreases c,
{
    match c {
        Clause::Lone(o) => CondV::Truthy(spelt_meaning(o)),
        Clause::Compare(x, op, y) => CondV::Cmp(spelt_meaning(x), op, spelt_meaning(y)),
        Clause::Matches(x, negated, s) => CondV::Match {
            lhs: spelt_meaning(x),
            pattern: query_pattern(s)->Ok_0,
            negated,
        },
        Clause::Both(x, y) => CondV::And(Box::new(clause_meaning(*x)), Box::new(clause_meaning(*y))),
        Clause::Either(x, y) => CondV::Or(
            Box::new(clause_meaning(*x)),
            Box::new(clause_meaning(*y)),
        ),
    }
}

proof fn lemma_blank_once(cs: Seq<char>, i: int)
    requires
        0 <= i < cs.len(),
        cs[i] == ' ',
        i + 1 < cs.len() ==> !white_space(cs[i + 1]),
    ensures
        blank_end(cs, i) == i + 1,
{
    reveal_with_fuel(blank_end, 2);
}

/// Whether a condition that ends at `e` is followed by nothing that belongs to it: by the
/// end, a closing bracket, or a word.
spec fn followed(cs: Seq<char>, e: int) -> bool {
    let f = blank_end(cs, e);
    &&& closes(cs, e)
    &&& 0 <= e <= f <= cs.len()
    &&& f < cs.len() ==> cs[f] == ')' || cs[f] == 'a' || cs[f] == 'o'
}

/// Whether reading has come to `j` where the text ends at `e`: no more than blanks further.
spec fn comes_to(cs: Seq<char>, e: int, j: int) -> bool {
    e <= j <= cs.len() && blank_end(cs, j) == blank_end(cs, e)
}

proof fn lemma_blanks(cs: Seq<char>, i: int)
    requires
        0 <= i <= cs.len(),
    ensures
        i <= blank_end(cs, i) <= cs.len(),
        blank_end(cs, blank_end(cs, i)) == blank_end(cs, i),
    decreases cs.len() - i,
{
    if i < cs.len() && white_space(cs[i]) {
        lemma_blanks(cs, i + 1);
    }
}

/// The operator between two operands, with a blank on each side of it.
proof fn lemma_between(cs: Seq<char>, z: int, t: Seq<char>)
    requires
        holds_at(cs, z, seq![' '] + t + seq![' ']),
        t.len() > 0,
        !white_space(t[0]),
        z + t.len() + 2 < cs.len(),
        !white_space(cs[z + t.len() + 2]),
    ensures
        cs[z] == ' ',
        blank_end(cs, z) == z + 1,
        holds_at(cs, z + 1, t),
        cs[z + 1 + t.len()] == ' ',
        blank_end(cs, z + 1 + t.len()) == z + t.len() + 2,
{
    lemma_holds_split(cs, z, seq![' '] + t, seq![' ']);
    lemma_holds_split(cs, z, seq![' '], t);
    assert(cs[z + 0] == seq![' '][0]);
    assert(cs[z + 1 + 0] == t[0]);
    assert(cs[z + 1 + t.len() + 0] == seq![' '][0]);
    lemma_blank_once(cs, z);
    lemma_blank_once(cs, z + 1 + t.len());
}

/// A comparison reads back.
#[verifier::spinoff_prover]
proof fn lemma_compare(cs: Seq<char>, i: int, x: Spelt, op: CmpOp, y: Spelt)
    requires
        spelt_ok(x),
        spelt_ok(y),
        holds_at(
            cs,
            i,
            spelt_text(x) + (seq![' '] + operator_text(op) + seq![' ']) + spelt_text(y),
        ),
        ({
            let e = i + spelt_text(x).len() + operator_text(op).len() + 2 + spelt_text(y).len();
            closes(cs, e)
        }),
    ensures
        test_at(cs, i) == Ok::<(CondV, int), Seq<char>>(
            (
                CondV::Cmp(spelt_meaning(x), op, spelt_meaning(y)),
                i + spelt_text(x).len() + operator_text(op).len() + 2 + spelt_text(y).len(),
            ),
        ),
{
    let t = operator_text(op);
    let mid = seq![' '] + t + seq![' '];
    lemma_spelt_begins(x);
    lemma_spelt_begins(y);
    lemma_holds_split(cs, i, spelt_text(x) + mid, spelt_text(y));
    lemma_holds_split(cs, i, spelt_text(x), mid);
    let z = i + spelt_text(x).len();
    let y0 = z + 1 + t.len();
    assert(cs[i + 0] == spelt_text(x)[0]);
    assert(cs[z + mid.len() + 0] == spelt_text(y)[0]);
    lemma_no_blank(cs, i);
    lemma_between(cs, z, t);
    lemma_operand(cs, i, i, x);
    lemma_operand(cs, y0, y0 + 1, y);
    assert(cs[z + 1 + 0] == t[0]);
    if t.len() == 2 {
        assert(cs[z + 1 + 1] == t[1]);
    }
    assert(tilde_at(cs, z + 1) is None);
    assert(comparison_at(cs, z + 1) == Some((op, y0)));
}

/// A match reads back.
#[verifier::spinoff_prover]
proof fn lemma_matches(cs: Seq<char>, i: int, x: Spelt, negated: bool, s: Seq<char>)
    requires
        spelt_ok(x),
        query_pattern(s) is Ok,
        holds_at(
            cs,
            i,
            spelt_text(x) + (seq![' '] + tilde_text(negated) + seq![' ']) + in_quotes(s),
        ),
        ({
            let e = i + spelt_text(x).len() + tilde_text(negated).len() + 2 + in_quotes(s).len();
            closes(cs, e)
        }),
    ensures
        test_at(cs, i) == Ok::<(CondV, int), Seq<char>>(
            (
                CondV::Match { lhs: spelt_meaning(x), pattern: query_pattern(s)->Ok_0, negated },
                i + spelt_text(x).len() + tilde_text(negated).len() + 2 + in_quotes(s).len(),
            ),
        ),
{
    let t = tilde_text(negated);
    let mid = seq![' '] + t + seq![' '];
    let y = Spelt::Text(s);
    lemma_spelt_begins(x);
    lemma_spelt_begins(y);
    lemma_holds_split(cs, i, spelt_text(x) + mid, spelt_text(y));
    lemma_holds_split(cs, i, spelt_text(x), mid);
    let z = i + spelt_text(x).len();
    let y0 = z + 1 + t.len();
    assert(cs[i + 0] == spelt_text(x)[0]);
    assert(cs[z + mid.len() + 0] == spelt_text(y)[0]);
    lemma_no_blank(cs, i);
    lemma_between(cs, z, t);
    lemma_operand(cs, i, i, x);
    lemma_no_blank(cs, y0 + 1);
    lemma_operand(cs, y0 + 1, y0 + 1, y);
    assert(cs[z + 1 + 0] == t[0]);
    if negated {
        assert(cs[z + 1 + 1] == t[1]);
    }
    assert(tilde_at(cs, z + 1) == Some((negated, y0)));
}

/// A single test reads back.
proof fn lemma_test(cs: Seq<char>, i: int, c: Clause)
    requires
        c is Lone || c is Compare || c is Matches,
        clause_ok(c),
        holds_at(cs, i, clause_text(c, 2)),
        followed(cs, i + clause_text(c, 2).len()),
    ensures
        test_at(cs, i) matches Ok(r) && r.0 == clause_meaning(c) && comes_to(
            cs,
            i + clause_text(c, 2).len(),
            r.1,
        ),
        blank_end(cs, i) == i,
        i < cs.len(),
        cs[i] != '(',
{
    let t = clause_text(c, 2);
    let e = i + t.len();
    lemma_blanks(cs, e);
    let x = match c {
        Clause::Lone(o) => o,
        Clause::Compare(x, _, _) => x,
        Clause::Matches(x, _, _) => x,
        _ => arbitrary(),
    };
    lemma_spelt_begins(x);
    assert(t[0] == spelt_text(x)[0]);
    assert(cs[i + 0] == t[0]);
    lemma_no_blank(cs, i);
    match c {
        Clause::Lone(o) => {
            lemma_operand(cs, i, i, o);
            assert(tilde_at(cs, blank_end(cs, e)) is None);
            assert(comparison_at(cs, blank_end(cs, e)) is None);
        },
        Clause::Compare(x, op, y) => {
            lemma_compare(cs, i, x, op, y);
        },
        Clause::Matches(x, negated, s) => {
            lemma_matches(cs, i, x, negated, s);
        },
        _ => {},
    }
}

/// A keyword between two conditions, with a blank on each side of it.
proof fn lemma_keyword(cs: Seq<char>, e: int, j: int, kw: Seq<char>)
    requires
        kw == seq!['a', 'n', 'd'] || kw == seq!['o', 'r'],
        holds_at(cs, e, seq![' '] + kw + seq![' ']),
        comes_to(cs, e, j),
    ensures
        keyword_end(cs, j, kw) == Some(e + 1 + kw.len()),
        kw == seq!['o', 'r'] ==> keyword_end(cs, j, seq!['a', 'n', 'd']) is None,
        followed(cs, e),
{
    lemma_holds_split(cs, e, seq![' '] + kw, seq![' ']);
    lemma_holds_split(cs, e, seq![' '], kw);
    assert(cs[e + 0] == seq![' '][0]);
    assert(cs[e + 1 + 0] == kw[0]);
    assert(cs[e + 1 + kw.len() + 0] == seq![' '][0]);
    lemma_blank_once(cs, e);
    assert(cs.subrange(e + 1, e + 1 + kw.len()) =~= kw) by {
        assert forall|k: int| 0 <= k < kw.len() implies cs.subrange(e + 1, e + 1 + kw.len())[k]
            == #[trigger] kw[k] by {
            assert(cs[e + 1 + k] == kw[k]);
        }
    }
    if kw == seq!['o', 'r'] {
        let and = seq!['a', 'n', 'd'];
        if occurs_at(cs, and, e + 1) {
            assert(cs.subrange(e + 1, e + 1 + and.len())[0] == and[0]);
        }
    }
}

proof fn lemma_no_keyword(cs: Seq<char>, e: int, j: int, kw: Seq<char>)
    requires
        kw == seq!['a', 'n', 'd'] || kw == seq!['o', 'r'],
        comes_to(cs, e, j),
        blank_end(cs, e) >= cs.len() || cs[blank_end(cs, e)] == ')',
    ensures
        keyword_end(cs, j, kw) is None,
{
    let f = blank_end(cs, e);
    if occurs_at(cs, kw, f) {
        assert(cs.subrange(f, f + kw.len())[0] == kw[0]);
    }
}

spec fn turn(c: Clause, which: int) -> int {
    match c {
        Clause::Either(_, _) => if which == 1 {
            2
        } else if which == 2 {
            1
        } else {
            0
        },
        Clause::Both(_, _) => if which == 2 {
            2
        } else if which == 0 {
            1
        } else {
            0
        },
        _ => 2 - which,
    }
}

/// A condition that stands by itself, in brackets where it needs them, reads back.
proof fn lemma_primary(cs: Seq<char>, i: int, a: int, c: Clause)
    requires
        clause_ok(c),
        0 <= i <= a,
        i <= cs.len(),
        blank_end(cs, i) == a,
        holds_at(cs, a, clause_text(c, 2)),
        followed(cs, a + clause_text(c, 2).len()),
    ensures
        primary_at(cs, i) matches Ok(r) && r.0 == clause_meaning(c) && comes_to(
            cs,
            a + clause_text(c, 2).len(),
            r.1,
        ),
    decreases c, turn(c, 2),
{
    let t = clause_text(c, 2);
    if c is Both || c is Either {
        let body = clause_text(c, 0);
        assert(t =~= seq!['('] + body + seq![')']);
        lemma_holds_split(cs, a, seq!['('] + body, seq![')']);
        lemma_holds_split(cs, a, seq!['('], body);
        let e = a + 1 + body.len();
        assert(cs[a + 0] == seq!['('][0]);
        assert(cs[e + 0] == seq![')'][0]);
        lemma_no_blank(cs, e);
        lemma_clause_begins(c, 0);
        assert(cs[a + 1 + 0] == body[0]);
        lemma_no_blank(cs, a + 1);
        let j = lemma_alternatives(cs, a + 1, a + 1, c);
        lemma_no_keyword(cs, e, j, seq!['o', 'r']);
        assert(or_at(cs, a + 1) == Ok::<(CondV, int), Seq<char>>((clause_meaning(c), j)));
        lemma_blanks(cs, e + 1);
    } else {
        lemma_test(cs, a, c);
        assert(cs[a + 0] == t[0]) by {
            lemma_clause_begins(c, 2);
        }
    }
}

/// A condition begins with no blank.
proof fn lemma_clause_begins(c: Clause, level: int)
    requires
        clause_ok(c),
    ensures
        clause_text(c, level).len() > 0,
        !white_space(clause_text(c, level)[0]),
    decreases c,
{
    match c {
        Clause::Lone(o) => {
            lemma_spelt_begins(o);
        },
        Clause::Compare(x, _, _) => {
            lemma_spelt_begins(x);
        },
        Clause::Matches(x, _, _) => {
            lemma_spelt_begins(x);
        },
        Clause::Both(x, y) => {
            lemma_clause_begins(*x, 1);
        },
        Clause::Either(x, y) => {
            lemma_clause_begins(*x, 0);
        },
    }
}

/// A conjunction is read as far as it is written, and what follows it comes behind.
proof fn lemma_conjunction(cs: Seq<char>, i: int, a: int, c: Clause) -> (j: int)
    requires
        clause_ok(c),
        0 <= i <= a,
        i <= cs.len(),
        blank_end(cs, i) == a,
        holds_at(cs, a, clause_text(c, 1)),
        followed(cs, a + clause_text(c, 1).len()),
    ensures
        comes_to(cs, a + clause_text(c, 1).len(), j),
        and_at(cs, i) == and_tail(cs, j, clause_meaning(c)),
    decreases c, turn(c, 1),
{
    if let Clause::Both(x, y) = c {
        let tx = clause_text(*x, 1);
        let ty = clause_text(*y, 2);
        let kw = seq!['a', 'n', 'd'];
        let mid = seq![' ', 'a', 'n', 'd', ' '];
        assert(mid =~= seq![' '] + kw + seq![' ']);
        let e = a + tx.len();
        lemma_holds_split(cs, a, tx + mid, ty);
        lemma_holds_split(cs, a, tx, mid);
        lemma_blanks(cs, e);
        lemma_keyword(cs, e, e, kw);
        let jx = lemma_conjunction(cs, i, a, *x);
        lemma_keyword(cs, e, jx, kw);
        let k = e + 4;
        lemma_clause_begins(*y, 2);
        assert(cs[k] == mid[4]) by {
            assert(cs[e + 4] == mid[4]);
        }
        assert(cs[k + 1 + 0] == ty[0]);
        lemma_blank_once(cs, k);
        lemma_primary(cs, k, k + 1, *y);
        primary_at(cs, k)->Ok_0.1
    } else {
        assert(clause_text(c, 1) == clause_text(c, 2));
        lemma_primary(cs, i, a, c);
        primary_at(cs, i)->Ok_0.1
    }
}

/// Alternatives are read as far as they are written, and what follows them comes behind.
proof fn lemma_alternatives(cs: Seq<char>, i: int, a: int, c: Clause) -> (j: int)
    requires
        clause_ok(c),
        0 <= i <= a,
        i <= cs.len(),
        blank_end(cs, i) == a,
        holds_at(cs, a, clause_text(c, 0)),
        followed(cs, a + clause_text(c, 0).len()),
        ({
            let e = a + clause_text(c, 0).len();
            keyword_end(cs, e, seq!['a', 'n', 'd']) is None
        }),
    ensures
        comes_to(cs, a + clause_text(c, 0).len(), j),
        or_at(cs, i) == or_tail(cs, j, clause_meaning(c)),
    decreases c, turn(c, 0),
{
    if let Clause::Either(x, y) = c {
        let tx = clause_text(*x, 0);
        let ty = clause_text(*y, 1);
        let kw = seq!['o', 'r'];
        let mid = seq![' ', 'o', 'r', ' '];
        assert(mid =~= seq![' '] + kw + seq![' ']);
        let e = a + tx.len();
        lemma_holds_split(cs, a, tx + mid, ty);
        lemma_holds_split(cs, a, tx, mid);
        lemma_blanks(cs, e);
        lemma_keyword(cs, e, e, kw);
        let jx = lemma_alternatives(cs, i, a, *x);
        lemma_keyword(cs, e, jx, kw);
        let k = e + 3;
        lemma_clause_begins(*y, 1);
        assert(cs[k] == mid[3]) by {
            assert(cs[e + 3] == mid[3]);
        }
        assert(cs[k + 1 + 0] == ty[0]);
        lemma_blank_once(cs, k);
        let jy = lemma_conjunction(cs, k, k + 1, *y);
        assert(and_at(cs, k) == Ok::<(CondV, int), Seq<char>>((clause_meaning(*y), jy)));
        jy
    } else {
        assert(clause_text(c, 0) == clause_text(c, 1));
        let j = lemma_conjunction(cs, i, a, c);
        assert(and_at(cs, i) == Ok::<(CondV, int), Seq<char>>((clause_meaning(c), j)));
        j
    }
}

/// A condition reads back from its text: its operands, its six comparisons, its matches,
/// `and` and `or`, of which `and` binds stronger and both bind to the left, and brackets.
pub proof fn law_conditions_read_back(c: Clause)
    requires
        clause_ok(c),
    ensures
        condition(clause_text(c, 0)) == Ok::<CondV, Seq<char>>(clause_meaning(c)),
{
    let cs = clause_text(c, 0);
    let e = cs.len() as int;
    lemma_clause_begins(c, 0);
    lemma_no_blank(cs, 0);
    lemma_no_blank(cs, e);
    lemma_no_keyword(cs, e, e, seq!['a', 'n', 'd']);
    let j = lemma_alternatives(cs, 0, 0, c);
    lemma_no_keyword(cs, e, j, seq!['o', 'r']);
}

// ---------------------------------------------------------------------------
// Terms
// ---------------------------------------------------------------------------
/// A term as it is written.
pub enum Phrase {
    Path(Seq<Written>),
    Select(Clause),
}

pub open spec fn select_word() -> Seq<char> {
    seq!['s', 'e', 'l', 'e', 'c', 't', '(']
}

pub open spec fn phrase_text(p: Phrase) -> Seq<char> {
    match p {
        Phrase::Path(ws) => if ws.len() == 0 {
            seq!['.']
        } else {
            path_text(ws)
        },
        Phrase::Select(c) => select_word() + clause_text(c, 0) + seq![')'],
    }
}

pub open spec fn phrase_ok(p: Phrase) -> bool {
    match p {
        Phrase::Path(ws) => forall|k: int| 0 <= k < ws.len() ==> op_ok((#[trigger] ws[k]).op),
        Phrase::Select(c) => clause_ok(c),
    }
}

pub open spec fn phrase_meaning(p: Phrase) -> TermV {
    match p {
        Phrase::Path(ws) => TermV::Path(written_ops(ws)),
        Phrase::Select(c) => TermV::Select(clause_meaning(c)),
    }
}

proof fn lemma_path_ends(ws: Seq<Written>)
    requires
        ws.len() > 0,
    ensures
        path_text(ws).len() > 1,
        !white_space(path_text(ws).last()),
    decreases ws.len(),
{
    let w = ws[0];
    let t = written_text(w);
    let rest = ws.skip(1);
    assert(t.len() > 1 && !white_space(t.last())) by {
        if w.op is Field && w.dot && is_name(w.op->Field_0) {
            let key = w.op->Field_0;
            assert(!white_space(key[key.len() - 1]));
        }
    }
    if rest.len() > 0 {
        lemma_path_ends(rest);
        assert(path_text(ws).last() == path_text(rest).last());
    } else {
        assert(path_text(rest).len() == 0);
        assert(path_text(ws) =~= t);
    }
}

proof fn lemma_nothing_to_trim(s: Seq<char>)
    requires
        s.len() > 0,
        !white_space(s[0]),
        !white_space(s.last()),
    ensures
        trimmed_start(s) == s,
        trimmed(s) == s,
{
}

/// A term reads back from its text.
pub proof fn law_terms_read_back(p: Phrase)
    requires
        phrase_ok(p),
    ensures
        term(phrase_text(p)) == Ok::<TermV, Seq<char>>(phrase_meaning(p)),
{
    let s = phrase_text(p);
    reveal_strlit("select");
    match p {
        Phrase::Path(ws) => {
            if ws.len() == 0 {
                lemma_nothing_to_trim(s);
                assert(written_ops(ws) =~= Seq::empty());
            } else {
                lemma_path_begins(ws);
                lemma_path_ends(ws);
                lemma_nothing_to_trim(s);
                if has_prefix(s, "select"@) {
                    assert(s.take(6)[0] == "select"@[0]);
                }
                assert(select_inner(s) is None);
                lemma_path(s, 0, ws);
            }
        },
        Phrase::Select(c) => {
            let body = clause_text(c, 0);
            assert(s[0] == 's' && s.last() == ')');
            lemma_nothing_to_trim(s);
            let t = s.skip(6);
            assert(s.take(6) =~= "select"@);
            assert(t[0] == '(' && t.last() == ')');
            lemma_nothing_to_trim(t);
            assert(t.subrange(1, t.len() - 1) =~= body);
            assert(select_inner(s) == Some(body));
            law_conditions_read_back(c);
        },
    }
}

// ---------------------------------------------------------------------------
// Programs
// ---------------------------------------------------------------------------
/// How a splitter stands: whether inside a string, whether a backslash came last, and how
/// deep inside brackets.
pub struct Standing {
    pub in_str: bool,
    pub esc: bool,
    pub depth: int,
}

/// How a splitter stands behind `t`, where no separator splits it.
spec fn passes(t: Seq<char>, sep: char, at: Standing) -> Option<Standing>
    decreases t.len(),
{
    if t.len() == 0 {
        Some(at)
    } else {
        let c = t[0];
        let rest = t.skip(1);
        if at.in_str {
            passes(
                rest,
                sep,
                Standing {
                    in_str: at.esc || c != '"',
                    esc: !at.esc && c == '\\',
                    depth: at.depth,
                },
            )
        } else if c == '"' {
            passes(rest, sep, Standing { in_str: true, ..at })
        } else if c == '(' || c == '[' {
            passes(rest, sep, Standing { depth: at.depth + 1, ..at })
        } else if c == ')' || c == ']' {
            passes(rest, sep, Standing { depth: at.depth - 1, ..at })
        } else if c == sep && at.depth == 0 {
            None
        } else {
            passes(rest, sep, at)
        }
    }
}

/// Whether a text leaves a splitter as it stood, `depth` brackets deep.
spec fn whole(t: Seq<char>, sep: char, depth: int) -> bool {
    let at = Standing { in_str: false, esc: false, depth };
    passes(t, sep, at) == Some(at)
}

proof fn lemma_passes_join(s: Seq<char>, t: Seq<char>, sep: char, at: Standing)
    ensures
        passes(s + t, sep, at) == match passes(s, sep, at) {
            Some(x) => passes(t, sep, x),
            None => None,
        },
    decreases s.len(),
{
    if s.len() == 0 {
        assert(s + t =~= t);
    } else {
        assert((s + t).skip(1) =~= s.skip(1) + t);
        assert((s + t)[0] == s[0]);
        let c = s[0];
        if at.in_str {
            lemma_passes_join(
                s.skip(1),
                t,
                sep,
                Standing {
                    in_str: at.esc || c != '"',
                    esc: !at.esc && c == '\\',
                    depth: at.depth,
                },
            );
        } else if c == '"' {
            lemma_passes_join(s.skip(1), t, sep, Standing { in_str: true, ..at });
        } else if c == '(' || c == '[' {
            lemma_passes_join(s.skip(1), t, sep, Standing { depth: at.depth + 1, ..at });
        } else if c == ')' || c == ']' {
            lemma_passes_join(s.skip(1), t, sep, Standing { depth: at.depth - 1, ..at });
        } else {
            lemma_passes_join(s.skip(1), t, sep, at);
        }
    }
}

proof fn lemma_whole_join(s: Seq<char>, t: Seq<char>, sep: char, depth: int)
    requires
        whole(s, sep, depth),
        whole(t, sep, depth),
    ensures
        whole(s + t, sep, depth),
{
    lemma_passes_join(s, t, sep, Standing { in_str: false, esc: false, depth });
}

/// A character that a splitter passes over.
spec fn calm(c: char, sep: char) -> bool {
    c != '"' && c != '(' && c != '[' && c != ')' && c != ']' && c != sep
}

proof fn lemma_calm(t: Seq<char>, sep: char, depth: int)
    requires
        forall|k: int| 0 <= k < t.len() ==> calm(#[trigger] t[k], sep),
    ensures
        whole(t, sep, depth),
    decreases t.len(),
{
    if t.len() > 0 {
        assert(calm(t[0], sep));
        let rest = t.skip(1);
        assert forall|k: int| 0 <= k < rest.len() implies calm(#[trigger] rest[k], sep) by {
            assert(rest[k] == t[k + 1]);
        }
        lemma_calm(rest, sep, depth);
    }
}

proof fn lemma_quotes_whole(s: Seq<char>, sep: char, depth: int)
    requires
        sep == ',' || sep == '|',
    ensures
        whole(in_quotes(s), sep, depth),
{
    let at = Standing { in_str: true, esc: false, depth };
    lemma_inside_passes(s, sep, depth);
    assert(in_quotes(s).skip(1) =~= quoted_inside(s));
}

proof fn lemma_inside_passes(s: Seq<char>, sep: char, depth: int)
    ensures
        passes(quoted_inside(s), sep, Standing { in_str: true, esc: false, depth }) == Some(
            Standing { in_str: false, esc: false, depth },
        ),
    decreases s.len(),
{
    let t = quoted_inside(s);
    let at = Standing { in_str: true, esc: false, depth };
    if s.len() == 0 {
        assert(t.skip(1) =~= Seq::<char>::empty());
        reveal_with_fuel(passes, 2);
    } else {
        let first = if s[0] == '"' || s[0] == '\\' {
            seq!['\\', s[0]]
        } else {
            seq![s[0]]
        };
        lemma_passes_join(first, quoted_inside(s.skip(1)), sep, at);
        lemma_inside_passes(s.skip(1), sep, depth);
        reveal_with_fuel(passes, 3);
        if first.len() == 2 {
            assert(first.skip(1) =~= seq![s[0]]);
            assert(first.skip(1).skip(1) =~= Seq::<char>::empty());
        } else {
            assert(first.skip(1) =~= Seq::<char>::empty());
        }
    }
}

proof fn lemma_signed_whole(n: int, sep: char, depth: int)
    requires
        sep == ',' || sep == '|',
    ensures
        whole(signed(n), sep, depth),
{
    let m = if n < 0 {
        -n
    } else {
        n
    };
    lemma_decimal(m as nat);
    let t = signed(n);
    assert forall|k: int| 0 <= k < t.len() implies calm(#[trigger] t[k], sep) by {
        if n < 0 {
            if k > 0 {
                assert(t[k] == decimal(m as nat)[k - 1]);
            }
        } else {
            assert(t[k] == decimal(m as nat)[k]);
        }
    }
    lemma_calm(t, sep, depth);
}

/// What stands in brackets is deeper by one, and what stands behind them is not.
proof fn lemma_bracketed(t: Seq<char>, open: char, close: char, sep: char, depth: int)
    requires
        open == '(' && close == ')' || open == '[' && close == ']',
        whole(t, sep, depth + 1),
    ensures
        whole(seq![open] + t + seq![close], sep, depth),
{
    let at = Standing { in_str: false, esc: false, depth };
    let deeper = Standing { in_str: false, esc: false, depth: depth + 1 };
    lemma_passes_join(seq![open] + t, seq![close], sep, at);
    lemma_passes_join(seq![open], t, sep, at);
    assert(seq![open].skip(1) =~= Seq::<char>::empty());
    assert(seq![close].skip(1) =~= Seq::<char>::empty());
    reveal_with_fuel(passes, 2);
}

proof fn lemma_in_brackets_whole(op: PathOpV, sep: char, depth: int)
    requires
        sep == ',' || sep == '|',
    ensures
        whole(in_brackets(op), sep, depth),
{
    match op {
        PathOpV::Field(key) => {
            lemma_quotes_whole(key, sep, depth);
        },
        PathOpV::Index(n) => {
            lemma_signed_whole(n, sep, depth);
        },
        PathOpV::Slice(lo, hi) => {
            lemma_bound_whole(lo, sep, depth);
            lemma_bound_whole(hi, sep, depth);
            lemma_calm(seq![':'], sep, depth);
            lemma_whole_join(bound_text(lo), seq![':'], sep, depth);
            lemma_whole_join(bound_text(lo) + seq![':'], bound_text(hi), sep, depth);
        },
        _ => {},
    }
}

proof fn lemma_bound_whole(x: Option<int>, sep: char, depth: int)
    requires
        sep == ',' || sep == '|',
    ensures
        whole(bound_text(x), sep, depth),
{
    if let Some(n) = x {
        lemma_signed_whole(n, sep, depth);
    }
}

proof fn lemma_path_whole(ws: Seq<Written>, sep: char, depth: int)
    requires
        sep == ',' || sep == '|',
    ensures
        whole(path_text(ws), sep, depth),
    decreases ws.len(),
{
    if ws.len() > 0 {
        let w = ws[0];
        let t = written_text(w);
        let step = match w.op {
            PathOpV::Recurse => seq!['.', '.'],
            PathOpV::Field(key) if w.dot && is_name(key) => seq!['.'] + key,
            _ => (if w.dot {
                seq!['.']
            } else {
                Seq::empty()
            }) + (seq!['['] + in_brackets(w.op) + seq![']']),
        };
        lemma_calm(seq!['.'], sep, depth);
        lemma_calm(seq!['?'], sep, depth);
        if w.op is Recurse {
            lemma_calm(step, sep, depth);
        } else if w.op is Field && w.dot && is_name(w.op->Field_0) {
            let key = w.op->Field_0;
            assert forall|k: int| 0 <= k < step.len() implies calm(#[trigger] step[k], sep) by {
                if k > 0 {
                    assert(step[k] == key[k - 1]);
                    assert(word_char(key[k - 1]));
                }
            }
            lemma_calm(step, sep, depth);
        } else {
            lemma_in_brackets_whole(w.op, sep, depth + 1);
            lemma_bracketed(in_brackets(w.op), '[', ']', sep, depth);
            let br = seq!['['] + in_brackets(w.op) + seq![']'];
            if w.dot {
                lemma_whole_join(seq!['.'], br, sep, depth);
            } else {
                assert(Seq::<char>::empty() + br =~= br);
            }
        }
        if w.lenient && !(w.op is Recurse) {
            lemma_whole_join(step, seq!['?'], sep, depth);
        }
        lemma_path_whole(ws.skip(1), sep, depth);
        lemma_whole_join(t, path_text(ws.skip(1)), sep, depth);
    }
}

proof fn lemma_spelt_whole(o: Spelt, sep: char, depth: int)
    requires
        sep == ',' || sep == '|',
        spelt_ok(o),
    ensures
        whole(spelt_text(o), sep, depth),
{
    let t = spelt_text(o);
    match o {
        Spelt::Path(ws) => {
            if ws.len() > 0 {
                lemma_path_whole(ws, sep, depth);
            } else {
                lemma_calm(t, sep, depth);
            }
        },
        Spelt::Text(s) => {
            lemma_quotes_whole(s, sep, depth);
        },
        Spelt::Number(u) => {
            assert forall|k: int| 0 <= k < t.len() implies calm(#[trigger] t[k], sep) by {
                assert(number_char(u[k]));
            }
            lemma_calm(t, sep, depth);
        },
        _ => {
            lemma_calm(t, sep, depth);
        },
    }
}

proof fn lemma_clause_whole(c: Clause, level: int, sep: char, depth: int)
    requires
        sep == ',' || sep == '|',
        clause_ok(c),
    ensures
        whole(clause_text(c, level), sep, depth),
    decreases c,
{
    match c {
        Clause::Lone(o) => {
            lemma_spelt_whole(o, sep, depth);
        },
        Clause::Compare(x, op, y) => {
            let mid = seq![' '] + operator_text(op) + seq![' '];
            lemma_spelt_whole(x, sep, depth);
            lemma_spelt_whole(y, sep, depth);
            lemma_calm(mid, sep, depth);
            lemma_whole_join(spelt_text(x), mid, sep, depth);
            lemma_whole_join(spelt_text(x) + mid, spelt_text(y), sep, depth);
        },
        Clause::Matches(x, negated, s) => {
            let mid = seq![' '] + tilde_text(negated) + seq![' '];
            lemma_spelt_whole(x, sep, depth);
            lemma_quotes_whole(s, sep, depth);
            lemma_calm(mid, sep, depth);
            lemma_whole_join(spelt_text(x), mid, sep, depth);
            lemma_whole_join(spelt_text(x) + mid, in_quotes(s), sep, depth);
        },
        Clause::Both(x, y) => {
            let d = if level > 1 {
                depth + 1
            } else {
                depth
            };
            let mid = seq![' ', 'a', 'n', 'd', ' '];
            let t = clause_text(*x, 1) + mid + clause_text(*y, 2);
            lemma_clause_whole(*x, 1, sep, d);
            lemma_clause_whole(*y, 2, sep, d);
            lemma_calm(mid, sep, d);
            lemma_whole_join(clause_text(*x, 1), mid, sep, d);
            lemma_whole_join(clause_text(*x, 1) + mid, clause_text(*y, 2), sep, d);
            if level > 1 {
                lemma_bracketed(t, '(', ')', sep, depth);
            }
        },
        Clause::Either(x, y) => {
            let d = if level > 0 {
                depth + 1
            } else {
                depth
            };
            let mid = seq![' ', 'o', 'r', ' '];
            let t = clause_text(*x, 0) + mid + clause_text(*y, 1);
            lemma_clause_whole(*x, 0, sep, d);
            lemma_clause_whole(*y, 1, sep, d);
            lemma_calm(mid, sep, d);
            lemma_whole_join(clause_text(*x, 0), mid, sep, d);
            lemma_whole_join(clause_text(*x, 0) + mid, clause_text(*y, 1), sep, d);
            if level > 0 {
                lemma_bracketed(t, '(', ')', sep, depth);
            }
        },
    }
}

proof fn lemma_phrase_whole(p: Phrase, sep: char)
    requires
        sep == ',' || sep == '|',
        phrase_ok(p),
    ensures
        whole(phrase_text(p), sep, 0),
{
    match p {
        Phrase::Path(ws) => {
            if ws.len() > 0 {
                lemma_path_whole(ws, sep, 0);
            } else {
                lemma_calm(seq!['.'], sep, 0);
            }
        },
        Phrase::Select(c) => {
            let word = seq!['s', 'e', 'l', 'e', 'c', 't'];
            let body = clause_text(c, 0);
            lemma_clause_whole(c, 0, sep, 1);
            lemma_bracketed(body, '(', ')', sep, 0);
            lemma_calm(word, sep, 0);
            lemma_whole_join(word, seq!['('] + body + seq![')'], sep, 0);
            assert(phrase_text(p) =~= word + (seq!['('] + body + seq![')']));
        },
    }
}

/// Texts with a separator between them.
pub open spec fn joined_by(ts: Seq<Seq<char>>, sep: char) -> Seq<char>
    decreases ts.len(),
{
    if ts.len() == 0 {
        Seq::empty()
    } else if ts.len() == 1 {
        ts[0]
    } else {
        ts[0] + seq![sep] + joined_by(ts.skip(1), sep)
    }
}

/// What a splitter passes over goes into the part that it is at.
proof fn lemma_parts_pass(
    cs: Seq<char>,
    i: int,
    sep: char,
    cur: Seq<char>,
    at: Standing,
    t: Seq<char>,
)
    requires
        holds_at(cs, i, t),
        passes(t, sep, at) is Some,
    ensures
        ({
            let x = passes(t, sep, at)->0;
            parts_from(cs, i, sep, cur, at.in_str, at.esc, at.depth) == parts_from(
                cs,
                i + t.len(),
                sep,
                cur + t,
                x.in_str,
                x.esc,
                x.depth,
            )
        }),
    decreases t.len(),
{
    if t.len() == 0 {
        assert(cur + t =~= cur);
    } else {
        let c = t[0];
        let rest = t.skip(1);
        assert(cs[i + 0] == c);
        assert(t =~= seq![c] + rest);
        lemma_holds_split(cs, i, seq![c], rest);
        let next = if at.in_str {
            Standing { in_str: at.esc || c != '"', esc: !at.esc && c == '\\', depth: at.depth }
        } else if c == '"' {
            Standing { in_str: true, ..at }
        } else if c == '(' || c == '[' {
            Standing { depth: at.depth + 1, ..at }
        } else if c == ')' || c == ']' {
            Standing { depth: at.depth - 1, ..at }
        } else {
            at
        };
        lemma_parts_pass(cs, i + 1, sep, cur.push(c), next, rest);
        assert(cur.push(c) + rest =~= cur + t);
    }
}

proof fn lemma_parts_joined(cs: Seq<char>, i: int, sep: char, ts: Seq<Seq<char>>)
    requires
        sep == ',' || sep == '|',
        ts.len() > 0,
        holds_at(cs, i, joined_by(ts, sep)),
        i + joined_by(ts, sep).len() == cs.len(),
        forall|k: int| 0 <= k < ts.len() ==> whole(#[trigger] ts[k], sep, 0),
    ensures
        parts_from(cs, i, sep, Seq::empty(), false, false, 0) == ts,
    decreases ts.len(),
{
    let at = Standing { in_str: false, esc: false, depth: 0 };
    let none = Seq::<char>::empty();
    assert(whole(ts[0], sep, 0));
    assert(none + ts[0] =~= ts[0]);
    if ts.len() == 1 {
        lemma_parts_pass(cs, i, sep, none, at, ts[0]);
        assert(seq![ts[0]] =~= ts);
    } else {
        let rest = ts.skip(1);
        lemma_holds_split(cs, i, ts[0] + seq![sep], joined_by(rest, sep));
        lemma_holds_split(cs, i, ts[0], seq![sep]);
        lemma_parts_pass(cs, i, sep, none, at, ts[0]);
        let z = i + ts[0].len();
        assert(cs[z + 0] == seq![sep][0]);
        assert forall|k: int| 0 <= k < rest.len() implies whole(#[trigger] rest[k], sep, 0) by {
            assert(rest[k] == ts[k + 1]);
        }
        lemma_parts_joined(cs, z + 1, sep, rest);
        assert(seq![ts[0]] + rest =~= ts);
    }
}

/// A text is split where its separators stand, and nowhere else.
proof fn lemma_parts(ts: Seq<Seq<char>>, sep: char)
    requires
        sep == ',' || sep == '|',
        ts.len() > 0,
        forall|k: int| 0 <= k < ts.len() ==> whole(#[trigger] ts[k], sep, 0),
    ensures
        parts(joined_by(ts, sep), sep) == ts,
{
    lemma_parts_joined(joined_by(ts, sep), 0, sep, ts);
}

pub open spec fn phrase_texts(ps: Seq<Phrase>) -> Seq<Seq<char>> {
    Seq::new(ps.len(), |i: int| phrase_text(ps[i]))
}

pub open spec fn phrase_meanings(ps: Seq<Phrase>) -> Seq<TermV> {
    Seq::new(ps.len(), |i: int| phrase_meaning(ps[i]))
}

/// A stage: its terms with commas between them.
pub open spec fn stage_text(ps: Seq<Phrase>) -> Seq<char> {
    joined_by(phrase_texts(ps), ',')
}

pub open spec fn stage_ok(ps: Seq<Phrase>) -> bool {
    ps.len() > 0 && forall|i: int| 0 <= i < ps.len() ==> phrase_ok(#[trigger] ps[i])
}

pub open spec fn stage_texts(ss: Seq<Seq<Phrase>>) -> Seq<Seq<char>> {
    Seq::new(ss.len(), |i: int| stage_text(ss[i]))
}

/// A program: its stages with pipes between them.
pub open spec fn program_text(ss: Seq<Seq<Phrase>>) -> Seq<char> {
    joined_by(stage_texts(ss), '|')
}

pub open spec fn program_meaning(ss: Seq<Seq<Phrase>>) -> Seq<Seq<TermV>> {
    Seq::new(ss.len(), |i: int| phrase_meanings(ss[i]))
}

proof fn lemma_terms_read(ps: Seq<Phrase>, k: int)
    requires
        stage_ok(ps),
        0 <= k <= ps.len(),
    ensures
        terms_from(phrase_texts(ps), k) == Ok::<Seq<TermV>, Seq<char>>(
            phrase_meanings(ps).skip(k),
        ),
    decreases ps.len() - k,
{
    if k < ps.len() {
        assert(phrase_ok(ps[k]));
        law_terms_read_back(ps[k]);
        lemma_terms_read(ps, k + 1);
        assert(seq![phrase_meaning(ps[k])] + phrase_meanings(ps).skip(k + 1)
            =~= phrase_meanings(ps).skip(k));
    } else {
        assert(phrase_meanings(ps).skip(k) =~= Seq::empty());
    }
}

proof fn lemma_joined_whole(ts: Seq<Seq<char>>)
    requires
        forall|k: int| 0 <= k < ts.len() ==> whole(#[trigger] ts[k], '|', 0),
    ensures
        whole(joined_by(ts, ','), '|', 0),
    decreases ts.len(),
{
    if ts.len() == 1 {
        assert(whole(ts[0], '|', 0));
    } else if ts.len() > 1 {
        let rest = ts.skip(1);
        assert forall|k: int| 0 <= k < rest.len() implies whole(#[trigger] rest[k], '|', 0) by {
            assert(rest[k] == ts[k + 1]);
        }
        lemma_joined_whole(rest);
        assert(whole(ts[0], '|', 0));
        lemma_calm(seq![','], '|', 0);
        lemma_whole_join(ts[0], seq![','], '|', 0);
        lemma_whole_join(ts[0] + seq![','], joined_by(rest, ','), '|', 0);
    }
}

/// A stage reads back from its text.
pub proof fn law_stages_read_back(ps: Seq<Phrase>)
    requires
        stage_ok(ps),
    ensures
        terms_from(parts(stage_text(ps), ','), 0) == Ok::<Seq<TermV>, Seq<char>>(
            phrase_meanings(ps),
        ),
{
    let ts = phrase_texts(ps);
    assert forall|k: int| 0 <= k < ts.len() implies whole(#[trigger] ts[k], ',', 0) by {
        assert(phrase_ok(ps[k]));
        lemma_phrase_whole(ps[k], ',');
    }
    lemma_parts(ts, ',');
    lemma_terms_read(ps, 0);
    assert(phrase_meanings(ps).skip(0) =~= phrase_meanings(ps));
}

proof fn lemma_stages_read(ss: Seq<Seq<Phrase>>, k: int)
    requires
        forall|i: int| 0 <= i < ss.len() ==> stage_ok(#[trigger] ss[i]),
        0 <= k <= ss.len(),
    ensures
        stages_from(stage_texts(ss), k) == Ok::<Seq<Seq<TermV>>, Seq<char>>(
            program_meaning(ss).skip(k),
        ),
    decreases ss.len() - k,
{
    if k < ss.len() {
        assert(stage_ok(ss[k]));
        law_stages_read_back(ss[k]);
        lemma_stages_read(ss, k + 1);
        assert(seq![phrase_meanings(ss[k])] + program_meaning(ss).skip(k + 1)
            =~= program_meaning(ss).skip(k));
    } else {
        assert(program_meaning(ss).skip(k) =~= Seq::empty());
    }
}

/// A program reads back from its text: its stages, their terms, every step of their paths
/// and every condition.
pub proof fn law_programs_read_back(ss: Seq<Seq<Phrase>>)
    requires
        ss.len() > 0,
        forall|i: int| 0 <= i < ss.len() ==> stage_ok(#[trigger] ss[i]),
    ensures
        pipeline(program_text(ss)) == Ok::<Seq<Seq<TermV>>, Seq<char>>(program_meaning(ss)),
{
    let ts = stage_texts(ss);
    assert forall|k: int| 0 <= k < ts.len() implies whole(#[trigger] ts[k], '|', 0) by {
        let ps = ss[k];
        let us = phrase_texts(ps);
        assert(stage_ok(ps));
        assert forall|m: int| 0 <= m < us.len() implies whole(#[trigger] us[m], '|', 0) by {
            assert(phrase_ok(ps[m]));
            lemma_phrase_whole(ps[m], '|');
        }
        lemma_joined_whole(us);
    }
    lemma_parts(ts, '|');
    lemma_stages_read(ss, 0);
    assert(program_meaning(ss).skip(0) =~= program_meaning(ss));
}

} // verus!
