//! Filter programs: what they consist of, and how they are written.
//!
//! A program is a pipeline of `|`-separated stages; each stage is a
//! comma-separated list of terms whose outputs are unioned. Terms:
//!   - `.`                 identity (the current value)
//!   - `.foo` / `.foo.bar` object field access
//!   - `["key"]`           bracketed field access (keys with dots or spaces)
//!   - `.[3]` / `[3]`      array index; negatives count from the end (`.[-1]`)
//!   - `.[1:3]` / `.[-2:]` array slice, which streams the elements in the range
//!   - `.[]` / `[]`        iterate an array's elements or an object's values
//!   - `..`                recursive descent: this value and every descendant
//!   - `a, b`              comma: union of the outputs of `a` and `b`
//!   - `select(<cond>)`    keep the value when `<cond>` holds. `<cond>` is built
//!     from comparisons (`<operand> <op> <operand>`, `op` one of `== != < <= > >=`),
//!     string matches (`<path> ~ "pattern"` / `!~`), bare operands (kept when
//!     truthy), `and` / `or`, and `( … )` grouping. An operand is a path (`.a.b`)
//!     or a literal (number / "string" / true / false / null). The `~` pattern
//!     speaks the same dialect as the `/` search.

use crate::search::{query_pattern, Pattern, PatternV};
use crate::text::{
    between, chars_of, digits_end, digits_value, float_text, has_prefix, is_float_text,
    is_white_space, is_word_char, joint, occurs_at, read_digits, stands_at, string_of, trim_range,
    trimmed, trimmed_start, white_space, word_char,
};
use vstd::prelude::*;

verus! {

/// A parsed program: a pipeline of stages run left to right.
pub struct Program {
    pub stages: Vec<Stage>,
}

/// One `|`-separated stage: a union of comma-separated terms.
pub struct Stage {
    pub terms: Vec<Term>,
}

/// One comma-separated term within a stage.
pub enum Term {
    /// A path expression: a sequence of navigation steps applied left to right.
    Path(Vec<PathOp>),
    /// `select(<cond>)`: passes the current value through iff `<cond>` holds.
    Select(Cond),
}

/// One navigation step in a path term.
pub enum PathOp {
    /// `.foo` / `["foo"]`: the value at object key `foo` (nothing if absent).
    Field(String),
    /// `.[3]` / `[3]`: the element at array index (negatives count from the end).
    Index(i64),
    /// `.[lo:hi]`: the elements of an array in the half-open range, as a stream.
    Slice(Option<i64>, Option<i64>),
    /// `.[]`: every element of an array, or every value of an object.
    Iterate,
    /// `..`: this value followed by every descendant, depth-first.
    Recurse,
}

/// A `select(...)` condition tree.
pub enum Cond {
    /// `<operand>` alone: kept when truthy.
    Truthy(Operand),
    /// `<operand> <op> <operand>`.
    Cmp(Operand, CmpOp, Operand),
    /// `<operand> ~ "pattern"` (or `!~`): string match against a compiled pattern.
    /// Holds iff the operand is a string that matches, or with `negated` iff it
    /// is not; a non-string operand never matches.
    Match { lhs: Operand, pattern: Pattern, negated: bool },
    And(Box<Cond>, Box<Cond>),
    Or(Box<Cond>, Box<Cond>),
}

/// One side of a comparison (or a bare truthy test).
pub enum Operand {
    /// A field/index path from the current value (empty = the value itself).
    Path(Vec<PathSeg>),
    Lit(Literal),
}

pub enum PathSeg {
    Field(String),
    Index(i64),
}

#[derive(Clone, Copy, Debug, PartialEq, Eq, Structural)]
pub enum CmpOp {
    Eq,
    Ne,
    Lt,
    Le,
    Gt,
    Ge,
}

pub enum Literal {
    /// A number, as it is written.
    Num(String),
    Str(String),
    Bool(bool),
    Null,
}

// ---------------------------------------------------------------------------
// Programs as the contracts speak of them
// ---------------------------------------------------------------------------
pub enum TermV {
    Path(Seq<PathOpV>),
    Select(CondV),
}

pub enum PathOpV {
    Field(Seq<char>),
    Index(int),
    Slice(Option<int>, Option<int>),
    Iterate,
    Recurse,
}

pub enum CondV {
    Truthy(OperandV),
    Cmp(OperandV, CmpOp, OperandV),
    Match { lhs: OperandV, pattern: PatternV, negated: bool },
    And(Box<CondV>, Box<CondV>),
    Or(Box<CondV>, Box<CondV>),
}

pub enum OperandV {
    Path(Seq<PathSegV>),
    Lit(LiteralV),
}

pub enum PathSegV {
    Field(Seq<char>),
    Index(int),
}

pub enum LiteralV {
    Num(Seq<char>),
    Str(Seq<char>),
    Bool(bool),
    Null,
}

pub open spec fn opt_int(v: Option<i64>) -> Option<int> {
    match v {
        Some(n) => Some(n as int),
        None => None,
    }
}

impl View for Literal {
    type V = LiteralV;

    open spec fn view(&self) -> LiteralV {
        match self {
            Literal::Num(s) => LiteralV::Num(s@),
            Literal::Str(s) => LiteralV::Str(s@),
            Literal::Bool(v) => LiteralV::Bool(*v),
            Literal::Null => LiteralV::Null,
        }
    }
}

impl View for PathSeg {
    type V = PathSegV;

    open spec fn view(&self) -> PathSegV {
        match self {
            PathSeg::Field(k) => PathSegV::Field(k@),
            PathSeg::Index(i) => PathSegV::Index(*i as int),
        }
    }
}

pub open spec fn path_seg_views(segs: Seq<PathSeg>) -> Seq<PathSegV> {
    Seq::new(segs.len(), |i: int| segs[i]@)
}

impl View for Operand {
    type V = OperandV;

    open spec fn view(&self) -> OperandV {
        match self {
            Operand::Path(segs) => OperandV::Path(path_seg_views(segs@)),
            Operand::Lit(l) => OperandV::Lit(l@),
        }
    }
}

impl Cond {
    pub open spec fn model(&self) -> CondV
        decreases self,
    {
        match self {
            Cond::Truthy(o) => CondV::Truthy(o@),
            Cond::Cmp(a, op, c) => CondV::Cmp(a@, *op, c@),
            Cond::Match { lhs, pattern, negated } => CondV::Match {
                lhs: lhs@,
                pattern: pattern@,
                negated: *negated,
            },
            Cond::And(x, y) => CondV::And(Box::new(x.model()), Box::new(y.model())),
            Cond::Or(x, y) => CondV::Or(Box::new(x.model()), Box::new(y.model())),
        }
    }
}

impl View for PathOp {
    type V = PathOpV;

    open spec fn view(&self) -> PathOpV {
        match self {
            PathOp::Field(k) => PathOpV::Field(k@),
            PathOp::Index(i) => PathOpV::Index(*i as int),
            PathOp::Slice(lo, hi) => PathOpV::Slice(opt_int(*lo), opt_int(*hi)),
            PathOp::Iterate => PathOpV::Iterate,
            PathOp::Recurse => PathOpV::Recurse,
        }
    }
}

pub open spec fn op_views(ops: Seq<PathOp>) -> Seq<PathOpV> {
    Seq::new(ops.len(), |i: int| ops[i]@)
}

impl View for Term {
    type V = TermV;

    open spec fn view(&self) -> TermV {
        match self {
            Term::Path(ops) => TermV::Path(op_views(ops@)),
            Term::Select(c) => TermV::Select(c.model()),
        }
    }
}

pub open spec fn term_views(terms: Seq<Term>) -> Seq<TermV> {
    Seq::new(terms.len(), |i: int| terms[i]@)
}

pub open spec fn stage_views(stages: Seq<Stage>) -> Seq<Seq<TermV>> {
    Seq::new(stages.len(), |i: int| term_views(stages[i].terms@))
}

impl View for Program {
    type V = Seq<Seq<TermV>>;

    open spec fn view(&self) -> Seq<Seq<TermV>> {
        stage_views(self.stages@)
    }
}

// ---------------------------------------------------------------------------
// Splitting
// ---------------------------------------------------------------------------
/// The parts of `s` from `i` on between the separators outside strings and
/// brackets, where `cur` has been read of the first.
pub open spec fn parts_from(
    s: Seq<char>,
    i: int,
    sep: char,
    cur: Seq<char>,
    in_str: bool,
    esc: bool,
    depth: int,
) -> Seq<Seq<char>>
    decreases s.len() - i,
{
    if i >= s.len() {
        seq![cur]
    } else {
        let c = s[i];
        if in_str {
            parts_from(
                s,
                i + 1,
                sep,
                cur.push(c),
                esc || c != '"',
                !esc && c == '\\',
                depth,
            )
        } else if c == '"' {
            parts_from(s, i + 1, sep, cur.push(c), true, esc, depth)
        } else if c == '(' || c == '[' {
            parts_from(s, i + 1, sep, cur.push(c), false, esc, depth + 1)
        } else if c == ')' || c == ']' {
            parts_from(s, i + 1, sep, cur.push(c), false, esc, depth - 1)
        } else if c == sep && depth == 0 {
            seq![cur] + parts_from(s, i + 1, sep, Seq::empty(), false, esc, depth)
        } else {
            parts_from(s, i + 1, sep, cur.push(c), false, esc, depth)
        }
    }
}

/// The parts of `s` between the separators outside strings and brackets.
pub open spec fn parts(s: Seq<char>, sep: char) -> Seq<Seq<char>> {
    parts_from(s, 0, sep, Seq::empty(), false, false, 0)
}

pub open spec fn part_views(v: Seq<Vec<char>>) -> Seq<Seq<char>> {
    Seq::new(v.len(), |i: int| v[i]@)
}

/// Split `src` on top-level occurrences of `sep`, ignoring separators inside
/// `"…"` strings or `(…)` / `[…]` nesting.
fn split_top(src: &[char], sep: char) -> (out: Vec<Vec<char>>)
    requires
        sep != '"' && sep != '(' && sep != '[' && sep != ')' && sep != ']',
    ensures
        part_views(out@) == parts(src@, sep),
{
    let mut out: Vec<Vec<char>> = Vec::new();
    let mut cur: Vec<char> = Vec::new();
    let mut in_str = false;
    let mut esc = false;
    let mut depth: i128 = 0;
    let mut i: usize = 0;
    assert(cur@ =~= Seq::empty());
    assert(part_views(out@) + parts(src@, sep) =~= parts(src@, sep));
    while i < src.len()
        invariant
            i <= src@.len(),
            -i <= depth <= i,
            part_views(out@) + parts_from(src@, i as int, sep, cur@, in_str, esc, depth as int)
                == parts(src@, sep),
        decreases src@.len() - i,
    {
        let c: char = src[i];
        let ghost before = part_views(out@);
        let ghost old_cur = cur@;
        if in_str {
            cur.push(c);
            if esc {
                esc = false;
            } else if c == '\\' {
                esc = true;
            } else if c == '"' {
                in_str = false;
            }
        } else if c == '"' {
            in_str = true;
            cur.push(c);
        } else if c == '(' || c == '[' {
            depth += 1;
            cur.push(c);
        } else if c == ')' || c == ']' {
            depth -= 1;
            cur.push(c);
        } else if c == sep && depth == 0 {
            out.push(cur);
            cur = Vec::new();
            proof {
                assert(cur@ =~= Seq::empty());
                let rest = parts_from(src@, i + 1, sep, cur@, in_str, esc, depth as int);
                assert(part_views(out@) =~= before + seq![old_cur]);
                assert(before + seq![old_cur] + rest =~= before + (seq![old_cur] + rest));
            }
        } else {
            cur.push(c);
        }
        i += 1;
    }
    let ghost before = part_views(out@);
    let ghost last = cur@;
    out.push(cur);
    assert(part_views(out@) =~= before + seq![last]);
    out
}

// ---------------------------------------------------------------------------
// Tokens
// ---------------------------------------------------------------------------
/// The first position from `i` on that holds no whitespace.
pub open spec fn blank_end(cs: Seq<char>, i: int) -> int
    decreases cs.len() - i,
{
    if i < cs.len() && white_space(cs[i]) {
        blank_end(cs, i + 1)
    } else {
        i
    }
}

fn skip_ws(cs: &[char], i: usize) -> (r: usize)
    requires
        i <= cs@.len(),
    ensures
        r == blank_end(cs@, i as int),
        i <= r <= cs@.len(),
        r < cs@.len() ==> !white_space(cs@[r as int]),
{
    let mut k: usize = i;
    while k < cs.len() && is_white_space(cs[k])
        invariant
            i <= k <= cs@.len(),
            blank_end(cs@, k as int) == blank_end(cs@, i as int),
        decreases cs@.len() - k,
    {
        k += 1;
    }
    k
}

/// The first position from `i` on that cannot belong to a name.
pub open spec fn name_end(cs: Seq<char>, i: int) -> int
    decreases cs.len() - i,
{
    if i < cs.len() && word_char(cs[i]) {
        name_end(cs, i + 1)
    } else {
        i
    }
}

fn skip_name(cs: &[char], i: usize) -> (r: usize)
    requires
        i <= cs@.len(),
    ensures
        r == name_end(cs@, i as int),
        i <= r <= cs@.len(),
{
    let mut k: usize = i;
    while k < cs.len() && is_word_char(cs[k])
        invariant
            i <= k <= cs@.len(),
            name_end(cs@, k as int) == name_end(cs@, i as int),
        decreases cs@.len() - k,
    {
        k += 1;
    }
    k
}

/// The position behind a question mark at `i`, if there is one.
pub open spec fn question_end(cs: Seq<char>, i: int) -> int {
    if i < cs.len() && cs[i] == '?' {
        i + 1
    } else {
        i
    }
}

/// `?` asks for leniency, which is automatic: it is accepted and ignored.
fn opt_question(cs: &[char], i: usize) -> (r: usize)
    requires
        i <= cs@.len(),
    ensures
        r == question_end(cs@, i as int),
        i <= r <= cs@.len(),
{
    if i < cs.len() && cs[i] == '?' {
        i + 1
    } else {
        i
    }
}

/// The rest of a string from `i` on, behind `acc`, and the position behind its
/// closing quote. A backslash stands for the character behind it.
pub open spec fn quoted_from(cs: Seq<char>, i: int, acc: Seq<char>) -> Result<
    (Seq<char>, int),
    Seq<char>,
>
    decreases cs.len() - i,
{
    if i >= cs.len() {
        Err("unterminated string"@)
    } else if cs[i] == '\\' && i + 1 < cs.len() {
        quoted_from(cs, i + 2, acc.push(cs[i + 1]))
    } else if cs[i] == '"' {
        Ok((acc, i + 1))
    } else {
        quoted_from(cs, i + 1, acc.push(cs[i]))
    }
}

/// Read a `"…"` string starting at `cs[i] == '"'`: the decoded contents and the
/// position just past the closing quote.
fn parse_quoted(cs: &[char], i: usize) -> (r: Result<(String, usize), String>)
    requires
        i < cs@.len(),
    ensures
        match quoted_from(cs@, i + 1, Seq::empty()) {
            Ok((s, j)) => r matches Ok(x) && x.0@ == s && x.1 == j && i < j <= cs@.len(),
            Err(e) => r matches Err(x) && x@ == e,
        },
{
    let n: usize = cs.len();
    let mut k: usize = i + 1;
    let mut s = String::new();
    assert(s@ =~= Seq::empty());
    while k < n
        invariant
            n == cs@.len(),
            i < k <= cs@.len(),
            quoted_from(cs@, k as int, s@) == quoted_from(cs@, i + 1, Seq::empty()),
        decreases cs@.len() - k,
    {
        let c: char = cs[k];
        if c == '\\' && k + 1 < n {
            s.push(cs[k + 1]);
            k += 2;
        } else if c == '"' {
            return Ok((s, k + 1));
        } else {
            s.push(c);
            k += 1;
        }
    }
    Err("unterminated string".to_owned())
}

/// The signed integer at `i`, if there is one, and the position behind it.
pub open spec fn integer_at(cs: Seq<char>, i: int) -> Result<(Option<int>, int), Seq<char>> {
    let minus = i < cs.len() && cs[i] == '-';
    let j = if minus {
        i + 1
    } else {
        i
    };
    let z = digits_end(cs, j);
    if z == j {
        Ok((None, i))
    } else {
        let m = digits_value(cs.subrange(j, z))->0 as int;
        let v = if minus {
            -m
        } else {
            m
        };
        if i64::MIN <= v <= i64::MAX {
            Ok((Some(v), z))
        } else {
            Err("number out of range"@)
        }
    }
}

proof fn lemma_digits_value_some(s: Seq<char>)
    requires
        forall|k: int| 0 <= k < s.len() ==> crate::text::is_digit(#[trigger] s[k]),
    ensures
        digits_value(s) is Some,
    decreases s.len(),
{
    if s.len() > 0 {
        lemma_digits_value_some(s.drop_last());
    }
}

/// Parse an optional signed integer at `i`. `None` if there's no digit there (so
/// a bare `:` slice bound is allowed).
fn parse_opt_int(cs: &[char], i: usize) -> (r: Result<(Option<i64>, usize), String>)
    requires
        i <= cs@.len(),
    ensures
        match integer_at(cs@, i as int) {
            Ok((v, j)) => r matches Ok(x) && opt_int(x.0) == v && x.1 == j && i <= j <= cs@.len(),
            Err(e) => r matches Err(x) && x@ == e,
        },
{
    let minus = i < cs.len() && cs[i] == '-';
    let j: usize = if minus {
        i + 1
    } else {
        i
    };
    let mut z: usize = j;
    while z < cs.len() && '0' <= cs[z] && cs[z] <= '9'
        invariant
            j <= z <= cs@.len(),
            digits_end(cs@, z as int) == digits_end(cs@, j as int),
            forall|k: int| j <= k < z ==> crate::text::is_digit(#[trigger] cs@[k]),
        decreases cs@.len() - z,
    {
        z += 1;
    }
    if z == j {
        return Ok((None, i));
    }
    proof {
        lemma_digits_value_some(cs@.subrange(j as int, z as int));
    }
    let max: u64 = if minus {
        0x8000_0000_0000_0000
    } else {
        0x7fff_ffff_ffff_ffff
    };
    match read_digits(cs, j, z, max) {
        None => Err("number out of range".to_owned()),
        Some(m) => {
            let v: i64 = if !minus {
                m as i64
            } else if m == 0x8000_0000_0000_0000 {
                i64::MIN
            } else {
                -(m as i64)
            };
            Ok((Some(v), z))
        },
    }
}

// ---------------------------------------------------------------------------
// Paths
// ---------------------------------------------------------------------------
/// The accessor whose `[` is at `i`, and the position behind its `]`.
pub open spec fn bracket_at(cs: Seq<char>, i: int) -> Result<(PathOpV, int), Seq<char>> {
    let n = cs.len();
    let a = blank_end(cs, i + 1);
    if a < n && cs[a] == ']' {
        Ok((PathOpV::Iterate, a + 1))
    } else if a < n && cs[a] == '"' {
        match quoted_from(cs, a + 1, Seq::empty()) {
            Err(e) => Err(e),
            Ok((key, z)) => {
                let z = blank_end(cs, z);
                if z < n && cs[z] == ']' {
                    Ok((PathOpV::Field(key), z + 1))
                } else {
                    Err("expected ']' after key"@)
                }
            },
        }
    } else {
        match integer_at(cs, a) {
            Err(e) => Err(e),
            Ok((lo, z)) => {
                let z = blank_end(cs, z);
                if z < n && cs[z] == ':' {
                    match integer_at(cs, blank_end(cs, z + 1)) {
                        Err(e) => Err(e),
                        Ok((hi, y)) => {
                            let y = blank_end(cs, y);
                            if y < n && cs[y] == ']' {
                                Ok((PathOpV::Slice(lo, hi), y + 1))
                            } else {
                                Err("expected ']' after slice"@)
                            }
                        },
                    }
                } else {
                    match lo {
                        None => Err("expected an index, \"key\", slice, or [] here"@),
                        Some(v) => if z < n && cs[z] == ']' {
                            Ok((PathOpV::Index(v), z + 1))
                        } else {
                            Err("expected ']' after index"@)
                        },
                    }
                }
            },
        }
    }
}

/// Parse one `[ … ]` accessor: `[]`, `["key"]`, `[N]`, or a slice `[lo:hi]`. `i`
/// points at `[`; the position given is just past the matching `]`.
fn parse_bracket(cs: &[char], i: usize) -> (r: Result<(PathOp, usize), String>)
    requires
        i < cs@.len(),
    ensures
        match bracket_at(cs@, i as int) {
            Ok((op, j)) => r matches Ok(x) && x.0@ == op && x.1 == j && i < j <= cs@.len(),
            Err(e) => r matches Err(x) && x@ == e,
        },
{
    let n: usize = cs.len();
    let a: usize = skip_ws(cs, i + 1);
    if a < n && cs[a] == ']' {
        return Ok((PathOp::Iterate, a + 1));
    }
    if a < n && cs[a] == '"' {
        match parse_quoted(cs, a) {
            Err(e) => {
                return Err(e);
            },
            Ok((key, z)) => {
                let z: usize = skip_ws(cs, z);
                if z >= n || cs[z] != ']' {
                    return Err("expected ']' after key".to_owned());
                }
                return Ok((PathOp::Field(key), z + 1));
            },
        }
    }
    // A number, or a slice with optional bounds around a ':'.
    match parse_opt_int(cs, a) {
        Err(e) => Err(e),
        Ok((lo, z)) => {
            let z: usize = skip_ws(cs, z);
            if z < n && cs[z] == ':' {
                let y: usize = skip_ws(cs, z + 1);
                match parse_opt_int(cs, y) {
                    Err(e) => Err(e),
                    Ok((hi, y)) => {
                        let y: usize = skip_ws(cs, y);
                        if y >= n || cs[y] != ']' {
                            return Err("expected ']' after slice".to_owned());
                        }
                        Ok((PathOp::Slice(lo, hi), y + 1))
                    },
                }
            } else {
                match lo {
                    None => Err("expected an index, \"key\", slice, or [] here".to_owned()),
                    Some(v) => {
                        if z >= n || cs[z] != ']' {
                            return Err("expected ']' after index".to_owned());
                        }
                        Ok((PathOp::Index(v), z + 1))
                    },
                }
            }
        },
    }
}

/// `head` in front of the result, where there is one.
pub open spec fn ops_after(head: Seq<PathOpV>, tail: Result<Seq<PathOpV>, Seq<char>>) -> Result<
    Seq<PathOpV>,
    Seq<char>,
> {
    match tail {
        Ok(ops) => Ok(head + ops),
        Err(e) => Err(e),
    }
}

proof fn lemma_blank_end(cs: Seq<char>, i: int)
    ensures
        blank_end(cs, i) >= i,
        i <= cs.len() ==> blank_end(cs, i) <= cs.len(),
    decreases cs.len() - i,
{
    if i < cs.len() && white_space(cs[i]) {
        lemma_blank_end(cs, i + 1);
    }
}

proof fn lemma_name_end(cs: Seq<char>, i: int)
    ensures
        name_end(cs, i) >= i,
        i <= cs.len() ==> name_end(cs, i) <= cs.len(),
    decreases cs.len() - i,
{
    if i < cs.len() && word_char(cs[i]) {
        lemma_name_end(cs, i + 1);
    }
}

proof fn lemma_quoted_from(cs: Seq<char>, i: int, acc: Seq<char>)
    ensures
        quoted_from(cs, i, acc) matches Ok((_, j)) ==> i < j <= cs.len(),
    decreases cs.len() - i,
{
    if i < cs.len() {
        if cs[i] == '\\' && i + 1 < cs.len() {
            lemma_quoted_from(cs, i + 2, acc.push(cs[i + 1]));
        } else if cs[i] != '"' {
            lemma_quoted_from(cs, i + 1, acc.push(cs[i]));
        }
    }
}

proof fn lemma_digits_end(cs: Seq<char>, i: int)
    requires
        0 <= i,
    ensures
        digits_end(cs, i) >= i,
        i <= cs.len() ==> digits_end(cs, i) <= cs.len(),
    decreases cs.len() - i,
{
    if i < cs.len() && crate::text::is_digit(cs[i]) {
        lemma_digits_end(cs, i + 1);
    }
}

proof fn lemma_bracket_at(cs: Seq<char>, i: int)
    requires
        0 <= i,
    ensures
        bracket_at(cs, i) matches Ok((_, j)) ==> i < j <= cs.len(),
{
    let a = blank_end(cs, i + 1);
    lemma_blank_end(cs, i + 1);
    if a < cs.len() {
        lemma_quoted_from(cs, a + 1, Seq::empty());
        if let Ok((_, z)) = quoted_from(cs, a + 1, Seq::empty()) {
            lemma_blank_end(cs, z);
        }
    }
    lemma_digits_end(cs, a);
    lemma_digits_end(cs, a + 1);
    if let Ok((_, z)) = integer_at(cs, a) {
        lemma_blank_end(cs, z);
        let y = blank_end(cs, z);
        lemma_blank_end(cs, y + 1);
        let x = blank_end(cs, y + 1);
        lemma_digits_end(cs, x);
        lemma_digits_end(cs, x + 1);
        if let Ok((_, w)) = integer_at(cs, x) {
            lemma_blank_end(cs, w);
        }
    }
}

/// The navigation steps of a path term from `i` on.
pub open spec fn ops_from(cs: Seq<char>, i: int) -> Result<Seq<PathOpV>, Seq<char>>
    decreases cs.len() - i when 0 <= i via ops_from_decreases
{
    let n = cs.len();
    if i >= n {
        Ok(Seq::empty())
    } else if white_space(cs[i]) {
        ops_from(cs, i + 1)
    } else if cs[i] == '.' && i + 1 < n && cs[i + 1] == '.' {
        ops_after(seq![PathOpV::Recurse], ops_from(cs, i + 2))
    } else if cs[i] == '.' && i + 1 < n && cs[i + 1] == '[' {
        ops_from(cs, i + 1)
    } else if cs[i] == '.' {
        let z = name_end(cs, i + 1);
        if z == i + 1 {
            Err("expected a field name after '.'"@)
        } else {
            ops_after(
                seq![PathOpV::Field(cs.subrange(i + 1, z))],
                ops_from(cs, question_end(cs, z)),
            )
        }
    } else if cs[i] == '[' {
        match bracket_at(cs, i) {
            Err(e) => Err(e),
            Ok((op, z)) => ops_after(seq![op], ops_from(cs, question_end(cs, z))),
        }
    } else {
        Err("unexpected '"@ + seq![cs[i]] + "' in path"@)
    }
}

#[via_fn]
proof fn ops_from_decreases(cs: Seq<char>, i: int) {
    lemma_name_end(cs, i + 1);
    lemma_bracket_at(cs, i);
}

fn char_string(c: char) -> (r: String)
    ensures
        r@ == seq![c],
{
    let mut s = String::new();
    s.push(c);
    assert(s@ =~= seq![c]);
    s
}

/// Parse a path term (`.a.b[0][]`, `["k"]`, `.[1:3]`, `..`) into navigation steps.
fn parse_path_ops(cs: &[char]) -> (r: Result<Vec<PathOp>, String>)
    ensures
        match ops_from(cs@, 0) {
            Ok(ops) => r matches Ok(x) && op_views(x@) == ops,
            Err(e) => r matches Err(x) && x@ == e,
        },
{
    let n: usize = cs.len();
    let mut i: usize = 0;
    let mut ops: Vec<PathOp> = Vec::new();
    proof {
        if let Ok(x) = ops_from(cs@, 0) {
            assert(op_views(ops@) + x =~= x);
        }
    }
    while i < n
        invariant
            n == cs@.len(),
            i <= n,
            ops_after(op_views(ops@), ops_from(cs@, i as int)) == ops_from(cs@, 0),
        decreases n - i,
    {
        let c: char = cs[i];
        let ghost before = op_views(ops@);
        let ghost at = i as int;
        if is_white_space(c) {
            i += 1;
        } else if c == '.' && i + 1 < n && cs[i + 1] == '.' {
            // `..` must be checked before a plain `.field`.
            ops.push(PathOp::Recurse);
            i += 2;
            assert(op_views(ops@) =~= before + seq![PathOpV::Recurse]);
        } else if c == '.' && i + 1 < n && cs[i + 1] == '[' {
            i += 1;  // the bracket branch handles it
        } else if c == '.' {
            let z: usize = skip_name(cs, i + 1);
            if z == i + 1 {
                return Err("expected a field name after '.'".to_owned());
            }
            ops.push(PathOp::Field(string_of(cs, i + 1, z)));
            i = opt_question(cs, z);
            assert(op_views(ops@) =~= before + seq![
                PathOpV::Field(cs@.subrange(at + 1, z as int)),
            ]);
        } else if c == '[' {
            match parse_bracket(cs, i) {
                Err(e) => {
                    return Err(e);
                },
                Ok((op, z)) => {
                    let ghost v = op@;
                    ops.push(op);
                    i = opt_question(cs, z);
                    assert(op_views(ops@) =~= before + seq![v]);
                },
            }
        } else {
            return Err(between("unexpected '", char_string(c).as_str(), "' in path"));
        }
        proof {
            if let Ok(x) = ops_from(cs@, i as int) {
                if op_views(ops@).len() > before.len() {
                    let one = seq![op_views(ops@).last()];
                    assert(before + (one + x) =~= op_views(ops@) + x);
                }
            }
        }
    }
    proof {
        assert(op_views(ops@) + Seq::<PathOpV>::empty() =~= op_views(ops@));
    }
    Ok(ops)
}

// ---------------------------------------------------------------------------
// Conditions
// ---------------------------------------------------------------------------
/// The steps of a condition path from `i` on, and the position behind them.
/// Fields and indices only; a dot with nothing behind it ends the path.
pub open spec fn cond_path_from(cs: Seq<char>, i: int, acc: Seq<PathSegV>) -> Result<
    (Seq<PathSegV>, int),
    Seq<char>,
>
    decreases cs.len() - i when 0 <= i via cond_path_from_decreases
{
    let n = cs.len();
    if i < n && cs[i] == '.' {
        if i + 1 < n && cs[i + 1] == '[' {
            cond_path_from(cs, i + 1, acc)
        } else {
            let z = name_end(cs, i + 1);
            if z == i + 1 {
                Ok((acc, z))
            } else {
                cond_path_from(cs, z, acc.push(PathSegV::Field(cs.subrange(i + 1, z))))
            }
        }
    } else if i < n && cs[i] == '[' {
        match bracket_at(cs, i) {
            Err(e) => Err(e),
            Ok((PathOpV::Field(k), z)) => cond_path_from(cs, z, acc.push(PathSegV::Field(k))),
            Ok((PathOpV::Index(v), z)) => cond_path_from(cs, z, acc.push(PathSegV::Index(v))),
            Ok(_) => Err("only keys and indices are allowed in a select() path"@),
        }
    } else {
        Ok((acc, i))
    }
}

#[via_fn]
proof fn cond_path_from_decreases(cs: Seq<char>, i: int, acc: Seq<PathSegV>) {
    lemma_name_end(cs, i + 1);
    lemma_bracket_at(cs, i);
}

/// A condition path: field/index steps only (must resolve to a single value). A
/// lone `.` is the identity (the value under test itself).
fn parse_cond_path(cs: &[char], i: usize) -> (r: Result<(Vec<PathSeg>, usize), String>)
    requires
        i < cs@.len(),
        cs@[i as int] == '.' || cs@[i as int] == '[',
    ensures
        match cond_path_from(cs@, i as int, Seq::empty()) {
            Ok((segs, j)) => r matches Ok(x) && path_seg_views(x.0@) == segs && x.1 == j && i < j
                <= cs@.len(),
            Err(e) => r matches Err(x) && x@ == e,
        },
{
    let n: usize = cs.len();
    let mut segs: Vec<PathSeg> = Vec::new();
    let mut k: usize = i;
    assert(path_seg_views(segs@) =~= Seq::empty());
    loop
        invariant
            n == cs@.len(),
            i <= k <= n,
            i < n,
            k == i ==> cs@[i as int] == '.' || cs@[i as int] == '[',
            cond_path_from(cs@, k as int, path_seg_views(segs@)) == cond_path_from(
                cs@,
                i as int,
                Seq::empty(),
            ),
        decreases n - k,
    {
        let ghost before = path_seg_views(segs@);
        if k < n && cs[k] == '.' {
            if k + 1 < n && cs[k + 1] == '[' {
                k += 1;
            } else {
                let z: usize = skip_name(cs, k + 1);
                if z == k + 1 {
                    // A lone or trailing `.`: identity so far.
                    return Ok((segs, z));
                }
                segs.push(PathSeg::Field(string_of(cs, k + 1, z)));
                assert(path_seg_views(segs@) =~= before.push(
                    PathSegV::Field(cs@.subrange(k + 1, z as int)),
                ));
                k = z;
            }
        } else if k < n && cs[k] == '[' {
            match parse_bracket(cs, k) {
                Err(e) => {
                    return Err(e);
                },
                Ok((PathOp::Field(key), z)) => {
                    let ghost v = key@;
                    segs.push(PathSeg::Field(key));
                    assert(path_seg_views(segs@) =~= before.push(PathSegV::Field(v)));
                    k = z;
                },
                Ok((PathOp::Index(v), z)) => {
                    segs.push(PathSeg::Index(v));
                    assert(path_seg_views(segs@) =~= before.push(PathSegV::Index(v as int)));
                    k = z;
                },
                Ok(_) => {
                    return Err(
                        "only keys and indices are allowed in a select() path".to_owned(),
                    );
                },
            }
        } else {
            return Ok((segs, k));
        }
    }
}

/// The literal that a bare word stands for.
pub open spec fn bareword(tok: Seq<char>) -> Result<OperandV, Seq<char>> {
    if tok == "true"@ {
        Ok(OperandV::Lit(LiteralV::Bool(true)))
    } else if tok == "false"@ {
        Ok(OperandV::Lit(LiteralV::Bool(false)))
    } else if tok == "null"@ {
        Ok(OperandV::Lit(LiteralV::Null))
    } else if tok.len() == 0 {
        Err("expected a value in condition"@)
    } else if float_text(tok) {
        Ok(OperandV::Lit(LiteralV::Num(tok)))
    } else {
        Err("not a value to compare against: "@ + tok)
    }
}

fn parse_bareword(tok: String) -> (r: Result<Operand, String>)
    ensures
        match bareword(tok@) {
            Ok(o) => r matches Ok(x) && x@ == o,
            Err(e) => r matches Err(x) && x@ == e,
        },
{
    if tok == "true".to_owned() {
        Ok(Operand::Lit(Literal::Bool(true)))
    } else if tok == "false".to_owned() {
        Ok(Operand::Lit(Literal::Bool(false)))
    } else if tok == "null".to_owned() {
        Ok(Operand::Lit(Literal::Null))
    } else if tok.as_str().unicode_len() == 0 {
        Err("expected a value in condition".to_owned())
    } else if is_float_text(tok.as_str()) {
        Ok(Operand::Lit(Literal::Num(tok)))
    } else {
        Err(joint("not a value to compare against: ", tok.as_str()))
    }
}

/// The characters that end a bare word.
pub open spec fn bareword_stop(c: char) -> bool {
    white_space(c) || c == '(' || c == ')' || c == ',' || c == '<' || c == '>' || c == '=' || c
        == '!' || c == '~'
}

pub open spec fn bareword_end(cs: Seq<char>, i: int) -> int
    decreases cs.len() - i,
{
    if i < cs.len() && !bareword_stop(cs[i]) {
        bareword_end(cs, i + 1)
    } else {
        i
    }
}

/// The operand at `i`, and the position behind it.
pub open spec fn operand_at(cs: Seq<char>, i: int) -> Result<(OperandV, int), Seq<char>> {
    let a = blank_end(cs, i);
    if a >= cs.len() {
        Err("expected a value or path in condition"@)
    } else if cs[a] == '.' || cs[a] == '[' {
        match cond_path_from(cs, a, Seq::empty()) {
            Ok((segs, z)) => Ok((OperandV::Path(segs), z)),
            Err(e) => Err(e),
        }
    } else if cs[a] == '"' {
        match quoted_from(cs, a + 1, Seq::empty()) {
            Ok((s, z)) => Ok((OperandV::Lit(LiteralV::Str(s)), z)),
            Err(e) => Err(e),
        }
    } else {
        let z = bareword_end(cs, a);
        match bareword(cs.subrange(a, z)) {
            Ok(o) => Ok((o, z)),
            Err(e) => Err(e),
        }
    }
}

fn parse_operand(cs: &[char], i: usize) -> (r: Result<(Operand, usize), String>)
    requires
        i <= cs@.len(),
    ensures
        match operand_at(cs@, i as int) {
            Ok((o, j)) => r matches Ok(x) && x.0@ == o && x.1 == j && i < j <= cs@.len(),
            Err(e) => r matches Err(x) && x@ == e,
        },
{
    let a: usize = skip_ws(cs, i);
    if a >= cs.len() {
        return Err("expected a value or path in condition".to_owned());
    }
    let c: char = cs[a];
    if c == '.' || c == '[' {
        match parse_cond_path(cs, a) {
            Ok((segs, z)) => Ok((Operand::Path(segs), z)),
            Err(e) => Err(e),
        }
    } else if c == '"' {
        match parse_quoted(cs, a) {
            Ok((s, z)) => Ok((Operand::Lit(Literal::Str(s)), z)),
            Err(e) => Err(e),
        }
    } else {
        let mut z: usize = a;
        while z < cs.len() && !is_white_space(cs[z]) && !matches!(
            cs[z],
            '(' | ')' | ',' | '<' | '>' | '=' | '!' | '~'
        )
            invariant
                a <= z <= cs@.len(),
                bareword_end(cs@, z as int) == bareword_end(cs@, a as int),
            decreases cs@.len() - z,
        {
            z += 1;
        }
        proof {
            reveal_strlit("true");
            reveal_strlit("false");
            reveal_strlit("null");
            assert("true"@.len() == 4 && "false"@.len() == 5 && "null"@.len() == 4);
        }
        match parse_bareword(string_of(cs, a, z)) {
            Ok(o) => Ok((o, z)),
            Err(e) => Err(e),
        }
    }
}

/// The position behind the keyword `kw` at `i`, if it stands there as a word.
pub open spec fn keyword_end(cs: Seq<char>, i: int, kw: Seq<char>) -> Option<int> {
    let k = blank_end(cs, i);
    let z = k + kw.len();
    if occurs_at(cs, kw, k) && !(z < cs.len() && word_char(cs[z])) {
        Some(z)
    } else {
        None
    }
}

/// Match a whole-word keyword (`and`/`or`): the position behind it on success.
fn match_keyword(cs: &[char], i: usize, kw: &str) -> (r: Option<usize>)
    requires
        i <= cs@.len(),
    ensures
        match keyword_end(cs@, i as int, kw@) {
            Some(z) => r == Some(z as usize) && z == z as usize && i + kw@.len() <= z <= cs@.len(),
            None => r is None,
        },
{
    let k: usize = skip_ws(cs, i);
    let w = chars_of(kw);
    if !stands_at(cs, w.as_slice(), k) {
        return None;
    }
    let n: usize = cs.len();
    let z: usize = k + w.len();
    if z < n && is_word_char(cs[z]) {
        None
    } else {
        Some(z)
    }
}

/// The match operator at `i` (whether it is negated), and the position behind it.
pub open spec fn tilde_at(cs: Seq<char>, i: int) -> Option<(bool, int)> {
    if i + 1 < cs.len() && cs[i] == '!' && cs[i + 1] == '~' {
        Some((true, i + 2))
    } else if i < cs.len() && cs[i] == '~' {
        Some((false, i + 1))
    } else {
        None
    }
}

/// Match a `~` or a `!~` (negated).
fn match_tilde(cs: &[char], i: usize) -> (r: Option<(bool, usize)>)
    requires
        i <= cs@.len(),
    ensures
        match tilde_at(cs@, i as int) {
            Some((neg, z)) => r matches Some(x) && x.0 == neg && x.1 == z && i < z <= cs@.len(),
            None => r is None,
        },
{
    let n: usize = cs.len();
    if i < n && n - i >= 2 && cs[i] == '!' && cs[i + 1] == '~' {
        Some((true, i + 2))
    } else if i < n && cs[i] == '~' {
        Some((false, i + 1))
    } else {
        None
    }
}

/// The comparison operator at `i`, and the position behind it.
pub open spec fn comparison_at(cs: Seq<char>, i: int) -> Option<(CmpOp, int)> {
    let eq = i + 1 < cs.len() && cs[i + 1] == '=';
    if i >= cs.len() {
        None
    } else if eq && cs[i] == '=' {
        Some((CmpOp::Eq, i + 2))
    } else if eq && cs[i] == '!' {
        Some((CmpOp::Ne, i + 2))
    } else if eq && cs[i] == '<' {
        Some((CmpOp::Le, i + 2))
    } else if eq && cs[i] == '>' {
        Some((CmpOp::Ge, i + 2))
    } else if cs[i] == '<' {
        Some((CmpOp::Lt, i + 1))
    } else if cs[i] == '>' {
        Some((CmpOp::Gt, i + 1))
    } else {
        None
    }
}

fn match_comparison(cs: &[char], i: usize) -> (r: Option<(CmpOp, usize)>)
    requires
        i <= cs@.len(),
    ensures
        match comparison_at(cs@, i as int) {
            Some((op, z)) => r matches Some(x) && x.0 == op && x.1 == z && i < z <= cs@.len(),
            None => r is None,
        },
{
    let n: usize = cs.len();
    if i >= n {
        return None;
    }
    let c: char = cs[i];
    let eq = n - i >= 2 && cs[i + 1] == '=';
    if eq && c == '=' {
        Some((CmpOp::Eq, i + 2))
    } else if eq && c == '!' {
        Some((CmpOp::Ne, i + 2))
    } else if eq && c == '<' {
        Some((CmpOp::Le, i + 2))
    } else if eq && c == '>' {
        Some((CmpOp::Ge, i + 2))
    } else if c == '<' {
        Some((CmpOp::Lt, i + 1))
    } else if c == '>' {
        Some((CmpOp::Gt, i + 1))
    } else {
        None
    }
}

/// A comparison, a match or a bare operand at `i`, and the position behind it.
pub open spec fn test_at(cs: Seq<char>, i: int) -> Result<(CondV, int), Seq<char>> {
    match operand_at(cs, i) {
        Err(e) => Err(e),
        Ok((left, z)) => {
            let z = blank_end(cs, z);
            if let Some((negated, y)) = tilde_at(cs, z) {
                match operand_at(cs, blank_end(cs, y)) {
                    Err(e) => Err(e),
                    Ok((OperandV::Lit(LiteralV::Str(s)), x)) => match query_pattern(s) {
                        Err(e) => Err(e),
                        Ok(pattern) => Ok((CondV::Match { lhs: left, pattern, negated }, x)),
                    },
                    Ok(_) => Err("~ needs a \"pattern\" string on its right"@),
                }
            } else if let Some((op, y)) = comparison_at(cs, z) {
                match operand_at(cs, y) {
                    Err(e) => Err(e),
                    Ok((right, x)) => Ok((CondV::Cmp(left, op, right), x)),
                }
            } else {
                Ok((CondV::Truthy(left), z))
            }
        },
    }
}

fn parse_test(cs: &[char], i: usize) -> (r: Result<(Cond, usize), String>)
    requires
        i <= cs@.len(),
    ensures
        match test_at(cs@, i as int) {
            Ok((c, j)) => r matches Ok(x) && x.0.model() == c && x.1 == j && i < j <= cs@.len(),
            Err(e) => r matches Err(x) && x@ == e,
        },
{
    let (left, z) = match parse_operand(cs, i) {
        Err(e) => {
            return Err(e);
        },
        Ok(x) => x,
    };
    let z: usize = skip_ws(cs, z);
    if let Some((negated, y)) = match_tilde(cs, z) {
        let y: usize = skip_ws(cs, y);
        match parse_operand(cs, y) {
            Err(e) => Err(e),
            Ok((Operand::Lit(Literal::Str(s)), x)) => match Pattern::parse(s.as_str()) {
                Err(e) => Err(e),
                Ok(pattern) => Ok((Cond::Match { lhs: left, pattern, negated }, x)),
            },
            Ok(_) => Err("~ needs a \"pattern\" string on its right".to_owned()),
        }
    } else if let Some((op, y)) = match_comparison(cs, z) {
        match parse_operand(cs, y) {
            Err(e) => Err(e),
            Ok((right, x)) => Ok((Cond::Cmp(left, op, right), x)),
        }
    } else {
        Ok((Cond::Truthy(left), z))
    }
}

/// The alternatives at `i`, and the position behind them: `or` binds weaker than
/// `and`, and both bind to the left.
pub open spec fn or_at(cs: Seq<char>, i: int) -> Result<(CondV, int), Seq<char>>
    decreases cs.len() - i, 4int when 0 <= i <= cs.len() via or_at_decreases
{
    match and_at(cs, i) {
        Err(e) => Err(e),
        Ok((left, j)) if i <= j <= cs.len() => or_tail(cs, j, left),
        Ok(_) => Err(Seq::empty()),
    }
}

#[via_fn]
proof fn or_at_decreases(cs: Seq<char>, i: int) {
}

/// What follows the alternative `left`.
pub open spec fn or_tail(cs: Seq<char>, i: int, left: CondV) -> Result<(CondV, int), Seq<char>>
    decreases cs.len() - i, 3int when 0 <= i <= cs.len() via or_tail_decreases
{
    match keyword_end(cs, i, seq!['o', 'r']) {
        None => Ok((left, i)),
        Some(k) => match and_at(cs, k) {
            Err(e) => Err(e),
            Ok((right, j)) if k <= j <= cs.len() => or_tail(
                cs,
                j,
                CondV::Or(Box::new(left), Box::new(right)),
            ),
            Ok(_) => Err(Seq::empty()),
        },
    }
}

#[via_fn]
proof fn or_tail_decreases(cs: Seq<char>, i: int, left: CondV) {
    lemma_blank_end(cs, i);
}

/// The conjunction at `i`, and the position behind it.
pub open spec fn and_at(cs: Seq<char>, i: int) -> Result<(CondV, int), Seq<char>>
    decreases cs.len() - i, 2int when 0 <= i <= cs.len() via and_at_decreases
{
    match primary_at(cs, i) {
        Err(e) => Err(e),
        Ok((left, j)) if i <= j <= cs.len() => and_tail(cs, j, left),
        Ok(_) => Err(Seq::empty()),
    }
}

#[via_fn]
proof fn and_at_decreases(cs: Seq<char>, i: int) {
}

/// What follows the conjunct `left`.
pub open spec fn and_tail(cs: Seq<char>, i: int, left: CondV) -> Result<(CondV, int), Seq<char>>
    decreases cs.len() - i, 1int when 0 <= i <= cs.len() via and_tail_decreases
{
    match keyword_end(cs, i, seq!['a', 'n', 'd']) {
        None => Ok((left, i)),
        Some(k) => match primary_at(cs, k) {
            Err(e) => Err(e),
            Ok((right, j)) if k <= j <= cs.len() => and_tail(
                cs,
                j,
                CondV::And(Box::new(left), Box::new(right)),
            ),
            Ok(_) => Err(Seq::empty()),
        },
    }
}

#[via_fn]
proof fn and_tail_decreases(cs: Seq<char>, i: int, left: CondV) {
    lemma_blank_end(cs, i);
}

/// A condition in parentheses or a single test at `i`, and the position behind it.
pub open spec fn primary_at(cs: Seq<char>, i: int) -> Result<(CondV, int), Seq<char>>
    decreases cs.len() - i, 0int when 0 <= i <= cs.len() via primary_at_decreases
{
    let a = blank_end(cs, i);
    if a < cs.len() && cs[a] == '(' {
        match or_at(cs, a + 1) {
            Err(e) => Err(e),
            Ok((inner, z)) => {
                let z = blank_end(cs, z);
                if z < cs.len() && cs[z] == ')' {
                    Ok((inner, z + 1))
                } else {
                    Err("expected ')' in condition"@)
                }
            },
        }
    } else {
        test_at(cs, a)
    }
}

#[via_fn]
proof fn primary_at_decreases(cs: Seq<char>, i: int) {
    lemma_blank_end(cs, i);
}

fn parse_or(cs: &[char], i: usize) -> (r: Result<(Cond, usize), String>)
    requires
        i <= cs@.len(),
    ensures
        match or_at(cs@, i as int) {
            Ok((c, j)) => r matches Ok(x) && x.0.model() == c && x.1 == j && i < j <= cs@.len(),
            Err(e) => r matches Err(x) && x@ == e,
        },
    decreases cs@.len() - i, 4int,
{
    let (mut left, mut j) = match parse_and(cs, i) {
        Err(e) => {
            return Err(e);
        },
        Ok(x) => x,
    };
    proof {
        reveal_strlit("or");
        assert("or"@ =~= seq!['o', 'r']);
    }
    loop
        invariant
            i < j <= cs@.len(),
            "or"@ == seq!['o', 'r'],
            or_at(cs@, i as int) == or_tail(cs@, j as int, left.model()),
        decreases cs@.len() - j,
    {
        match match_keyword(cs, j, "or") {
            None => {
                return Ok((left, j));
            },
            Some(k) => match parse_and(cs, k) {
                Err(e) => {
                    return Err(e);
                },
                Ok((right, z)) => {
                    left = Cond::Or(Box::new(left), Box::new(right));
                    j = z;
                },
            },
        }
    }
}

fn parse_and(cs: &[char], i: usize) -> (r: Result<(Cond, usize), String>)
    requires
        i <= cs@.len(),
    ensures
        match and_at(cs@, i as int) {
            Ok((c, j)) => r matches Ok(x) && x.0.model() == c && x.1 == j && i < j <= cs@.len(),
            Err(e) => r matches Err(x) && x@ == e,
        },
    decreases cs@.len() - i, 2int,
{
    let (mut left, mut j) = match parse_primary(cs, i) {
        Err(e) => {
            return Err(e);
        },
        Ok(x) => x,
    };
    proof {
        reveal_strlit("and");
        assert("and"@ =~= seq!['a', 'n', 'd']);
    }
    loop
        invariant
            i < j <= cs@.len(),
            "and"@ == seq!['a', 'n', 'd'],
            and_at(cs@, i as int) == and_tail(cs@, j as int, left.model()),
        decreases cs@.len() - j,
    {
        match match_keyword(cs, j, "and") {
            None => {
                return Ok((left, j));
            },
            Some(k) => match parse_primary(cs, k) {
                Err(e) => {
                    return Err(e);
                },
                Ok((right, z)) => {
                    left = Cond::And(Box::new(left), Box::new(right));
                    j = z;
                },
            },
        }
    }
}

fn parse_primary(cs: &[char], i: usize) -> (r: Result<(Cond, usize), String>)
    requires
        i <= cs@.len(),
    ensures
        match primary_at(cs@, i as int) {
            Ok((c, j)) => r matches Ok(x) && x.0.model() == c && x.1 == j && i < j <= cs@.len(),
            Err(e) => r matches Err(x) && x@ == e,
        },
    decreases cs@.len() - i, 0int,
{
    let n: usize = cs.len();
    let a: usize = skip_ws(cs, i);
    if a < n && cs[a] == '(' {
        match parse_or(cs, a + 1) {
            Err(e) => Err(e),
            Ok((inner, z)) => {
                let z: usize = skip_ws(cs, z);
                if z >= n || cs[z] != ')' {
                    return Err("expected ')' in condition".to_owned());
                }
                Ok((inner, z + 1))
            },
        }
    } else {
        parse_test(cs, a)
    }
}

/// The condition that `inner` stands for, if nothing is left over.
pub open spec fn condition(inner: Seq<char>) -> Result<CondV, Seq<char>> {
    match or_at(inner, 0) {
        Err(e) => Err(e),
        Ok((c, z)) => {
            let z = blank_end(inner, z);
            if z >= inner.len() {
                Ok(c)
            } else {
                Err("unexpected '"@ + seq![inner[z]] + "' in condition"@)
            }
        },
    }
}

/// Parse the inside of a `select( … )`, by recursive descent.
fn parse_cond(cs: &[char]) -> (r: Result<Cond, String>)
    ensures
        match condition(cs@) {
            Ok(c) => r matches Ok(x) && x.model() == c,
            Err(e) => r matches Err(x) && x@ == e,
        },
{
    match parse_or(cs, 0) {
        Err(e) => Err(e),
        Ok((c, z)) => {
            let z: usize = skip_ws(cs, z);
            if z != cs.len() {
                return Err(
                    between("unexpected '", char_string(cs[z]).as_str(), "' in condition"),
                );
            }
            Ok(c)
        },
    }
}

// ---------------------------------------------------------------------------
// Programs
// ---------------------------------------------------------------------------
/// The inside of the parentheses, where `s` is `select( … )`.
pub open spec fn select_inner(s: Seq<char>) -> Option<Seq<char>> {
    let t = trimmed_start(s.skip(6));
    if has_prefix(s, "select"@) && t.len() >= 2 && t[0] == '(' && t.last() == ')' {
        Some(t.subrange(1, t.len() - 1))
    } else {
        None
    }
}

/// If `cs[from..to]` is `select( … )`, the range inside the parentheses.
fn strip_select(cs: &[char]) -> (r: Option<(usize, usize)>)
    ensures
        match select_inner(cs@) {
            Some(t) => r matches Some(x) && x.0 <= x.1 <= cs@.len() && cs@.subrange(
                x.0 as int,
                x.1 as int,
            ) == t,
            None => r is None,
        },
{
    let w = chars_of("select");
    proof {
        reveal_strlit("select");
        assert(w@.len() == 6);
    }
    if !stands_at(cs, w.as_slice(), 0) {
        return None;
    }
    let n: usize = cs.len();
    let mut i: usize = 6;
    assert(cs@.subrange(6, n as int) =~= cs@.skip(6));
    while i < n && is_white_space(cs[i])
        invariant
            6 <= i <= n,
            n == cs@.len(),
            trimmed_start(cs@.subrange(i as int, n as int)) == trimmed_start(cs@.skip(6)),
        decreases n - i,
    {
        proof {
            assert(cs@.subrange(i as int, n as int).skip(1) =~= cs@.subrange(i + 1, n as int));
        }
        i += 1;
    }
    let ghost t = trimmed_start(cs@.skip(6));
    assert(t == cs@.subrange(i as int, n as int));
    if n - i >= 2 && cs[i] == '(' && cs[n - 1] == ')' {
        assert(t.subrange(1, t.len() - 1) =~= cs@.subrange(i + 1, n - 1));
        Some((i + 1, n - 1))
    } else {
        None
    }
}

/// The term that `src` stands for.
pub open spec fn term(src: Seq<char>) -> Result<TermV, Seq<char>> {
    let s = trimmed(src);
    if s.len() == 0 || s == seq!['.'] {
        Ok(TermV::Path(Seq::empty()))
    } else {
        match select_inner(s) {
            Some(inner) => match condition(inner) {
                Ok(c) => Ok(TermV::Select(c)),
                Err(e) => Err(e),
            },
            None => match ops_from(s, 0) {
                Ok(ops) => Ok(TermV::Path(ops)),
                Err(e) => Err(e),
            },
        }
    }
}

fn parse_term(src: &[char]) -> (r: Result<Term, String>)
    ensures
        match term(src@) {
            Ok(t) => r matches Ok(x) && x@ == t,
            Err(e) => r matches Err(x) && x@ == e,
        },
{
    let (a, z) = trim_range(src, 0, src.len());
    assert(src@.subrange(0, src@.len() as int) =~= src@);
    let s: &[char] = vstd::slice::slice_subrange(src, a, z);
    if s.len() == 0 || (s.len() == 1 && s[0] == '.') {
        let ops: Vec<PathOp> = Vec::new();
        proof {
            assert(op_views(ops@) =~= Seq::empty());
            if s@.len() == 1 {
                assert(s@ =~= seq!['.']);
            }
        }
        return Ok(Term::Path(ops));
    }
    match strip_select(s) {
        Some((i, j)) => match parse_cond(vstd::slice::slice_subrange(s, i, j)) {
            Ok(c) => Ok(Term::Select(c)),
            Err(e) => Err(e),
        },
        None => match parse_path_ops(s) {
            Ok(ops) => Ok(Term::Path(ops)),
            Err(e) => Err(e),
        },
    }
}

/// The terms that the sources from number `k` on stand for; the first error
/// where there is one.
pub open spec fn terms_from(srcs: Seq<Seq<char>>, k: int) -> Result<Seq<TermV>, Seq<char>>
    decreases srcs.len() - k,
{
    if k >= srcs.len() {
        Ok(Seq::empty())
    } else {
        match term(srcs[k]) {
            Err(e) => Err(e),
            Ok(t) => match terms_from(srcs, k + 1) {
                Err(e) => Err(e),
                Ok(ts) => Ok(seq![t] + ts),
            },
        }
    }
}

fn parse_stage(src: &[char]) -> (r: Result<Stage, String>)
    ensures
        match terms_from(parts(src@, ','), 0) {
            Ok(ts) => r matches Ok(x) && term_views(x.terms@) == ts,
            Err(e) => r matches Err(x) && x@ == e,
        },
{
    let srcs = split_top(src, ',');
    let ghost views = part_views(srcs@);
    let mut terms: Vec<Term> = Vec::new();
    let mut k: usize = 0;
    proof {
        if let Ok(ts) = terms_from(views, 0) {
            assert(term_views(terms@) + ts =~= ts);
        }
    }
    while k < srcs.len()
        invariant
            k <= srcs@.len(),
            views == part_views(srcs@),
            views == parts(src@, ','),
            match terms_from(views, k as int) {
                Err(e) => terms_from(views, 0) == Err::<Seq<TermV>, Seq<char>>(e),
                Ok(ts) => terms_from(views, 0) == Ok::<Seq<TermV>, Seq<char>>(
                    term_views(terms@) + ts,
                ),
            },
        decreases srcs@.len() - k,
    {
        let ghost before = term_views(terms@);
        assert(views[k as int] == srcs@[k as int]@);
        match parse_term(srcs[k].as_slice()) {
            Err(e) => {
                return Err(e);
            },
            Ok(t) => {
                let ghost v = t@;
                terms.push(t);
                proof {
                    assert(term_views(terms@) =~= before + seq![v]);
                    if let Ok(ts) = terms_from(views, k + 1) {
                        assert(before + (seq![v] + ts) =~= term_views(terms@) + ts);
                    }
                }
            },
        }
        k += 1;
    }
    assert(term_views(terms@) + Seq::<TermV>::empty() =~= term_views(terms@));
    Ok(Stage { terms })
}

/// The stages that the sources from number `k` on stand for; the first error
/// where there is one.
pub open spec fn stages_from(srcs: Seq<Seq<char>>, k: int) -> Result<
    Seq<Seq<TermV>>,
    Seq<char>,
>
    decreases srcs.len() - k,
{
    if k >= srcs.len() {
        Ok(Seq::empty())
    } else {
        match terms_from(parts(srcs[k], ','), 0) {
            Err(e) => Err(e),
            Ok(t) => match stages_from(srcs, k + 1) {
                Err(e) => Err(e),
                Ok(ts) => Ok(seq![t] + ts),
            },
        }
    }
}

/// The program that `src` stands for, or the message that refuses it.
pub open spec fn pipeline(src: Seq<char>) -> Result<Seq<Seq<TermV>>, Seq<char>> {
    stages_from(parts(src, '|'), 0)
}

/// Compile a typed program into stages and terms. Returns a footer-ready error
/// string on a malformed expression so the prompt can show it without losing
/// the text.
pub fn parse_pipeline(src: &str) -> (r: Result<Program, String>)
    ensures
        match pipeline(src@) {
            Ok(p) => r matches Ok(x) && x@ == p,
            Err(e) => r matches Err(x) && x@ == e,
        },
{
    let cs = chars_of(src);
    let srcs = split_top(cs.as_slice(), '|');
    let ghost views = part_views(srcs@);
    let mut stages: Vec<Stage> = Vec::new();
    let mut k: usize = 0;
    proof {
        if let Ok(ts) = stages_from(views, 0) {
            assert(stage_views(stages@) + ts =~= ts);
        }
    }
    while k < srcs.len()
        invariant
            k <= srcs@.len(),
            views == part_views(srcs@),
            views == parts(src@, '|'),
            match stages_from(views, k as int) {
                Err(e) => stages_from(views, 0) == Err::<Seq<Seq<TermV>>, Seq<char>>(e),
                Ok(ts) => stages_from(views, 0) == Ok::<Seq<Seq<TermV>>, Seq<char>>(
                    stage_views(stages@) + ts,
                ),
            },
        decreases srcs@.len() - k,
    {
        let ghost before = stage_views(stages@);
        assert(views[k as int] == srcs@[k as int]@);
        match parse_stage(srcs[k].as_slice()) {
            Err(e) => {
                return Err(e);
            },
            Ok(stage) => {
                let ghost v = term_views(stage.terms@);
                stages.push(stage);
                proof {
                    assert(stage_views(stages@) =~= before + seq![v]);
                    if let Ok(ts) = stages_from(views, k + 1) {
                        assert(before + (seq![v] + ts) =~= stage_views(stages@) + ts);
                    }
                }
            },
        }
        k += 1;
    }
    assert(stage_views(stages@) + Seq::<Seq<TermV>>::empty() =~= stage_views(stages@));
    Ok(Program { stages })
}

} // verus!
