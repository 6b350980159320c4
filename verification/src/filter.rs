//! jq-style selection filter: an evaluator that walks the byte-range tree and
//! hands over the byte ranges of the nodes a program selects.
//!
//! This is deliberately a selection subset of jq, not a transform language: it
//! only ever picks out sub-values that already exist in the document, so every
//! result is a `[start, end)` slice of the buffer, never a materialized value.
//! That keeps memory constant (a filter over a 1 GB array collects byte offsets,
//! not copies) and lets the result be displayed by the same lazy tree as
//! everything else. The programs are described in [`crate::program`].
//!
//! Everything is lenient (jq's `?`): a path that doesn't exist on a value simply
//! produces no output rather than erroring, so `.a.b` over a mixed array yields
//! results only for the elements that have `a.b`. Inside `select`, a missing path
//! reads as `null` (so `select(.x == null)` matches values lacking `x`).
//!
//! Two intentional divergences from jq, both in service of staying zero-copy: a
//! slice `.[1:3]` yields the elements as a stream (like `.[1:3][]`) rather than a
//! new sub-array, and cross-type comparisons are simply unequal-and-unordered
//! rather than following jq's total type order.

pub use crate::program::{parse_pipeline, Program};
use crate::program::{
    op_views, path_seg_views, stage_views, CmpOp, Cond, CondV, Literal, LiteralV, Operand,
    OperandV, PathOp, PathOpV, PathSeg, PathSegV, Stage, Term, TermV,
};
use crate::scanner::{
    addressable, after_child, children_from, decode_str, decoded, lemma_next_child, level_of,
    level_of_lines, level_wf, next_child, ChildV, Cursor, Kind, LevelV, MAX_DEPTH, RawChild,
};
use crate::search::pattern_matches;
use crate::text::{
    between, chars_of, decimal, decimal_string, float_text, from_utf8, is_float_text, trim,
    trimmed,
};
use crate::tree::value_range;
use crate::worker::{
    lemma_progress_bail, lemma_progress_none, lemma_progress_step, lemma_progress_stopped, outcome,
    progress, Outlet,
};
use vstd::prelude::*;
use vstd::utf8::*;

verus! {

/// Cap on collected results: bounds memory and keeps a pathological `.[]` over a
/// huge array (every element selected) from filling the pane without end.
pub const MAX_HITS: usize = 5000;

/// One selected node: a byte range into the source plus a display label built
/// from the path that reached it (e.g. `users[3].name`). `end_exact` tells
/// whether the range's closer is certain, as it is for scalars.
pub struct FilterHit {
    pub label: String,
    pub start: usize,
    pub end: usize,
    pub kind: Kind,
    pub end_exact: bool,
}

/// A result as the contracts speak of it.
pub struct HitV {
    pub label: Seq<char>,
    pub start: int,
    pub end: int,
    pub kind: Kind,
    pub end_exact: bool,
}

impl View for FilterHit {
    type V = HitV;

    open spec fn view(&self) -> HitV {
        HitV {
            label: self.label@,
            start: self.start as int,
            end: self.end as int,
            kind: self.kind,
            end_exact: self.end_exact,
        }
    }
}

pub open spec fn hit_views(hits: Seq<FilterHit>) -> Seq<HitV> {
    Seq::new(hits.len(), |i: int| hits[i]@)
}

/// A value of the document: its byte range and its kind.
pub struct ValueV {
    pub start: int,
    pub end: int,
    pub kind: Kind,
}

pub open spec fn value_of(c: ChildV) -> ValueV {
    ValueV { start: c.start, end: c.end, kind: c.kind }
}

pub open spec fn value_wf(b: Seq<u8>, v: ValueV) -> bool {
    value_range(b, v.start, v.end, v.kind)
}

/// The elements of an array or the members of an object.
pub open spec fn elements(b: Seq<u8>, v: ValueV) -> Seq<ChildV> {
    children_from(b, level_of(v.start, v.end, v.kind is Array))
}

pub proof fn lemma_level_of_wf(b: Seq<u8>, v: ValueV)
    requires
        value_wf(b, v),
        v.kind.is_container(),
    ensures
        level_wf(b, level_of(v.start, v.end, v.kind is Array)),
{
}

pub proof fn lemma_child_value_wf(b: Seq<u8>, s: LevelV)
    requires
        addressable(b),
        level_wf(b, s),
        next_child(b, s) is Some,
    ensures
        value_wf(b, value_of(next_child(b, s)->0)),
{
    lemma_next_child(b, s);
}

// ---------------------------------------------------------------------------
// Numbers
// ---------------------------------------------------------------------------
/// Whether `f` can give `r` for the text `t`.
pub open spec fn reads_as<N: Fn(&str) -> u64>(f: N, t: Seq<char>, r: u64) -> bool {
    exists|s: &str| s@ == t && #[trigger] call_ensures(f, (s,), r)
}

/// A reader of numbers: takes every text, and gives one result for one text.
pub open spec fn reads_numbers<N: Fn(&str) -> u64>(f: N) -> bool {
    &&& forall|s: &str| #[trigger] call_requires(f, (s,))
    &&& forall|s: &str, t: &str, r: u64, q: u64|
        s@ == t@ && #[trigger] call_ensures(f, (s,), r) && #[trigger] call_ensures(f, (t,), q)
            ==> r == q
}

/// What a reader of numbers gives for a text.
pub open spec fn number_of<N: Fn(&str) -> u64>(f: N, t: Seq<char>) -> u64 {
    choose|r: u64| reads_as(f, t, r)
}

pub open spec fn numbers<N: Fn(&str) -> u64>(f: N) -> spec_fn(Seq<char>) -> u64 {
    |t: Seq<char>| number_of(f, t)
}

fn read_number<N: Fn(&str) -> u64>(read: &N, t: &str) -> (r: u64)
    requires
        reads_numbers(*read),
    ensures
        r == numbers(*read)(t@),
{
    let r: u64 = read(t);
    assert(reads_as(*read, t@, r));
    r
}

/// The sign bit of a binary64 number.
pub const SIGN_BIT: u64 = 0x8000_0000_0000_0000;

/// The bits of positive infinity in binary64. Greater magnitudes are not numbers.
pub const INFINITY_BITS: u64 = 0x7ff0_0000_0000_0000;

/// The place of the binary64 number with the given bits in the order of numbers;
/// none for what is not a number. Both zeros have the same place.
pub open spec fn number_rank(bits: u64) -> Option<int> {
    let magnitude = if bits >= SIGN_BIT {
        bits - SIGN_BIT
    } else {
        bits as int
    };
    if magnitude > INFINITY_BITS {
        None
    } else if bits >= SIGN_BIT {
        Some(-magnitude)
    } else {
        Some(magnitude)
    }
}

fn rank_of(bits: u64) -> (r: Option<i64>)
    ensures
        match number_rank(bits) {
            Some(n) => r == Some(n as i64) && n == n as i64,
            None => r is None,
        },
{
    let negative = bits >= SIGN_BIT;
    let magnitude: u64 = if negative {
        bits - SIGN_BIT
    } else {
        bits
    };
    if magnitude > INFINITY_BITS {
        None
    } else if negative {
        Some(-(magnitude as i64))
    } else {
        Some(magnitude as i64)
    }
}

// ---------------------------------------------------------------------------
// Conditions
// ---------------------------------------------------------------------------
/// A value pulled out for comparison. Containers are `Other` (truthy, but never
/// equal or ordered against a scalar).
pub enum Val {
    /// The bits of a binary64 number.
    Num(u64),
    Str(String),
    Bool(bool),
    Null,
    Other,
}

/// A value for comparison as the contracts speak of it.
pub enum ValV {
    Num(u64),
    Str(Seq<char>),
    Bool(bool),
    Null,
    Other,
}

impl View for Val {
    type V = ValV;

    open spec fn view(&self) -> ValV {
        match self {
            Val::Num(n) => ValV::Num(*n),
            Val::Str(s) => ValV::Str(s@),
            Val::Bool(v) => ValV::Bool(*v),
            Val::Null => ValV::Null,
            Val::Other => ValV::Other,
        }
    }
}

/// How one value stands to another.
#[derive(Clone, Copy, PartialEq, Eq, Debug, Structural)]
pub enum Rel {
    Less,
    Equal,
    Greater,
}

pub open spec fn int_rel(x: int, y: int) -> Rel {
    if x < y {
        Rel::Less
    } else if x == y {
        Rel::Equal
    } else {
        Rel::Greater
    }
}

/// The order of texts: character by character, and a beginning before the whole.
pub open spec fn text_rel(a: Seq<char>, c: Seq<char>) -> Rel
    decreases a.len(),
{
    if a.len() == 0 {
        if c.len() == 0 {
            Rel::Equal
        } else {
            Rel::Less
        }
    } else if c.len() == 0 {
        Rel::Greater
    } else if a[0] == c[0] {
        text_rel(a.skip(1), c.skip(1))
    } else if a[0] < c[0] {
        Rel::Less
    } else {
        Rel::Greater
    }
}

fn order_texts(a: &str, c: &str) -> (r: Rel)
    ensures
        r == text_rel(a@, c@),
{
    let x = chars_of(a);
    let y = chars_of(c);
    let mut i: usize = 0;
    assert(x@.skip(0) =~= x@ && y@.skip(0) =~= y@);
    while i < x.len() && i < y.len()
        invariant
            i <= x@.len(),
            i <= y@.len(),
            text_rel(x@.skip(i as int), y@.skip(i as int)) == text_rel(a@, c@),
        decreases x@.len() - i,
    {
        proof {
            assert(x@.skip(i as int).skip(1) =~= x@.skip(i + 1));
            assert(y@.skip(i as int).skip(1) =~= y@.skip(i + 1));
        }
        if x[i] < y[i] {
            return Rel::Less;
        }
        if y[i] < x[i] {
            return Rel::Greater;
        }
        i += 1;
    }
    if i < y.len() {
        Rel::Less
    } else if i < x.len() {
        Rel::Greater
    } else {
        Rel::Equal
    }
}

/// How two values stand to each other: numbers, strings and booleans are ordered
/// among themselves, and null is equal to null. Anything else is unordered.
pub open spec fn val_rel(a: ValV, c: ValV) -> Option<Rel> {
    match (a, c) {
        (ValV::Num(x), ValV::Num(y)) => match (number_rank(x), number_rank(y)) {
            (Some(p), Some(q)) => Some(int_rel(p, q)),
            _ => None,
        },
        (ValV::Str(x), ValV::Str(y)) => Some(text_rel(x, y)),
        (ValV::Bool(x), ValV::Bool(y)) => Some(
            int_rel(
                if x {
                    1
                } else {
                    0
                },
                if y {
                    1
                } else {
                    0
                },
            ),
        ),
        (ValV::Null, ValV::Null) => Some(Rel::Equal),
        _ => None,
    }
}

fn relate(a: &Val, c: &Val) -> (r: Option<Rel>)
    ensures
        r == val_rel(a@, c@),
{
    match (a, c) {
        (Val::Num(x), Val::Num(y)) => match (rank_of(*x), rank_of(*y)) {
            (Some(p), Some(q)) => Some(
                if p < q {
                    Rel::Less
                } else if p == q {
                    Rel::Equal
                } else {
                    Rel::Greater
                },
            ),
            _ => None,
        },
        (Val::Str(x), Val::Str(y)) => Some(order_texts(x.as_str(), y.as_str())),
        (Val::Bool(x), Val::Bool(y)) => Some(
            if *x == *y {
                Rel::Equal
            } else if *y {
                Rel::Less
            } else {
                Rel::Greater
            },
        ),
        (Val::Null, Val::Null) => Some(Rel::Equal),
        _ => None,
    }
}

/// Whether a comparison holds. Where there is no order, `!=` holds and nothing else.
pub open spec fn comparison(a: ValV, op: CmpOp, c: ValV) -> bool {
    let rel = val_rel(a, c);
    match op {
        CmpOp::Eq => rel == Some(Rel::Equal),
        CmpOp::Ne => rel != Some(Rel::Equal),
        CmpOp::Lt => rel == Some(Rel::Less),
        CmpOp::Le => rel == Some(Rel::Less) || rel == Some(Rel::Equal),
        CmpOp::Gt => rel == Some(Rel::Greater),
        CmpOp::Ge => rel == Some(Rel::Greater) || rel == Some(Rel::Equal),
    }
}

/// Compare two values. Mismatched types (and containers) are unequal and
/// unordered, so `==` is false, `!=` is true, and orderings are false.
pub fn compare(a: &Val, op: CmpOp, c: &Val) -> (r: bool)
    ensures
        r == comparison(a@, op, c@),
{
    match relate(a, c) {
        None => matches!(op, CmpOp::Ne),
        Some(rel) => match op {
            CmpOp::Eq => matches!(rel, Rel::Equal),
            CmpOp::Ne => !matches!(rel, Rel::Equal),
            CmpOp::Lt => matches!(rel, Rel::Less),
            CmpOp::Le => !matches!(rel, Rel::Greater),
            CmpOp::Gt => matches!(rel, Rel::Greater),
            CmpOp::Ge => !matches!(rel, Rel::Less),
        },
    }
}

pub open spec fn val_truthy(v: ValV) -> bool {
    !(v is Null) && v != ValV::Bool(false)
}

/// jq truthiness: everything is true except `false` and `null`.
pub fn truthy(v: &Val) -> (r: bool)
    ensures
        r == val_truthy(v@),
{
    !matches!(v, Val::Null | Val::Bool(false))
}

/// The position of the first child labelled `key`, from number `i` on.
pub open spec fn labelled(cs: Seq<ChildV>, key: Seq<char>, i: int) -> Option<int>
    decreases cs.len() - i,
{
    if i >= cs.len() {
        None
    } else if cs[i].label == key {
        Some(i)
    } else {
        labelled(cs, key, i + 1)
    }
}

/// The member of an object with the given key.
pub open spec fn member(b: Seq<u8>, v: ValueV, key: Seq<char>) -> Option<ValueV> {
    if v.kind is Object {
        match labelled(elements(b, v), key, 0) {
            Some(i) => Some(value_of(elements(b, v)[i])),
            None => None,
        }
    } else {
        None
    }
}

/// A (possibly negative) array index as an absolute one, where it is in the array.
pub open spec fn absolute(len: int, idx: int) -> Option<int> {
    if 0 <= idx < len {
        Some(idx)
    } else if -len <= idx < 0 {
        Some(len + idx)
    } else {
        None
    }
}

/// The element of an array with the given index, and its absolute index.
pub open spec fn element(b: Seq<u8>, v: ValueV, idx: int) -> Option<(ValueV, int)> {
    let es = elements(b, v);
    match absolute(es.len() as int, idx) {
        Some(i) if v.kind is Array => Some((value_of(es[i]), i)),
        _ => None,
    }
}

/// Where a field/index path leads from a value.
pub open spec fn at_path(b: Seq<u8>, v: ValueV, segs: Seq<PathSegV>, k: int) -> Option<ValueV>
    decreases segs.len() - k,
{
    if k >= segs.len() {
        Some(v)
    } else {
        match segs[k] {
            PathSegV::Field(key) => match member(b, v, key) {
                Some(w) => at_path(b, w, segs, k + 1),
                None => None,
            },
            PathSegV::Index(idx) => match element(b, v, idx) {
                Some((w, _)) => at_path(b, w, segs, k + 1),
                None => None,
            },
        }
    }
}

/// What a value of the document is for a comparison.
pub open spec fn comparable(
    b: Seq<u8>,
    num: spec_fn(Seq<char>) -> u64,
    v: ValueV,
) -> ValV {
    match v.kind {
        Kind::Number => {
            let bytes = b.subrange(v.start, v.end);
            let t = trimmed(decode_utf8(bytes));
            if valid_utf8(bytes) && float_text(t) {
                ValV::Num(num(t))
            } else {
                ValV::Other
            }
        },
        Kind::Str => ValV::Str(decoded(b, v.start, v.end)),
        Kind::Bool => ValV::Bool(!(v.start < b.len() && b[v.start] == 0x66)),
        Kind::Null => ValV::Null,
        _ => ValV::Other,
    }
}

/// What an operand is on a value. A path that leads nowhere is null.
pub open spec fn operand_value(
    b: Seq<u8>,
    num: spec_fn(Seq<char>) -> u64,
    v: ValueV,
    op: OperandV,
) -> ValV {
    match op {
        OperandV::Lit(LiteralV::Num(t)) => ValV::Num(num(t)),
        OperandV::Lit(LiteralV::Str(s)) => ValV::Str(s),
        OperandV::Lit(LiteralV::Bool(x)) => ValV::Bool(x),
        OperandV::Lit(LiteralV::Null) => ValV::Null,
        OperandV::Path(segs) => match at_path(b, v, segs, 0) {
            None => ValV::Null,
            Some(w) => comparable(b, num, w),
        },
    }
}

/// Whether a condition holds of a value.
pub open spec fn holds(
    b: Seq<u8>,
    num: spec_fn(Seq<char>) -> u64,
    v: ValueV,
    cond: CondV,
) -> bool
    decreases cond,
{
    match cond {
        CondV::Truthy(op) => val_truthy(operand_value(b, num, v, op)),
        CondV::Cmp(x, op, y) => comparison(
            operand_value(b, num, v, x),
            op,
            operand_value(b, num, v, y),
        ),
        CondV::Match { lhs, pattern, negated } => {
            let matched = match operand_value(b, num, v, lhs) {
                ValV::Str(hay) => pattern_matches(pattern, hay),
                _ => false,
            };
            matched != negated
        },
        CondV::And(x, y) => holds(b, num, v, *x) && holds(b, num, v, *y),
        CondV::Or(x, y) => holds(b, num, v, *x) || holds(b, num, v, *y),
    }
}

/// The first child of a container with the given label.
fn find_member(b: &[u8], start: usize, end: usize, key: &String) -> (r: Option<RawChild>)
    requires
        value_range(b@, start as int, end as int, Kind::Object),
    ensures
        ({
            let v = ValueV { start: start as int, end: end as int, kind: Kind::Object };
            match member(b@, v, key@) {
                Some(w) => r matches Some(rc) && value_of(rc@) == w && value_wf(b@, w),
                None => r is None,
            }
        }),
{
    let ghost all = children_from(b@, level_of(start as int, end as int, false));
    let mut cur = Cursor::new(start, end, false);
    let ghost mut i: int = 0;
    proof {
        lemma_level_of_wf(
            b@,
            ValueV { start: start as int, end: end as int, kind: Kind::Object },
        );
        assert(all.skip(0) =~= all);
    }
    loop
        invariant
            addressable(b@),
            cur.wf(b@),
            0 <= i <= all.len(),
            cur.model(b@).level.index == i,
            all == children_from(b@, level_of(start as int, end as int, false)),
            children_from(b@, cur.model(b@).level) == all.skip(i),
            labelled(all, key@, 0) == labelled(all, key@, i),
        decreases usize::MAX - i,
    {
        let ghost s = cur.model(b@).level;
        proof {
            lemma_next_child(b@, s);
        }
        match cur.next(b) {
            None => {
                assert(all.skip(i).len() == 0);
                return None;
            },
            Some(rc) => {
                proof {
                    lemma_child_value_wf(b@, s);
                    assert(all.skip(i)[0] == rc@);
                    assert(children_from(b@, cur.model(b@).level) =~= all.skip(i).skip(1));
                    assert(all.skip(i).skip(1) =~= all.skip(i + 1));
                }
                if rc.label == *key {
                    return Some(rc);
                }
                proof {
                    i = i + 1;
                }
            },
        }
    }
}

/// Count a container's immediate children (O(1) memory, one scan).
fn count_elements(b: &[u8], start: usize, end: usize) -> (n: usize)
    requires
        value_range(b@, start as int, end as int, Kind::Array),
    ensures
        n == children_from(b@, level_of(start as int, end as int, true)).len(),
{
    let mut cur = Cursor::new(start, end, true);
    let ghost s0 = cur.model(b@).level;
    let mut n: usize = 0;
    loop
        invariant
            addressable(b@),
            cur.wf(b@),
            s0 == level_of(start as int, end as int, true),
            cur.model(b@).level.index == n,
            n + children_from(b@, cur.model(b@).level).len() == children_from(b@, s0).len(),
        decreases usize::MAX - n,
    {
        proof {
            lemma_next_child(b@, cur.model(b@).level);
        }
        if cur.next(b).is_none() {
            return n;
        }
        n += 1;
    }
}

/// The `n`th immediate child of an array, or `None` if there are fewer.
fn nth_child(b: &[u8], start: usize, end: usize, n: u64) -> (r: Option<RawChild>)
    requires
        value_range(b@, start as int, end as int, Kind::Array),
    ensures
        ({
            let all = children_from(b@, level_of(start as int, end as int, true));
            match r {
                Some(rc) => n < all.len() && rc@ == all[n as int] && value_wf(b@, value_of(rc@)),
                None => n >= all.len(),
            }
        }),
{
    let ghost all = children_from(b@, level_of(start as int, end as int, true));
    let mut cur = Cursor::new(start, end, true);
    let mut i: u64 = 0;
    assert(all.skip(0) =~= all);
    loop
        invariant
            addressable(b@),
            cur.wf(b@),
            i <= n,
            i <= all.len(),
            cur.model(b@).level.index == i,
            all == children_from(b@, level_of(start as int, end as int, true)),
            children_from(b@, cur.model(b@).level) == all.skip(i as int),
        decreases n - i,
    {
        let ghost s = cur.model(b@).level;
        proof {
            lemma_next_child(b@, s);
        }
        match cur.next(b) {
            None => {
                assert(all.skip(i as int).len() == 0);
                return None;
            },
            Some(rc) => {
                proof {
                    lemma_child_value_wf(b@, s);
                    assert(all.skip(i as int)[0] == rc@);
                    assert(children_from(b@, cur.model(b@).level) =~= all.skip(i as int).skip(1));
                    assert(all.skip(i as int).skip(1) =~= all.skip(i + 1));
                }
                if i == n {
                    return Some(rc);
                }
                i += 1;
            },
        }
    }
}

/// Resolve a (possibly negative) array index to an absolute one, or `None` if it
/// falls outside the array.
fn abs_index(b: &[u8], start: usize, end: usize, idx: i64) -> (r: Option<u64>)
    requires
        value_range(b@, start as int, end as int, Kind::Array),
    ensures
        ({
            let len = children_from(b@, level_of(start as int, end as int, true)).len() as int;
            match r {
                Some(i) => absolute(len, idx as int) == Some(i as int),
                None => absolute(len, idx as int) is None,
            }
        }),
{
    if idx >= 0 {
        // No further than the element itself: what lies behind it may be huge.
        return match nth_child(b, start, end, idx as u64) {
            Some(_) => Some(idx as u64),
            None => None,
        };
    }
    let len: usize = count_elements(b, start, end);
    let a: i128 = len as i128 + idx as i128;
    if a >= 0 {
        Some(a as u64)
    } else {
        None
    }
}

/// The element of an array with the given index, and its absolute index.
fn find_element(b: &[u8], start: usize, end: usize, idx: i64) -> (r: Option<(RawChild, u64)>)
    requires
        value_range(b@, start as int, end as int, Kind::Array),
    ensures
        ({
            let v = ValueV { start: start as int, end: end as int, kind: Kind::Array };
            match element(b@, v, idx as int) {
                Some((w, i)) => r matches Some(x) && value_of(x.0@) == w && x.1 == i && value_wf(
                    b@,
                    w,
                ),
                None => r is None,
            }
        }),
{
    match abs_index(b, start, end, idx) {
        None => None,
        Some(i) => match nth_child(b, start, end, i) {
            None => None,
            Some(rc) => Some((rc, i)),
        },
    }
}

/// Follow a field/index path from a value to the value it points at. An empty
/// path is the identity. Negative indices count from the end.
fn resolve(b: &[u8], start: usize, end: usize, kind: Kind, segs: &Vec<PathSeg>) -> (r: Option<
    (usize, usize, Kind),
>)
    requires
        value_range(b@, start as int, end as int, kind),
    ensures
        ({
            let v = ValueV { start: start as int, end: end as int, kind };
            match at_path(b@, v, path_seg_views(segs@), 0) {
                Some(w) => r matches Some(x) && (ValueV {
                    start: x.0 as int,
                    end: x.1 as int,
                    kind: x.2,
                }) == w && value_wf(b@, w),
                None => r is None,
            }
        }),
{
    let ghost views = path_seg_views(segs@);
    let ghost v0 = ValueV { start: start as int, end: end as int, kind };
    let mut s: usize = start;
    let mut e: usize = end;
    let mut k: Kind = kind;
    let mut i: usize = 0;
    while i < segs.len()
        invariant
            i <= segs@.len(),
            views == path_seg_views(segs@),
            value_range(b@, s as int, e as int, k),
            at_path(b@, v0, views, 0) == at_path(
                b@,
                ValueV { start: s as int, end: e as int, kind: k },
                views,
                i as int,
            ),
            v0 == (ValueV { start: start as int, end: end as int, kind }),
        decreases segs@.len() - i,
    {
        assert(views[i as int] == segs@[i as int]@);
        let rc = match &segs[i] {
            PathSeg::Field(key) => {
                if !matches!(k, Kind::Object) {
                    return None;
                }
                match find_member(b, s, e, key) {
                    None => {
                        return None;
                    },
                    Some(rc) => rc,
                }
            },
            PathSeg::Index(idx) => {
                if !matches!(k, Kind::Array) {
                    return None;
                }
                match find_element(b, s, e, *idx) {
                    None => {
                        return None;
                    },
                    Some((rc, _)) => rc,
                }
            },
        };
        s = rc.start;
        e = rc.end;
        k = rc.kind;
        i += 1;
    }
    Some((s, e, k))
}

fn node_val<N: Fn(&str) -> u64>(b: &[u8], s: usize, e: usize, k: Kind, read: &N) -> (r: Val)
    requires
        value_range(b@, s as int, e as int, k),
        reads_numbers(*read),
    ensures
        r@ == comparable(
            b@,
            numbers(*read),
            (ValueV { start: s as int, end: e as int, kind: k }),
        ),
{
    match k {
        Kind::Number => match from_utf8(vstd::slice::slice_subrange(b, s, e)) {
            None => Val::Other,
            Some(t) => {
                let t = trim(t.as_str());
                if is_float_text(t.as_str()) {
                    Val::Num(read_number(read, t.as_str()))
                } else {
                    Val::Other
                }
            },
        },
        Kind::Str => Val::Str(decode_str(b, s, e)),
        Kind::Bool => Val::Bool(!(s < b.len() && b[s] == 0x66)),
        Kind::Null => Val::Null,
        Kind::Object | Kind::Array => Val::Other,
    }
}

fn operand_val<N: Fn(&str) -> u64>(
    b: &[u8],
    s: usize,
    e: usize,
    k: Kind,
    op: &Operand,
    read: &N,
) -> (r: Val)
    requires
        value_range(b@, s as int, e as int, k),
        reads_numbers(*read),
    ensures
        r@ == operand_value(
            b@,
            numbers(*read),
            (ValueV { start: s as int, end: e as int, kind: k }),
            op@,
        ),
{
    match op {
        Operand::Lit(Literal::Num(t)) => Val::Num(read_number(read, t.as_str())),
        Operand::Lit(Literal::Str(t)) => Val::Str(t.clone()),
        Operand::Lit(Literal::Bool(v)) => Val::Bool(*v),
        Operand::Lit(Literal::Null) => Val::Null,
        // A missing path reads as null (jq semantics), so `.x == null` matches
        // absent fields.
        Operand::Path(segs) => match resolve(b, s, e, k, segs) {
            None => Val::Null,
            Some((s2, e2, k2)) => node_val(b, s2, e2, k2, read),
        },
    }
}

fn cond_holds<N: Fn(&str) -> u64>(
    b: &[u8],
    s: usize,
    e: usize,
    k: Kind,
    cond: &Cond,
    read: &N,
) -> (r: bool)
    requires
        value_range(b@, s as int, e as int, k),
        reads_numbers(*read),
    ensures
        r == holds(
            b@,
            numbers(*read),
            (ValueV { start: s as int, end: e as int, kind: k }),
            cond.model(),
        ),
    decreases cond,
{
    match cond {
        Cond::Truthy(op) => truthy(&operand_val(b, s, e, k, op, read)),
        Cond::Cmp(x, op, y) => compare(
            &operand_val(b, s, e, k, x, read),
            *op,
            &operand_val(b, s, e, k, y, read),
        ),
        Cond::Match { lhs, pattern, negated } => {
            // Only a string value can match; anything else (number, container,
            // missing) is a non-match, never an error.
            let matched = match operand_val(b, s, e, k, lhs, read) {
                Val::Str(hay) => pattern.is_match(hay.as_str()),
                _ => false,
            };
            matched != *negated
        },
        Cond::And(x, y) => cond_holds(b, s, e, k, x, read) && cond_holds(b, s, e, k, y, read),
        Cond::Or(x, y) => cond_holds(b, s, e, k, x, read) || cond_holds(b, s, e, k, y, read),
    }
}

// ---------------------------------------------------------------------------
// What a program selects
// ---------------------------------------------------------------------------
pub open spec fn hit(label: Seq<char>, v: ValueV) -> HitV {
    HitV {
        label,
        start: v.start,
        end: v.end,
        kind: v.kind,
        end_exact: !v.kind.is_container(),
    }
}

/// A `.key` step behind a display path, without a leading dot at the root.
pub open spec fn field_label(label: Seq<char>, key: Seq<char>) -> Seq<char> {
    if label.len() == 0 {
        key
    } else {
        label + "."@ + key
    }
}

/// An `[i]` step behind a display path.
pub open spec fn index_label(label: Seq<char>, i: int) -> Seq<char> {
    label + ("["@ + decimal(i as nat) + "]"@)
}

/// The step to child `i` behind a display path.
pub open spec fn child_label(label: Seq<char>, c: ChildV, in_array: bool, i: int) -> Seq<char> {
    if in_array {
        index_label(label, i)
    } else {
        field_label(label, c.label)
    }
}

/// A slice bound brought into `[0, len]`; negatives count from the end.
pub open spec fn slice_bound(bound: Option<int>, len: int, default: int) -> int {
    match bound {
        None => default,
        Some(v) => if v < 0 {
            if len + v < 0 {
                0
            } else {
                len + v
            }
        } else if v < len {
            v
        } else {
            len
        },
    }
}

/// The first `h` children of a level, all of them where there are fewer.
pub open spec fn first_children(cs: Seq<ChildV>, h: int) -> Seq<ChildV> {
    if h < cs.len() {
        cs.take(h)
    } else {
        cs
    }
}

/// What a program selects and from what: the bytes, how numbers are read, the
/// stages.
pub struct QueryV {
    pub b: Seq<u8>,
    pub num: spec_fn(Seq<char>) -> u64,
    pub stages: Seq<Seq<TermV>>,
}

/// What the stages from number `k` on select from the value `v`.
pub open spec fn selected(q: QueryV, v: ValueV, k: int, label: Seq<char>) -> Seq<HitV>
    decreases q.stages.len() - k, 1int, 0int, 0int, 0int, 0int,
{
    if k >= q.stages.len() {
        seq![hit(label, v)]
    } else {
        selected_by_terms(q, v, k, 0, label)
    }
}

/// What the terms of stage `k` from number `t` on, and the stages behind it,
/// select from `v`.
pub open spec fn selected_by_terms(
    q: QueryV,
    v: ValueV,
    k: int,
    t: int,
    label: Seq<char>,
) -> Seq<HitV>
    decreases q.stages.len() - k, 0int, q.stages[k].len() - t, 0int, 0int, 0int,
{
    if k >= q.stages.len() || t >= q.stages[k].len() {
        Seq::empty()
    } else {
        let first = match q.stages[k][t] {
            TermV::Select(cond) => if holds(q.b, q.num, v, cond) {
                selected(q, v, k + 1, label)
            } else {
                Seq::empty()
            },
            TermV::Path(ops) => selected_by_path(q, v, ops, 0, k + 1, label),
        };
        first + selected_by_terms(q, v, k, t + 1, label)
    }
}

/// What the navigation steps from number `j` on, and the stages from `k` on,
/// select from `v`.
pub open spec fn selected_by_path(
    q: QueryV,
    v: ValueV,
    ops: Seq<PathOpV>,
    j: int,
    k: int,
    label: Seq<char>,
) -> Seq<HitV>
    decreases q.stages.len() - k, 2int, ops.len() - j, 0int, 0int, 0int,
{
    if j >= ops.len() {
        selected(q, v, k, label)
    } else {
        match ops[j] {
            PathOpV::Field(key) => match member(q.b, v, key) {
                Some(w) => selected_by_path(q, w, ops, j + 1, k, field_label(label, key)),
                None => Seq::empty(),
            },
            PathOpV::Index(idx) => match element(q.b, v, idx) {
                Some((w, i)) => selected_by_path(q, w, ops, j + 1, k, index_label(label, i)),
                None => Seq::empty(),
            },
            PathOpV::Slice(lo, hi) => if v.kind is Array {
                let es = elements(q.b, v);
                let l = slice_bound(lo, es.len() as int, 0);
                let h = slice_bound(hi, es.len() as int, es.len() as int);
                selected_by_each(q, first_children(es, h), true, l, ops, j + 1, k, label)
            } else {
                Seq::empty()
            },
            PathOpV::Iterate => if v.kind.is_container() {
                selected_by_each(q, elements(q.b, v), v.kind is Array, 0, ops, j + 1, k, label)
            } else {
                Seq::empty()
            },
            PathOpV::Recurse => selected_below(q, v, 0, ops, j + 1, k, label),
        }
    }
}

/// What is selected from each of the children from number `i` on.
pub open spec fn selected_by_each(
    q: QueryV,
    cs: Seq<ChildV>,
    in_array: bool,
    i: int,
    ops: Seq<PathOpV>,
    j: int,
    k: int,
    label: Seq<char>,
) -> Seq<HitV>
    decreases q.stages.len() - k, 2int, ops.len() - j, 1int, 0int, cs.len() - i,
{
    if i >= cs.len() {
        Seq::empty()
    } else {
        selected_by_path(q, value_of(cs[i]), ops, j, k, child_label(label, cs[i], in_array, i))
            + selected_by_each(q, cs, in_array, i + 1, ops, j, k, label)
    }
}

/// What is selected from `v` and every value below it, depth first, as far as
/// the depth cap allows.
pub open spec fn selected_below(
    q: QueryV,
    v: ValueV,
    depth: int,
    ops: Seq<PathOpV>,
    j: int,
    k: int,
    label: Seq<char>,
) -> Seq<HitV>
    decreases q.stages.len() - k, 2int, ops.len() - j, 2 + MAX_DEPTH - depth, 1int, 0int,
{
    if depth > MAX_DEPTH {
        Seq::empty()
    } else {
        selected_by_path(q, v, ops, j, k, label) + (if depth < MAX_DEPTH && v.kind.is_container() {
            selected_below_each(q, elements(q.b, v), v.kind is Array, 0, depth, ops, j, k, label)
        } else {
            Seq::empty()
        })
    }
}

/// What is selected from each of the children from number `i` on and everything
/// below them.
pub open spec fn selected_below_each(
    q: QueryV,
    cs: Seq<ChildV>,
    in_array: bool,
    i: int,
    depth: int,
    ops: Seq<PathOpV>,
    j: int,
    k: int,
    label: Seq<char>,
) -> Seq<HitV>
    decreases q.stages.len() - k, 2int, ops.len() - j, 2 + MAX_DEPTH - depth, 0int, cs.len() - i,
{
    if i >= cs.len() || depth >= MAX_DEPTH {
        Seq::empty()
    } else {
        selected_below(
            q,
            value_of(cs[i]),
            depth + 1,
            ops,
            j,
            k,
            child_label(label, cs[i], in_array, i),
        ) + selected_below_each(q, cs, in_array, i + 1, depth, ops, j, k, label)
    }
}

// ---------------------------------------------------------------------------
// Evaluation
// ---------------------------------------------------------------------------
pub open spec fn hits_sent(out: &Outlet<FilterHit>) -> Seq<HitV> {
    hit_views(out.sent())
}

/// Append a `.key` step to a display path, avoiding a leading dot at the root.
fn extend_field(label: &str, key: &str) -> (r: String)
    ensures
        r@ == field_label(label@, key@),
{
    if label.unicode_len() == 0 {
        key.to_owned()
    } else {
        between(label, ".", key)
    }
}

fn extend_index(label: &str, i: u64) -> (r: String)
    ensures
        r@ == index_label(label@, i as int),
{
    let mut s = label.to_owned();
    s.push_str(between("[", decimal_string(i).as_str(), "]").as_str());
    s
}

fn extend_child(label: &str, rc: &RawChild, in_array: bool, i: usize) -> (r: String)
    ensures
        r@ == child_label(label@, rc@, in_array, i as int),
{
    if in_array {
        extend_index(label, i as u64)
    } else {
        extend_field(label, rc.label.as_str())
    }
}

/// Clamp a slice bound (default when absent) into `[0, len]`.
fn resolve_bound(bound: Option<i64>, len: usize, default: usize) -> (r: usize)
    ensures
        r == slice_bound(crate::program::opt_int(bound), len as int, default as int),
{
    match bound {
        None => default,
        Some(v) => if v < 0 {
            let x: i128 = len as i128 + v as i128;
            if x < 0 {
                0
            } else {
                x as usize
            }
        } else if (v as u64) < len as u64 {
            v as usize
        } else {
            len
        },
    }
}

/// Hand over one result. Returns `true` (bail) if nobody takes it or the cap is
/// reached, so the walk unwinds instead of scanning the rest of the document.
fn emit(out: &mut Outlet<FilterHit>, label: &str, start: usize, end: usize, kind: Kind) -> (r: bool)
    requires
        old(out).wf(),
        old(out).sent().len() <= MAX_HITS,
        !old(out).told_to_stop(),
    ensures
        final(out).wf(),
        progress(
            hits_sent(old(out)),
            seq![hit(label@, (ValueV { start: start as int, end: end as int, kind }))],
            hits_sent(final(out)),
            MAX_HITS as int,
            final(out).told_to_stop(),
            r,
        ),
{
    let ghost before = hits_sent(out);
    let ghost one = seq![hit(label@, ValueV { start: start as int, end: end as int, kind })];
    proof {
        lemma_progress_stopped(before, one, MAX_HITS as int);
    }
    if out.count() >= MAX_HITS {
        return true;
    }
    // A container's end may be that of its level (cut off); scalars are exact.
    let h = FilterHit {
        label: label.to_owned(),
        start,
        end,
        kind,
        end_exact: !kind.is_container(),
    };
    if !out.send(h) {
        return true;
    }
    proof {
        assert(hits_sent(out) =~= before + one);
        assert((before + one).take((before + one).len() as int) =~= before + one);
    }
    out.count() >= MAX_HITS
}

/// Run the value `[start, end)` through the stages from number `k` on. With no
/// stages left the value is a result. Returns `true` if the walk should bail
/// (told to stop or at the result cap).
fn eval_stages<N: Fn(&str) -> u64>(
    b: &[u8],
    start: usize,
    end: usize,
    kind: Kind,
    stages: &Vec<Stage>,
    k: usize,
    label: &str,
    read: &N,
    out: &mut Outlet<FilterHit>,
) -> (r: bool)
    requires
        value_range(b@, start as int, end as int, kind),
        reads_numbers(*read),
        k <= stages@.len(),
        old(out).wf(),
        old(out).sent().len() <= MAX_HITS,
        !old(out).told_to_stop(),
    ensures
        final(out).wf(),
        progress(
            hits_sent(old(out)),
            selected(
                QueryV { b: b@, num: numbers(*read), stages: stage_views(stages@) },
                ValueV { start: start as int, end: end as int, kind },
                k as int,
                label@,
            ),
            hits_sent(final(out)),
            MAX_HITS as int,
            final(out).told_to_stop(),
            r,
        ),
    decreases stages@.len() - k, 1int, 0int, 0int,
{
    let ghost q = QueryV { b: b@, num: numbers(*read), stages: stage_views(stages@) };
    let ghost v = ValueV { start: start as int, end: end as int, kind };
    let ghost before = hits_sent(out);
    let ghost cap = MAX_HITS as int;
    proof {
        lemma_progress_stopped(before, selected(q, v, k as int, label@), cap);
    }
    if out.poll() {
        return true;
    }
    let n: usize = stages.len();
    if k >= n {
        return emit(out, label, start, end, kind);
    }
    // Union of the stage's comma-separated terms, each fed the same input.
    let mut t: usize = 0;
    let ghost mut done: Seq<HitV> = Seq::empty();
    proof {
        lemma_progress_none(before, cap);
        assert(done + selected_by_terms(q, v, k as int, 0, label@) =~= selected(
            q,
            v,
            k as int,
            label@,
        ));
    }
    while t < stages[k].terms.len()
        invariant
            value_range(b@, start as int, end as int, kind),
            reads_numbers(*read),
            k < n,
            n == stages@.len(),
            t <= stages@[k as int].terms@.len(),
            q == (QueryV { b: b@, num: numbers(*read), stages: stage_views(stages@) }),
            v == (ValueV { start: start as int, end: end as int, kind }),
            before == hits_sent(old(out)),
            cap == MAX_HITS,
            out.wf(),
            out.sent().len() <= MAX_HITS,
            !out.told_to_stop(),
            progress(before, done, hits_sent(out), cap, false, false),
            done + selected_by_terms(q, v, k as int, t as int, label@) == selected(
                q,
                v,
                k as int,
                label@,
            ),
        decreases stages@[k as int].terms@.len() - t,
    {
        let ghost mid = hits_sent(out);
        assert(q.stages[k as int][t as int] == stages@[k as int].terms@[t as int]@);
        let ghost first = match q.stages[k as int][t as int] {
            TermV::Select(cond) => if holds(q.b, q.num, v, cond) {
                selected(q, v, k + 1, label@)
            } else {
                Seq::empty()
            },
            TermV::Path(ops) => selected_by_path(q, v, ops, 0, k + 1, label@),
        };
        let ghost rest = selected_by_terms(q, v, k as int, t + 1, label@);
        let bail = match &stages[k].terms[t] {
            Term::Select(cond) => {
                if cond_holds(b, start, end, kind, cond, read) {
                    eval_stages(b, start, end, kind, stages, k + 1, label, read, out)
                } else {
                    proof {
                        lemma_progress_none(mid, cap);
                    }
                    false
                }
            },
            Term::Path(ops) => eval_path(
                b,
                start,
                end,
                kind,
                ops,
                0,
                stages,
                k + 1,
                label,
                read,
                out,
            ),
        };
        proof {
            lemma_progress_step(
                before,
                done,
                mid,
                first,
                hits_sent(out),
                cap,
                out.told_to_stop(),
                bail,
            );
            assert((done + first) + rest =~= done + (first + rest));
            if bail {
                lemma_progress_bail(
                    before,
                    done + first,
                    rest,
                    hits_sent(out),
                    cap,
                    out.told_to_stop(),
                );
            }
            done = done + first;
        }
        if bail {
            return true;
        }
        t += 1;
    }
    assert(done + Seq::<HitV>::empty() =~= done);
    false
}

/// Apply the navigation steps from number `j` on of one term, then continue into
/// the stages from `k` on.
fn eval_path<N: Fn(&str) -> u64>(
    b: &[u8],
    start: usize,
    end: usize,
    kind: Kind,
    ops: &Vec<PathOp>,
    j: usize,
    stages: &Vec<Stage>,
    k: usize,
    label: &str,
    read: &N,
    out: &mut Outlet<FilterHit>,
) -> (r: bool)
    requires
        value_range(b@, start as int, end as int, kind),
        reads_numbers(*read),
        j <= ops@.len(),
        k <= stages@.len(),
        old(out).wf(),
        old(out).sent().len() <= MAX_HITS,
        !old(out).told_to_stop(),
    ensures
        final(out).wf(),
        progress(
            hits_sent(old(out)),
            selected_by_path(
                QueryV { b: b@, num: numbers(*read), stages: stage_views(stages@) },
                ValueV { start: start as int, end: end as int, kind },
                op_views(ops@),
                j as int,
                k as int,
                label@,
            ),
            hits_sent(final(out)),
            MAX_HITS as int,
            final(out).told_to_stop(),
            r,
        ),
    decreases stages@.len() - k, 2int, ops@.len() - j, 0int,
{
    let ghost q = QueryV { b: b@, num: numbers(*read), stages: stage_views(stages@) };
    let ghost v = ValueV { start: start as int, end: end as int, kind };
    let ghost before = hits_sent(out);
    proof {
        lemma_progress_none(before, MAX_HITS as int);
    }
    if j >= ops.len() {
        return eval_stages(b, start, end, kind, stages, k, label, read, out);
    }
    assert(op_views(ops@)[j as int] == ops@[j as int]@);
    match &ops[j] {
        PathOp::Field(key) => {
            if !matches!(kind, Kind::Object) {
                return false;  // `.key` on a non-object yields nothing (lenient)
            }
            match find_member(b, start, end, key) {
                Some(rc) => {
                    let cl = extend_field(label, key.as_str());
                    eval_path(
                        b,
                        rc.start,
                        rc.end,
                        rc.kind,
                        ops,
                        j + 1,
                        stages,
                        k,
                        cl.as_str(),
                        read,
                        out,
                    )
                },
                None => false,
            }
        },
        PathOp::Index(idx) => {
            if !matches!(kind, Kind::Array) {
                return false;
            }
            match find_element(b, start, end, *idx) {
                Some((rc, i)) => {
                    let cl = extend_index(label, i);
                    eval_path(
                        b,
                        rc.start,
                        rc.end,
                        rc.kind,
                        ops,
                        j + 1,
                        stages,
                        k,
                        cl.as_str(),
                        read,
                        out,
                    )
                },
                None => false,
            }
        },
        PathOp::Slice(lo, hi) => {
            if !matches!(kind, Kind::Array) {
                return false;
            }
            let len: usize = count_elements(b, start, end);
            let l: usize = resolve_bound(*lo, len, 0);
            let h: usize = resolve_bound(*hi, len, len);
            eval_each(b, start, end, kind, l, h, ops, j + 1, stages, k, label, read, out)
        },
        PathOp::Iterate => {
            if !kind.is_container() {
                return false;
            }
            proof {
                lemma_children_bound(b@, level_of(v.start, v.end, v.kind is Array));
            }
            eval_each(b, start, end, kind, 0, usize::MAX, ops, j + 1, stages, k, label, read, out)
        },
        PathOp::Recurse => recurse(
            b,
            start,
            end,
            kind,
            0,
            ops,
            j + 1,
            stages,
            k,
            label,
            read,
            out,
        ),
    }
}

proof fn lemma_children_bound(b: Seq<u8>, s: LevelV)
    requires
        0 <= s.index <= usize::MAX,
    ensures
        s.index + children_from(b, s).len() <= usize::MAX,
    decreases usize::MAX - s.index,
{
    if next_child(b, s) is Some && s.index < usize::MAX {
        lemma_children_bound(b, after_child(b, s));
    }
}

/// Feed each child from number `l` on and before number `h` into the continuation.
fn eval_each<N: Fn(&str) -> u64>(
    b: &[u8],
    start: usize,
    end: usize,
    kind: Kind,
    l: usize,
    h: usize,
    ops: &Vec<PathOp>,
    j: usize,
    stages: &Vec<Stage>,
    k: usize,
    label: &str,
    read: &N,
    out: &mut Outlet<FilterHit>,
) -> (r: bool)
    requires
        value_range(b@, start as int, end as int, kind),
        kind.is_container(),
        reads_numbers(*read),
        j <= ops@.len(),
        k <= stages@.len(),
        old(out).wf(),
        old(out).sent().len() <= MAX_HITS,
        !old(out).told_to_stop(),
    ensures
        final(out).wf(),
        ({
            let v = ValueV { start: start as int, end: end as int, kind };
            progress(
                hits_sent(old(out)),
                selected_by_each(
                    QueryV { b: b@, num: numbers(*read), stages: stage_views(stages@) },
                    first_children(elements(b@, v), h as int),
                    kind is Array,
                    l as int,
                    op_views(ops@),
                    j as int,
                    k as int,
                    label@,
                ),
                hits_sent(final(out)),
                MAX_HITS as int,
                final(out).told_to_stop(),
                r,
            )
        }),
    decreases stages@.len() - k, 2int, ops@.len() - j, 1int,
{
    let ghost q = QueryV { b: b@, num: numbers(*read), stages: stage_views(stages@) };
    let ghost v = ValueV { start: start as int, end: end as int, kind };
    let ghost before = hits_sent(out);
    let ghost cap = MAX_HITS as int;
    let ghost all = elements(b@, v);
    let ghost cs = first_children(all, h as int);
    let ghost views = op_views(ops@);
    let is_arr = matches!(kind, Kind::Array);
    let ghost total = selected_by_each(q, cs, is_arr, l as int, views, j as int, k as int, label@);
    let mut cur = Cursor::new(start, end, is_arr);
    let mut i: usize = 0;
    let ghost mut done: Seq<HitV> = Seq::empty();
    proof {
        lemma_level_of_wf(b@, v);
        lemma_progress_none(before, cap);
        assert(all.skip(0) =~= all);
        assert(done + total =~= total);
    }
    loop
        invariant
            kind.is_container(),
            is_arr == (kind is Array),
            reads_numbers(*read),
            j <= ops@.len(),
            k <= stages@.len(),
            q == (QueryV { b: b@, num: numbers(*read), stages: stage_views(stages@) }),
            v == (ValueV { start: start as int, end: end as int, kind }),
            views == op_views(ops@),
            all == elements(b@, v),
            cs == first_children(all, h as int),
            total == selected_by_each(q, cs, is_arr, l as int, views, j as int, k as int, label@),
            before == hits_sent(old(out)),
            cap == MAX_HITS,
            addressable(b@),
            cur.wf(b@),
            i <= all.len(),
            cur.model(b@).level.index == i,
            children_from(b@, cur.model(b@).level) == all.skip(i as int),
            out.wf(),
            out.sent().len() <= MAX_HITS,
            !out.told_to_stop(),
            progress(before, done, hits_sent(out), cap, false, false),
            done + selected_by_each(
                q,
                cs,
                is_arr,
                if i < l {
                    l as int
                } else {
                    i as int
                },
                views,
                j as int,
                k as int,
                label@,
            ) == total,
        decreases usize::MAX - i,
    {
        let ghost s = cur.model(b@).level;
        let ghost mid = hits_sent(out);
        proof {
            lemma_next_child(b@, s);
            lemma_progress_stopped(mid, total, cap);
        }
        if i >= h {
            assert(done + Seq::<HitV>::empty() =~= done);
            return false;
        }
        match cur.next(b) {
            None => {
                proof {
                    assert(all.skip(i as int).len() == 0);
                    assert(done + Seq::<HitV>::empty() =~= done);
                }
                return false;
            },
            Some(rc) => {
                proof {
                    lemma_child_value_wf(b@, s);
                    assert(all.skip(i as int)[0] == rc@);
                    assert(children_from(b@, cur.model(b@).level) =~= all.skip(i as int).skip(1));
                    assert(all.skip(i as int).skip(1) =~= all.skip(i + 1));
                    assert(cs[i as int] == rc@);
                }
                let ghost rest = selected_by_each(
                    q,
                    cs,
                    is_arr,
                    if i + 1 < l {
                        l as int
                    } else {
                        i + 1
                    },
                    views,
                    j as int,
                    k as int,
                    label@,
                );
                if out.poll() {
                    proof {
                        let left = total.skip(done.len() as int);
                        assert(done + left =~= total);
                        lemma_progress_stopped(mid, left, cap);
                        lemma_progress_step(before, done, mid, left, mid, cap, true, true);
                    }
                    return true;
                }
                if i >= l {
                    let cl = extend_child(label, &rc, is_arr, i);
                    let ghost first = selected_by_path(
                        q,
                        value_of(rc@),
                        views,
                        j as int,
                        k as int,
                        cl@,
                    );
                    let bail = eval_path(
                        b,
                        rc.start,
                        rc.end,
                        rc.kind,
                        ops,
                        j,
                        stages,
                        k,
                        cl.as_str(),
                        read,
                        out,
                    );
                    proof {
                        lemma_progress_step(
                            before,
                            done,
                            mid,
                            first,
                            hits_sent(out),
                            cap,
                            out.told_to_stop(),
                            bail,
                        );
                        assert((done + first) + rest =~= done + (first + rest));
                        if bail {
                            lemma_progress_bail(
                                before,
                                done + first,
                                rest,
                                hits_sent(out),
                                cap,
                                out.told_to_stop(),
                            );
                        }
                        done = done + first;
                    }
                    if bail {
                        return true;
                    }
                }
                i += 1;
            },
        }
    }
}

/// `..`: feed this node into the continuation, then every descendant depth-first.
fn recurse<N: Fn(&str) -> u64>(
    b: &[u8],
    start: usize,
    end: usize,
    kind: Kind,
    depth: usize,
    ops: &Vec<PathOp>,
    j: usize,
    stages: &Vec<Stage>,
    k: usize,
    label: &str,
    read: &N,
    out: &mut Outlet<FilterHit>,
) -> (r: bool)
    requires
        value_range(b@, start as int, end as int, kind),
        depth <= MAX_DEPTH,
        reads_numbers(*read),
        j <= ops@.len(),
        k <= stages@.len(),
        old(out).wf(),
        old(out).sent().len() <= MAX_HITS,
        !old(out).told_to_stop(),
    ensures
        final(out).wf(),
        progress(
            hits_sent(old(out)),
            selected_below(
                QueryV { b: b@, num: numbers(*read), stages: stage_views(stages@) },
                ValueV { start: start as int, end: end as int, kind },
                depth as int,
                op_views(ops@),
                j as int,
                k as int,
                label@,
            ),
            hits_sent(final(out)),
            MAX_HITS as int,
            final(out).told_to_stop(),
            r,
        ),
    decreases stages@.len() - k, 2int, ops@.len() - j, 2 + MAX_DEPTH - depth,
{
    let ghost q = QueryV { b: b@, num: numbers(*read), stages: stage_views(stages@) };
    let ghost v = ValueV { start: start as int, end: end as int, kind };
    let ghost before = hits_sent(out);
    let ghost cap = MAX_HITS as int;
    let ghost views = op_views(ops@);
    let is_arr = matches!(kind, Kind::Array);
    let ghost cs = elements(b@, v);
    let ghost own = selected_by_path(q, v, views, j as int, k as int, label@);
    let ghost below = selected_below_each(
        q,
        cs,
        is_arr,
        0,
        depth as int,
        views,
        j as int,
        k as int,
        label@,
    );
    let ghost total = selected_below(q, v, depth as int, views, j as int, k as int, label@);
    let bail = eval_path(b, start, end, kind, ops, j, stages, k, label, read, out);
    let leaf = depth >= MAX_DEPTH || !kind.is_container();
    proof {
        assert(own + Seq::<HitV>::empty() =~= own);
        if bail && !leaf {
            lemma_progress_bail(before, own, below, hits_sent(out), cap, out.told_to_stop());
        }
    }
    if bail {
        return true;
    }
    if leaf {
        return false;
    }
    let mut cur = Cursor::new(start, end, is_arr);
    let mut i: usize = 0;
    let ghost mut done: Seq<HitV> = own;
    proof {
        lemma_level_of_wf(b@, v);
        assert(cs.skip(0) =~= cs);
    }
    loop
        invariant
            kind.is_container(),
            depth < MAX_DEPTH,
            is_arr == (kind is Array),
            reads_numbers(*read),
            j <= ops@.len(),
            k <= stages@.len(),
            q == (QueryV { b: b@, num: numbers(*read), stages: stage_views(stages@) }),
            v == (ValueV { start: start as int, end: end as int, kind }),
            views == op_views(ops@),
            cs == elements(b@, v),
            total == selected_below(q, v, depth as int, views, j as int, k as int, label@),
            before == hits_sent(old(out)),
            cap == MAX_HITS,
            addressable(b@),
            cur.wf(b@),
            i <= cs.len(),
            cur.model(b@).level.index == i,
            children_from(b@, cur.model(b@).level) == cs.skip(i as int),
            out.wf(),
            out.sent().len() <= MAX_HITS,
            !out.told_to_stop(),
            progress(before, done, hits_sent(out), cap, false, false),
            done + selected_below_each(
                q,
                cs,
                is_arr,
                i as int,
                depth as int,
                views,
                j as int,
                k as int,
                label@,
            ) == total,
        decreases usize::MAX - i,
    {
        let ghost s = cur.model(b@).level;
        let ghost mid = hits_sent(out);
        proof {
            lemma_next_child(b@, s);
        }
        match cur.next(b) {
            None => {
                proof {
                    assert(cs.skip(i as int).len() == 0);
                    assert(done + Seq::<HitV>::empty() =~= done);
                }
                return false;
            },
            Some(rc) => {
                proof {
                    lemma_child_value_wf(b@, s);
                    assert(cs.skip(i as int)[0] == rc@);
                    assert(children_from(b@, cur.model(b@).level) =~= cs.skip(i as int).skip(1));
                    assert(cs.skip(i as int).skip(1) =~= cs.skip(i + 1));
                }
                if out.poll() {
                    proof {
                        let left = total.skip(done.len() as int);
                        assert(done + left =~= total);
                        lemma_progress_stopped(mid, left, cap);
                        lemma_progress_step(before, done, mid, left, mid, cap, true, true);
                    }
                    return true;
                }
                let cl = extend_child(label, &rc, is_arr, i);
                let ghost first = selected_below(
                    q,
                    value_of(rc@),
                    depth + 1,
                    views,
                    j as int,
                    k as int,
                    cl@,
                );
                let ghost rest = selected_below_each(
                    q,
                    cs,
                    is_arr,
                    i + 1,
                    depth as int,
                    views,
                    j as int,
                    k as int,
                    label@,
                );
                let bail = recurse(
                    b,
                    rc.start,
                    rc.end,
                    rc.kind,
                    depth + 1,
                    ops,
                    j,
                    stages,
                    k,
                    cl.as_str(),
                    read,
                    out,
                );
                proof {
                    lemma_progress_step(
                        before,
                        done,
                        mid,
                        first,
                        hits_sent(out),
                        cap,
                        out.told_to_stop(),
                        bail,
                    );
                    assert((done + first) + rest =~= done + (first + rest));
                    if bail {
                        lemma_progress_bail(
                            before,
                            done + first,
                            rest,
                            hits_sent(out),
                            cap,
                            out.told_to_stop(),
                        );
                    }
                    done = done + first;
                }
                if bail {
                    return true;
                }
                i += 1;
            },
        }
    }
}

/// What a program selects from each of the documents from number `i` on.
pub open spec fn selected_by_documents(q: QueryV, docs: Seq<ChildV>, i: int) -> Seq<HitV>
    decreases docs.len() - i,
{
    if i >= docs.len() {
        Seq::empty()
    } else {
        selected(q, value_of(docs[i]), 0, index_label(Seq::empty(), i)) + selected_by_documents(
            q,
            docs,
            i + 1,
        )
    }
}

/// Everything that a program selects from the value in `[start, end)`, or with
/// `jsonl` from each of the values there.
pub open spec fn everything_selected(
    q: QueryV,
    jsonl: bool,
    start: int,
    end: int,
    kind: Kind,
) -> Seq<HitV> {
    if jsonl {
        selected_by_documents(q, children_from(q.b, level_of_lines(start, end)), 0)
    } else if start < end {
        selected(q, ValueV { start, end, kind }, 0, Seq::empty())
    } else {
        Seq::empty()
    }
}

/// Evaluate `program` over the value in `[start, end)` and hand over the byte
/// range of every selected node. For NDJSON each document is fed through the
/// pipeline in turn (like jq's stream of inputs). `read` gives the bits of the
/// binary64 number that a numeric text stands for.
pub fn run<N: Fn(&str) -> u64>(
    b: &[u8],
    program: &Program,
    jsonl: bool,
    start: usize,
    end: usize,
    kind: Kind,
    read: &N,
    out: &mut Outlet<FilterHit>,
)
    requires
        addressable(b@),
        if jsonl {
            end <= b@.len() + 1
        } else {
            value_range(b@, start as int, end as int, kind)
        },
        reads_numbers(*read),
        old(out).wf(),
        old(out).sent().len() == 0,
        !old(out).told_to_stop(),
    ensures
        final(out).wf(),
        outcome(
            everything_selected(
                QueryV { b: b@, num: numbers(*read), stages: program@ },
                jsonl,
                start as int,
                end as int,
                kind,
            ),
            hits_sent(final(out)),
            MAX_HITS as int,
            final(out).told_to_stop(),
        ),
{
    let ghost q = QueryV { b: b@, num: numbers(*read), stages: program@ };
    let ghost cap = MAX_HITS as int;
    let ghost total = everything_selected(q, jsonl, start as int, end as int, kind);
    let ghost before = hits_sent(out);
    assert(before =~= Seq::empty());
    assert(before + total =~= total);
    assert(total.take(0) =~= Seq::empty());
    if !jsonl {
        if start < end {
            eval_stages(b, start, end, kind, &program.stages, 0, "", read, out);
            proof {
                reveal_strlit("");
                assert(""@ =~= Seq::empty());
            }
        }
        return;
    }
    let ghost docs = children_from(b@, level_of_lines(start as int, end as int));
    let mut cur = Cursor::lines(start, end);
    let mut i: usize = 0;
    let ghost mut done: Seq<HitV> = Seq::empty();
    proof {
        lemma_progress_none(before, cap);
        assert(docs.skip(0) =~= docs);
        assert(done + total =~= total);
    }
    loop
        invariant
            reads_numbers(*read),
            q == (QueryV { b: b@, num: numbers(*read), stages: program@ }),
            docs == children_from(b@, level_of_lines(start as int, end as int)),
            jsonl,
            total == everything_selected(q, jsonl, start as int, end as int, kind),
            before == Seq::<HitV>::empty(),
            before + total == total,
            cap == MAX_HITS,
            addressable(b@),
            cur.wf(b@),
            i <= docs.len(),
            cur.model(b@).level.index == i,
            children_from(b@, cur.model(b@).level) == docs.skip(i as int),
            out.wf(),
            out.sent().len() <= MAX_HITS,
            !out.told_to_stop(),
            progress(before, done, hits_sent(out), cap, false, false),
            done + selected_by_documents(q, docs, i as int) == total,
        decreases usize::MAX - i,
    {
        let ghost s = cur.model(b@).level;
        let ghost mid = hits_sent(out);
        proof {
            lemma_next_child(b@, s);
        }
        match cur.next(b) {
            None => {
                proof {
                    assert(docs.skip(i as int).len() == 0);
                    assert(done + Seq::<HitV>::empty() =~= done);
                }
                return;
            },
            Some(rc) => {
                proof {
                    lemma_child_value_wf(b@, s);
                    assert(docs.skip(i as int)[0] == rc@);
                    assert(children_from(b@, cur.model(b@).level) =~= docs.skip(i as int).skip(1));
                    assert(docs.skip(i as int).skip(1) =~= docs.skip(i + 1));
                }
                if out.poll_now() {
                    proof {
                        let left = total.skip(done.len() as int);
                        assert(done + left =~= total);
                        lemma_progress_stopped(mid, left, cap);
                        lemma_progress_step(before, done, mid, left, mid, cap, true, true);
                    }
                    return;
                }
                let label = extend_index("", i as u64);
                proof {
                    reveal_strlit("");
                    assert(""@ =~= Seq::empty());
                }
                let ghost first = selected(q, value_of(rc@), 0, label@);
                let ghost rest = selected_by_documents(q, docs, i + 1);
                let bail = eval_stages(
                    b,
                    rc.start,
                    rc.end,
                    rc.kind,
                    &program.stages,
                    0,
                    label.as_str(),
                    read,
                    out,
                );
                proof {
                    lemma_progress_step(
                        before,
                        done,
                        mid,
                        first,
                        hits_sent(out),
                        cap,
                        out.told_to_stop(),
                        bail,
                    );
                    assert((done + first) + rest =~= done + (first + rest));
                    if bail {
                        lemma_progress_bail(
                            before,
                            done + first,
                            rest,
                            hits_sent(out),
                            cap,
                            out.told_to_stop(),
                        );
                    }
                    done = done + first;
                }
                if bail {
                    return;
                }
                i += 1;
            },
        }
    }
}

} // verus!
