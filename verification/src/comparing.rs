//! What a condition of a filter means: how two values compare, what a value of the
//! document is when it is compared, and which values `select` keeps.

use crate::filter::{
    at_path, comparable, comparison, element, elements, holds, labelled, member, operand_value,
    text_rel, value_of, ValV, ValueV,
};
use crate::literals::{json_number, law_json_numbers_read_as_numbers, plain_text};
use crate::program::{CmpOp, CondV, LiteralV, OperandV, PathSegV};
use crate::scanner::{children_from, decoded, level_of, ChildV, Kind};
use crate::search::{pattern_matches, PatternV};
use vstd::prelude::*;

verus! {

// ---------------------------------------------------------------------------
// Two values
// ---------------------------------------------------------------------------
/// Whether two texts part at `k`: they are the same up to there, and there the first ends
/// or has the lesser character.
pub open spec fn comes_first_at(x: Seq<char>, y: Seq<char>, k: int) -> bool {
    &&& 0 <= k <= x.len()
    &&& k < y.len()
    &&& x.take(k) == y.take(k)
    &&& k == x.len() || x[k] < y[k]
}

proof fn lemma_text_rel(x: Seq<char>, y: Seq<char>)
    ensures
        text_rel(x, y) is Equal <==> x == y,
        text_rel(x, y) is Less <==> text_rel(y, x) is Greater,
        text_rel(x, y) is Less <==> exists|k: int| comes_first_at(x, y, k),
    decreases x.len(),
{
    if x.len() == 0 {
        assert(y.len() == 0 ==> x =~= y);
        if y.len() > 0 {
            assert(x.take(0) =~= y.take(0));
            assert(comes_first_at(x, y, 0));
        }
    } else if y.len() == 0 {
    } else if x[0] == y[0] {
        let s = x.skip(1);
        let t = y.skip(1);
        lemma_text_rel(s, t);
        assert(x =~= seq![x[0]] + s);
        assert(y =~= seq![y[0]] + t);
        if exists|k: int| comes_first_at(s, t, k) {
            let k = choose|k: int| comes_first_at(s, t, k);
            assert(x.take(k + 1) =~= seq![x[0]] + s.take(k));
            assert(y.take(k + 1) =~= seq![y[0]] + t.take(k));
            assert(comes_first_at(x, y, k + 1));
        }
        if exists|k: int| comes_first_at(x, y, k) {
            let k = choose|k: int| comes_first_at(x, y, k);
            assert(k > 0);
            assert(s.take(k - 1) =~= x.take(k).skip(1));
            assert(t.take(k - 1) =~= y.take(k).skip(1));
            assert(comes_first_at(s, t, k - 1));
        }
    } else {
        if x[0] < y[0] {
            assert(x.take(0) =~= y.take(0));
            assert(comes_first_at(x, y, 0));
        }
        if exists|k: int| comes_first_at(x, y, k) {
            let k = choose|k: int| comes_first_at(x, y, k);
            if k > 0 {
                assert(x.take(k)[0] == y.take(k)[0]);
            }
        }
    }
}

/// The six comparisons hang together: `!=` is what `==` is not, `<=` is `<` or `==`, `>=`
/// is `>` or `==`, `>` is `<` the other way round, and no two of `<`, `==` and `>` hold
/// at once.
pub proof fn law_comparisons_hang_together(x: ValV, y: ValV)
    ensures
        comparison(x, CmpOp::Ne, y) <==> !comparison(x, CmpOp::Eq, y),
        comparison(x, CmpOp::Le, y) <==> comparison(x, CmpOp::Lt, y) || comparison(
            x,
            CmpOp::Eq,
            y,
        ),
        comparison(x, CmpOp::Ge, y) <==> comparison(x, CmpOp::Gt, y) || comparison(
            x,
            CmpOp::Eq,
            y,
        ),
        comparison(x, CmpOp::Gt, y) <==> comparison(y, CmpOp::Lt, x),
        comparison(x, CmpOp::Eq, y) <==> comparison(y, CmpOp::Eq, x),
        !(comparison(x, CmpOp::Lt, y) && comparison(x, CmpOp::Eq, y)),
        !(comparison(x, CmpOp::Lt, y) && comparison(x, CmpOp::Gt, y)),
{
    if let (ValV::Str(s), ValV::Str(t)) = (x, y) {
        lemma_text_rel(s, t);
        lemma_text_rel(t, s);
    }
}

/// Two texts are equal where they are the same, and else the one comes first that ends
/// where they part or has the lesser character there.
pub proof fn law_texts_compare(x: Seq<char>, y: Seq<char>)
    ensures
        comparison(ValV::Str(x), CmpOp::Eq, ValV::Str(y)) <==> x == y,
        comparison(ValV::Str(x), CmpOp::Lt, ValV::Str(y)) <==> exists|k: int|
            comes_first_at(x, y, k),
        comparison(ValV::Str(x), CmpOp::Lt, ValV::Str(y)) || comparison(
            ValV::Str(x),
            CmpOp::Eq,
            ValV::Str(y),
        ) || comparison(ValV::Str(x), CmpOp::Gt, ValV::Str(y)),
{
    lemma_text_rel(x, y);
}

/// Whether the bits are those of a number, and not of something that is none.
pub open spec fn is_number(bits: u64) -> bool {
    bits <= 0x7ff0_0000_0000_0000 || 0x8000_0000_0000_0000 <= bits <= 0xfff0_0000_0000_0000
}

/// Whether the number with these bits has a minus sign.
pub open spec fn has_minus(bits: u64) -> bool {
    bits >= 0x8000_0000_0000_0000
}

/// Whether the bits are those of one of the two zeros.
pub open spec fn is_zero(bits: u64) -> bool {
    bits == 0 || bits == 0x8000_0000_0000_0000
}

/// Numbers compare as binary64 numbers do: those without a sign as their bits, those with
/// one the other way round, and the latter before the former; the two zeros are equal; and
/// what is no number is only ever unequal.
pub proof fn law_numbers_compare(x: u64, y: u64)
    ensures
        comparison(ValV::Num(x), CmpOp::Eq, ValV::Num(y)) <==> is_number(x) && is_number(y) && (x
            == y || is_zero(x) && is_zero(y)),
        comparison(ValV::Num(x), CmpOp::Lt, ValV::Num(y)) <==> is_number(x) && is_number(y) && !(
        is_zero(x) && is_zero(y)) && if has_minus(x) {
            !has_minus(y) || y < x
        } else {
            !has_minus(y) && x < y
        },
        is_number(x) && is_number(y) ==> comparison(ValV::Num(x), CmpOp::Lt, ValV::Num(y))
            || comparison(ValV::Num(x), CmpOp::Eq, ValV::Num(y)) || comparison(
            ValV::Num(x),
            CmpOp::Gt,
            ValV::Num(y),
        ),
{
}

/// `false` comes before `true`, and null is equal to null and to nothing else.
pub proof fn law_words_compare(x: bool, y: bool)
    ensures
        comparison(ValV::Bool(x), CmpOp::Eq, ValV::Bool(y)) <==> x == y,
        comparison(ValV::Bool(x), CmpOp::Lt, ValV::Bool(y)) <==> !x && y,
        comparison(ValV::Null, CmpOp::Eq, ValV::Null),
        !comparison(ValV::Null, CmpOp::Lt, ValV::Null),
{
}

/// A container is equal to nothing, and stands in no order to anything.
pub proof fn law_containers_do_not_compare(x: ValV, op: CmpOp)
    ensures
        comparison(ValV::Other, op, x) <==> op is Ne,
        comparison(x, op, ValV::Other) <==> op is Ne,
{
}

/// What comes before something comes before everything behind it.
pub proof fn law_order_is_transitive(x: ValV, y: ValV, z: ValV)
    requires
        comparison(x, CmpOp::Lt, y),
        comparison(y, CmpOp::Lt, z),
    ensures
        comparison(x, CmpOp::Lt, z),
{
    if let (ValV::Str(s), ValV::Str(t), ValV::Str(u)) = (x, y, z) {
        lemma_text_rel(s, t);
        lemma_text_rel(t, u);
        lemma_text_rel(s, u);
        let i = choose|k: int| comes_first_at(s, t, k);
        let j = choose|k: int| comes_first_at(t, u, k);
        let k = if i <= j {
            i
        } else {
            j
        };
        assert(s.take(i).take(k) =~= s.take(k));
        assert(t.take(i).take(k) =~= t.take(k));
        assert(t.take(j).take(k) =~= t.take(k));
        assert(u.take(j).take(k) =~= u.take(k));
        if i < j {
            assert(t.take(j)[i] == u.take(j)[i]);
        } else if j < i {
            assert(s.take(i)[j] == t.take(i)[j]);
        }
        assert(comes_first_at(s, u, k));
    }
}

// ---------------------------------------------------------------------------
// A value of the document
// ---------------------------------------------------------------------------
/// What a value of the document is when it is compared: a word by what is written, a string
/// by its text, a JSON number as the number that its text stands for, and a container as
/// nothing that compares.
pub proof fn law_what_is_compared(b: Seq<u8>, num: spec_fn(Seq<char>) -> u64, v: ValueV)
    requires
        0 <= v.start <= v.end <= b.len(),
    ensures
        ({
            let bytes = b.subrange(v.start, v.end);
            let x = comparable(b, num, v);
            &&& v.kind == Kind::Bool && bytes == seq![0x74u8, 0x72, 0x75, 0x65] ==> x
                == ValV::Bool(true)
            &&& v.kind == Kind::Bool && bytes == seq![0x66u8, 0x61, 0x6c, 0x73, 0x65] ==> x
                == ValV::Bool(false)
            &&& v.kind == Kind::Null ==> x == ValV::Null
            &&& v.kind == Kind::Str ==> x == ValV::Str(decoded(b, v.start, v.end))
            &&& v.kind == Kind::Number && json_number(bytes) ==> x == ValV::Num(
                num(plain_text(bytes)),
            )
            &&& v.kind == Kind::Array || v.kind == Kind::Object ==> x == ValV::Other
        }),
{
    let bytes = b.subrange(v.start, v.end);
    if v.kind == Kind::Number && json_number(bytes) {
        law_json_numbers_read_as_numbers(bytes);
    }
    if bytes.len() > 0 {
        assert(bytes[0] == b[v.start]);
    }
}

/// What an operand is: a literal is itself, and a path is what it leads to from the value,
/// step by step: a field the first member of that name, an index the element of that number,
/// from the end where it is negative, and null where a step leads nowhere.
pub proof fn law_literals_are_themselves(
    b: Seq<u8>,
    num: spec_fn(Seq<char>) -> u64,
    v: ValueV,
    t: Seq<char>,
    x: bool,
)
    ensures
        operand_value(b, num, v, OperandV::Lit(LiteralV::Num(t))) == ValV::Num(num(t)),
        operand_value(b, num, v, OperandV::Lit(LiteralV::Str(t))) == ValV::Str(t),
        operand_value(b, num, v, OperandV::Lit(LiteralV::Bool(x))) == ValV::Bool(x),
        operand_value(b, num, v, OperandV::Lit(LiteralV::Null)) == ValV::Null,
        operand_value(b, num, v, OperandV::Path(Seq::empty())) == comparable(b, num, v),
{
}

proof fn lemma_path_rest(b: Seq<u8>, v: ValueV, segs: Seq<PathSegV>, k: int)
    requires
        0 <= k,
        segs.len() > 0,
    ensures
        at_path(b, v, segs, k + 1) == at_path(b, v, segs.skip(1), k),
    decreases segs.len() - k,
{
    if k + 1 < segs.len() {
        assert(segs.skip(1)[k] == segs[k + 1]);
        match segs[k + 1] {
            PathSegV::Field(key) => {
                if let Some(w) = member(b, v, key) {
                    lemma_path_rest(b, w, segs, k + 1);
                }
            },
            PathSegV::Index(idx) => {
                if let Some((w, _)) = element(b, v, idx) {
                    lemma_path_rest(b, w, segs, k + 1);
                }
            },
        }
    }
}

/// The children of a value.
pub open spec fn children(b: Seq<u8>, v: ValueV) -> Seq<ChildV> {
    children_from(b, level_of(v.start, v.end, v.kind == Kind::Array))
}

/// Whether number `i` is the first child with that label.
pub open spec fn first_labelled(cs: Seq<ChildV>, key: Seq<char>, i: int) -> bool {
    &&& 0 <= i < cs.len()
    &&& cs[i].label == key
    &&& forall|j: int| 0 <= j < i ==> (#[trigger] cs[j]).label != key
}

/// Whether no child has that label.
pub open spec fn none_labelled(cs: Seq<ChildV>, key: Seq<char>) -> bool {
    forall|j: int| 0 <= j < cs.len() ==> (#[trigger] cs[j]).label != key
}

proof fn lemma_labelled(cs: Seq<ChildV>, key: Seq<char>, i: int)
    requires
        0 <= i <= cs.len(),
    ensures
        match labelled(cs, key, i) {
            Some(k) => i <= k < cs.len() && cs[k].label == key && forall|j: int|
                i <= j < k ==> (#[trigger] cs[j]).label != key,
            None => forall|j: int| i <= j < cs.len() ==> (#[trigger] cs[j]).label != key,
        },
    decreases cs.len() - i,
{
    if i < cs.len() && cs[i].label != key {
        lemma_labelled(cs, key, i + 1);
    }
}

/// The member of an object that a key names is the first with that label.
pub proof fn law_a_key_names_the_first_member(b: Seq<u8>, v: ValueV, key: Seq<char>)
    ensures
        v.kind == Kind::Object ==> forall|i: int| #[trigger]
            first_labelled(children(b, v), key, i) ==> member(b, v, key) == Some(
                value_of(children(b, v)[i]),
            ),
        v.kind == Kind::Object && none_labelled(children(b, v), key) ==> member(b, v, key) is None,
        v.kind != Kind::Object ==> member(b, v, key) is None,
{
    let cs = children(b, v);
    assert(cs == elements(b, v));
    lemma_labelled(cs, key, 0);
    assert forall|i: int| #[trigger] first_labelled(cs, key, i) && v.kind == Kind::Object implies member(
        b,
        v,
        key,
    ) == Some(value_of(cs[i])) by {
        let k = labelled(cs, key, 0)->0;
        if i < k {
            assert(cs[i].label != key);
        } else if k < i {
            assert(cs[k].label != key);
        }
    }
}

/// The element of an array that an index names is the one of that number, counted from the
/// end where the index is negative.
pub proof fn law_an_index_names_an_element(b: Seq<u8>, v: ValueV, idx: int)
    ensures
        ({
            let cs = children(b, v);
            let n = cs.len() as int;
            &&& v.kind == Kind::Array && 0 <= idx < n ==> element(b, v, idx) == Some(
                (value_of(cs[idx]), idx),
            )
            &&& v.kind == Kind::Array && -n <= idx < 0 ==> element(b, v, idx) == Some(
                (value_of(cs[n + idx]), n + idx),
            )
            &&& v.kind != Kind::Array || idx < -n || n <= idx ==> element(b, v, idx) is None
        }),
{
    assert(children(b, v) == elements(b, v));
}

/// A path goes on from what its first step leads to.
pub proof fn law_path_operands_step(
    b: Seq<u8>,
    num: spec_fn(Seq<char>) -> u64,
    v: ValueV,
    segs: Seq<PathSegV>,
)
    requires
        segs.len() > 0,
    ensures
        ({
            let next = match segs[0] {
                PathSegV::Field(key) => member(b, v, key),
                PathSegV::Index(idx) => match element(b, v, idx) {
                    Some((w, _)) => Some(w),
                    None => None,
                },
            };
            operand_value(b, num, v, OperandV::Path(segs)) == match next {
                Some(w) => operand_value(b, num, w, OperandV::Path(segs.skip(1))),
                None => ValV::Null,
            }
        }),
{
    match segs[0] {
        PathSegV::Field(key) => {
            if let Some(w) = member(b, v, key) {
                lemma_path_rest(b, w, segs, 0);
            }
        },
        PathSegV::Index(idx) => {
            if let Some((w, _)) = element(b, v, idx) {
                lemma_path_rest(b, w, segs, 0);
            }
        },
    }
}

// ---------------------------------------------------------------------------
// Conditions
// ---------------------------------------------------------------------------
/// `and` holds where both conditions do, and `or` where one of them does.
pub proof fn law_and_or(
    b: Seq<u8>,
    num: spec_fn(Seq<char>) -> u64,
    v: ValueV,
    x: CondV,
    y: CondV,
)
    ensures
        holds(b, num, v, CondV::And(Box::new(x), Box::new(y))) <==> holds(b, num, v, x) && holds(
            b,
            num,
            v,
            y,
        ),
        holds(b, num, v, CondV::Or(Box::new(x), Box::new(y))) <==> holds(b, num, v, x) || holds(
            b,
            num,
            v,
            y,
        ),
{
    reveal_with_fuel(holds, 2);
}

/// A lone operand holds unless it is null or false, and a comparison where its operands
/// compare so.
pub proof fn law_lone_operands_and_comparisons(
    b: Seq<u8>,
    num: spec_fn(Seq<char>) -> u64,
    v: ValueV,
    x: OperandV,
    op: CmpOp,
    y: OperandV,
)
    ensures
        holds(b, num, v, CondV::Truthy(x)) <==> operand_value(b, num, v, x) != ValV::Null
            && operand_value(b, num, v, x) != ValV::Bool(false),
        holds(b, num, v, CondV::Cmp(x, op, y)) <==> comparison(
            operand_value(b, num, v, x),
            op,
            operand_value(b, num, v, y),
        ),
{
}

/// A match holds where the operand is a text that the pattern matches, and its negation
/// where that is not so.
pub proof fn law_matching(
    b: Seq<u8>,
    num: spec_fn(Seq<char>) -> u64,
    v: ValueV,
    lhs: OperandV,
    pattern: PatternV,
)
    ensures
        holds(b, num, v, CondV::Match { lhs, pattern, negated: false }) <==> (operand_value(
            b,
            num,
            v,
            lhs,
        ) matches ValV::Str(t) && pattern_matches(pattern, t)),
        holds(b, num, v, CondV::Match { lhs, pattern, negated: true }) <==> !holds(
            b,
            num,
            v,
            CondV::Match { lhs, pattern, negated: false },
        ),
{
}

} // verus!
