//! What the steps and stages of a filter select: from which values of the document the rest
//! of a program goes on, in which order, and under which labels.

use crate::comparing::{
    children, first_labelled, law_a_key_names_the_first_member, law_an_index_names_an_element,
    none_labelled,
};
use crate::filter::{
    child_label, element, elements, everything_selected, field_label, first_children, holds,
    index_label, member, selected, selected_below, selected_below_each, selected_by_documents,
    selected_by_each, selected_by_path, selected_by_terms, slice_bound, value_of, HitV, QueryV,
    ValueV,
};
use crate::program::{PathOpV, TermV};
use crate::scanner::{children_from, level_of_lines, ChildV, Kind, MAX_DEPTH};
use crate::text::decimal;
use vstd::prelude::*;

verus! {

/// What `f` gives for each number from `lo` up to `hi`, one after another.
pub open spec fn in_turn(f: spec_fn(int) -> Seq<HitV>, lo: int, hi: int) -> Seq<HitV>
    decreases hi - lo,
{
    if lo >= hi {
        Seq::empty()
    } else {
        f(lo) + in_turn(f, lo + 1, hi)
    }
}

/// The label of a member below a value with that label.
pub open spec fn dotted(label: Seq<char>, key: Seq<char>) -> Seq<char> {
    if label.len() == 0 {
        key
    } else {
        label + seq!['.'] + key
    }
}

/// The label of an element below a value with that label.
pub open spec fn bracketed(label: Seq<char>, i: int) -> Seq<char> {
    label + seq!['['] + decimal(i as nat) + seq![']']
}

/// The label of a child: by its number in an array, by its key in an object.
pub open spec fn label_below(v: ValueV, label: Seq<char>, c: ChildV, i: int) -> Seq<char> {
    if v.kind == Kind::Array {
        bracketed(label, i)
    } else {
        dotted(label, c.label)
    }
}

proof fn lemma_labels(label: Seq<char>, key: Seq<char>, i: int)
    ensures
        field_label(label, key) == dotted(label, key),
        index_label(label, i) == bracketed(label, i),
{
    reveal_strlit(".");
    reveal_strlit("[");
    reveal_strlit("]");
    assert("."@ =~= seq!['.']);
    assert("["@ =~= seq!['[']);
    assert("]"@ =~= seq![']']);
    assert(index_label(label, i) =~= bracketed(label, i));
}

// ---------------------------------------------------------------------------
// Steps
// ---------------------------------------------------------------------------
/// A field step goes on from the first member of that name, and else selects nothing.
pub proof fn law_field_step(
    q: QueryV,
    v: ValueV,
    ops: Seq<PathOpV>,
    j: int,
    k: int,
    label: Seq<char>,
    key: Seq<char>,
)
    requires
        0 <= j < ops.len(),
        ops[j] == PathOpV::Field(key),
    ensures
        v.kind == Kind::Object ==> forall|i: int| #[trigger]
            first_labelled(children(q.b, v), key, i) ==> selected_by_path(q, v, ops, j, k, label)
                == selected_by_path(
                q,
                value_of(children(q.b, v)[i]),
                ops,
                j + 1,
                k,
                dotted(label, key),
            ),
        v.kind != Kind::Object || none_labelled(children(q.b, v), key) ==> selected_by_path(
            q,
            v,
            ops,
            j,
            k,
            label,
        ).len() == 0,
{
    law_a_key_names_the_first_member(q.b, v, key);
    lemma_labels(label, key, 0);
}

/// An index step goes on from the element of that number, from the end where it is
/// negative, and else selects nothing.
pub proof fn law_index_step(
    q: QueryV,
    v: ValueV,
    ops: Seq<PathOpV>,
    j: int,
    k: int,
    label: Seq<char>,
    idx: int,
)
    requires
        0 <= j < ops.len(),
        ops[j] == PathOpV::Index(idx),
    ensures
        ({
            let cs = children(q.b, v);
            let n = cs.len() as int;
            let i = if idx < 0 {
                n + idx
            } else {
                idx
            };
            selected_by_path(q, v, ops, j, k, label) == (if v.kind == Kind::Array && 0 <= i < n {
                selected_by_path(q, value_of(cs[i]), ops, j + 1, k, bracketed(label, i))
            } else {
                Seq::empty()
            })
        }),
{
    law_an_index_names_an_element(q.b, v, idx);
    let n = children(q.b, v).len() as int;
    let i = if idx < 0 {
        n + idx
    } else {
        idx
    };
    lemma_labels(label, label, i);
}

proof fn lemma_each(
    q: QueryV,
    cs: Seq<ChildV>,
    in_array: bool,
    i: int,
    ops: Seq<PathOpV>,
    j: int,
    k: int,
    label: Seq<char>,
    f: spec_fn(int) -> Seq<HitV>,
)
    requires
        forall|m: int|
            i <= m < cs.len() ==> #[trigger] f(m) == selected_by_path(
                q,
                value_of(cs[m]),
                ops,
                j,
                k,
                child_label(label, cs[m], in_array, m),
            ),
    ensures
        selected_by_each(q, cs, in_array, i, ops, j, k, label) == in_turn(f, i, cs.len() as int),
    decreases cs.len() - i,
{
    if i < cs.len() {
        assert(f(i) == selected_by_path(
            q,
            value_of(cs[i]),
            ops,
            j,
            k,
            child_label(label, cs[i], in_array, i),
        ));
        lemma_each(q, cs, in_array, i + 1, ops, j, k, label, f);
    }
}

/// `[]` goes on from each child of an array or an object in turn, and selects nothing of a
/// scalar.
pub proof fn law_iterate_step(
    q: QueryV,
    v: ValueV,
    ops: Seq<PathOpV>,
    j: int,
    k: int,
    label: Seq<char>,
)
    requires
        0 <= j < ops.len(),
        ops[j] == PathOpV::Iterate,
    ensures
        ({
            let cs = children(q.b, v);
            selected_by_path(q, v, ops, j, k, label) == (if v.kind == Kind::Array || v.kind
                == Kind::Object {
                in_turn(
                    |i: int|
                        selected_by_path(
                            q,
                            value_of(cs[i]),
                            ops,
                            j + 1,
                            k,
                            label_below(v, label, cs[i], i),
                        ),
                    0,
                    cs.len() as int,
                )
            } else {
                Seq::empty()
            })
        }),
{
    let cs = children(q.b, v);
    let f = |i: int|
        selected_by_path(q, value_of(cs[i]), ops, j + 1, k, label_below(v, label, cs[i], i));
    assert(cs == elements(q.b, v));
    if v.kind == Kind::Array || v.kind == Kind::Object {
        assert forall|m: int| 0 <= m < cs.len() implies #[trigger] f(m) == selected_by_path(
            q,
            value_of(cs[m]),
            ops,
            j + 1,
            k,
            child_label(label, cs[m], v.kind is Array, m),
        ) by {
            lemma_labels(label, cs[m].label, m);
        }
        lemma_each(q, cs, v.kind is Array, 0, ops, j + 1, k, label, f);
    }
}

/// Where a slice bound falls among `n` elements: a negative one counts from the end, and
/// what is outside falls on the nearer end.
pub open spec fn clamped(bound: int, n: int) -> int {
    let x = if bound < 0 {
        n + bound
    } else {
        bound
    };
    if x < 0 {
        0
    } else if x > n {
        n
    } else {
        x
    }
}

/// A slice goes on from the elements from its lower bound up to its upper bound in turn,
/// from the first and up to the last where a bound is missing.
pub proof fn law_slice_step(
    q: QueryV,
    v: ValueV,
    ops: Seq<PathOpV>,
    j: int,
    k: int,
    label: Seq<char>,
    lo: Option<int>,
    hi: Option<int>,
)
    requires
        0 <= j < ops.len(),
        ops[j] == PathOpV::Slice(lo, hi),
    ensures
        ({
            let cs = children(q.b, v);
            let n = cs.len() as int;
            selected_by_path(q, v, ops, j, k, label) == (if v.kind == Kind::Array {
                in_turn(
                    |i: int|
                        selected_by_path(
                            q,
                            value_of(cs[i]),
                            ops,
                            j + 1,
                            k,
                            bracketed(label, i),
                        ),
                    match lo {
                        Some(x) => clamped(x, n),
                        None => 0,
                    },
                    match hi {
                        Some(x) => clamped(x, n),
                        None => n,
                    },
                )
            } else {
                Seq::empty()
            })
        }),
{
    let cs = children(q.b, v);
    let n = cs.len() as int;
    let f = |i: int|
        selected_by_path(q, value_of(cs[i]), ops, j + 1, k, bracketed(label, i));
    assert(cs == elements(q.b, v));
    if v.kind == Kind::Array {
        let l = slice_bound(lo, n, 0);
        let h = slice_bound(hi, n, n);
        let ds = first_children(cs, h);
        assert(ds.len() == h);
        assert forall|m: int| l <= m < ds.len() implies #[trigger] f(m) == selected_by_path(
            q,
            value_of(ds[m]),
            ops,
            j + 1,
            k,
            child_label(label, ds[m], true, m),
        ) by {
            assert(ds[m] == cs[m]);
            lemma_labels(label, label, m);
        }
        lemma_each(q, ds, true, l, ops, j + 1, k, label, f);
    }
}

proof fn lemma_below_each(
    q: QueryV,
    cs: Seq<ChildV>,
    in_array: bool,
    i: int,
    depth: int,
    ops: Seq<PathOpV>,
    j: int,
    k: int,
    label: Seq<char>,
    f: spec_fn(int) -> Seq<HitV>,
)
    requires
        depth < MAX_DEPTH,
        forall|m: int|
            i <= m < cs.len() ==> #[trigger] f(m) == selected_below(
                q,
                value_of(cs[m]),
                depth + 1,
                ops,
                j,
                k,
                child_label(label, cs[m], in_array, m),
            ),
    ensures
        selected_below_each(q, cs, in_array, i, depth, ops, j, k, label) == in_turn(
            f,
            i,
            cs.len() as int,
        ),
    decreases cs.len() - i,
{
    if i < cs.len() {
        assert(f(i) == selected_below(
            q,
            value_of(cs[i]),
            depth + 1,
            ops,
            j,
            k,
            child_label(label, cs[i], in_array, i),
        ));
        lemma_below_each(q, cs, in_array, i + 1, depth, ops, j, k, label, f);
    }
}

/// `..` goes on from the value itself, and then does the same for each of its children in
/// turn, down to the deepest level that is walked.
pub proof fn law_recurse_step(
    q: QueryV,
    v: ValueV,
    depth: int,
    ops: Seq<PathOpV>,
    j: int,
    k: int,
    label: Seq<char>,
)
    requires
        0 <= depth <= 512,
    ensures
        0 <= j < ops.len() && ops[j] == PathOpV::Recurse ==> selected_by_path(
            q,
            v,
            ops,
            j,
            k,
            label,
        ) == selected_below(q, v, 0, ops, j + 1, k, label),
        ({
            let cs = children(q.b, v);
            selected_below(q, v, depth, ops, j, k, label) == selected_by_path(
                q,
                v,
                ops,
                j,
                k,
                label,
            ) + (if depth < 512 && (v.kind == Kind::Array || v.kind == Kind::Object) {
                in_turn(
                    |i: int|
                        selected_below(
                            q,
                            value_of(cs[i]),
                            depth + 1,
                            ops,
                            j,
                            k,
                            label_below(v, label, cs[i], i),
                        ),
                    0,
                    cs.len() as int,
                )
            } else {
                Seq::empty()
            })
        }),
{
    let cs = children(q.b, v);
    let f = |i: int|
        selected_below(
            q,
            value_of(cs[i]),
            depth + 1,
            ops,
            j,
            k,
            label_below(v, label, cs[i], i),
        );
    assert(cs == elements(q.b, v));
    if depth < 512 && (v.kind == Kind::Array || v.kind == Kind::Object) {
        assert forall|m: int| 0 <= m < cs.len() implies #[trigger] f(m) == selected_below(
            q,
            value_of(cs[m]),
            depth + 1,
            ops,
            j,
            k,
            child_label(label, cs[m], v.kind is Array, m),
        ) by {
            lemma_labels(label, cs[m].label, m);
        }
        lemma_below_each(q, cs, v.kind is Array, 0, depth, ops, j, k, label, f);
    }
}

// ---------------------------------------------------------------------------
// Stages
// ---------------------------------------------------------------------------
/// A value that has come through every stage is selected as it is; whether its end is known
/// is told by its kind.
pub proof fn law_what_comes_through_is_selected(q: QueryV, v: ValueV, k: int, label: Seq<char>)
    requires
        k >= q.stages.len(),
    ensures
        selected(q, v, k, label) == seq![
            HitV {
                label,
                start: v.start,
                end: v.end,
                kind: v.kind,
                end_exact: v.kind != Kind::Array && v.kind != Kind::Object,
            },
        ],
{
}

/// A path with no steps left hands the value on to the next stage.
pub proof fn law_path_ends(
    q: QueryV,
    v: ValueV,
    ops: Seq<PathOpV>,
    j: int,
    k: int,
    label: Seq<char>,
)
    requires
        j >= ops.len(),
    ensures
        selected_by_path(q, v, ops, j, k, label) == selected(q, v, k, label),
{
}

/// A stage hands the value to each of its terms in turn: `select` passes it on, unchanged,
/// where its condition holds, and a path goes its way.
pub proof fn law_stage(q: QueryV, v: ValueV, k: int, label: Seq<char>)
    requires
        0 <= k < q.stages.len(),
    ensures
        selected(q, v, k, label) == in_turn(
            |t: int|
                match q.stages[k][t] {
                    TermV::Select(cond) => if holds(q.b, q.num, v, cond) {
                        selected(q, v, k + 1, label)
                    } else {
                        Seq::empty()
                    },
                    TermV::Path(ops) => selected_by_path(q, v, ops, 0, k + 1, label),
                },
            0,
            q.stages[k].len() as int,
        ),
{
    lemma_terms(q, v, k, 0, label);
}

proof fn lemma_terms(q: QueryV, v: ValueV, k: int, t: int, label: Seq<char>)
    requires
        0 <= k < q.stages.len(),
        0 <= t,
    ensures
        selected_by_terms(q, v, k, t, label) == in_turn(
            |t: int|
                match q.stages[k][t] {
                    TermV::Select(cond) => if holds(q.b, q.num, v, cond) {
                        selected(q, v, k + 1, label)
                    } else {
                        Seq::empty()
                    },
                    TermV::Path(ops) => selected_by_path(q, v, ops, 0, k + 1, label),
                },
            t,
            q.stages[k].len() as int,
        ),
    decreases q.stages[k].len() - t,
{
    if t < q.stages[k].len() {
        lemma_terms(q, v, k, t + 1, label);
    }
}

/// A program is run over the document from the root, and over documents that follow one
/// another for each in turn.
pub proof fn law_where_a_program_starts(q: QueryV, start: int, end: int, kind: Kind)
    ensures
        everything_selected(q, false, start, end, kind) == (if start < end {
            selected(q, ValueV { start, end, kind }, 0, Seq::empty())
        } else {
            Seq::empty()
        }),
        everything_selected(q, true, start, end, kind) == in_turn(
            |i: int|
                selected(
                    q,
                    value_of(children_from(q.b, level_of_lines(start, end))[i]),
                    0,
                    seq!['['] + decimal(i as nat) + seq![']'],
                ),
            0,
            children_from(q.b, level_of_lines(start, end)).len() as int,
        ),
{
    let docs = children_from(q.b, level_of_lines(start, end));
    lemma_documents(q, docs, 0);
}

proof fn lemma_documents(q: QueryV, docs: Seq<ChildV>, i: int)
    requires
        0 <= i,
    ensures
        selected_by_documents(q, docs, i) == in_turn(
            |i: int|
                selected(
                    q,
                    value_of(docs[i]),
                    0,
                    seq!['['] + decimal(i as nat) + seq![']'],
                ),
            i,
            docs.len() as int,
        ),
    decreases docs.len() - i,
{
    if i < docs.len() {
        lemma_labels(Seq::empty(), Seq::empty(), i);
        assert(bracketed(Seq::empty(), i) =~= seq!['['] + decimal(i as nat) + seq![']']);
        lemma_documents(q, docs, i + 1);
    }
}

} // verus!
