//! What holds of every selection: what a filter selects are values of the document,
//! and a pipe feeds what comes out of one stage into the next.

use crate::filter::{
    at_path, child_label, comparison, element, elements, everything_selected, field_label,
    first_children, hit, holds, index_label, labelled, lemma_child_value_wf, lemma_level_of_wf,
    member, operand_value, selected, selected_below, selected_below_each, selected_by_documents,
    selected_by_each, selected_by_path, selected_by_terms, slice_bound, value_of, value_wf, HitV,
    QueryV, ValV, ValueV,
};
use crate::pane::hits_wf;
use crate::program::{CmpOp, CondV, OperandV, PathOpV, PathSegV, TermV};
use crate::scanner::{
    addressable, after_child, children_from, lemma_next_child, level_of, level_of_lines, level_wf,
    next_child, ChildV, Kind, LevelV, MAX_DEPTH,
};
use crate::search::PatternV;
use crate::tree::value_range;
use crate::worker::outcome;
use vstd::prelude::*;

verus! {

// ---------------------------------------------------------------------------
// What is selected is there
// ---------------------------------------------------------------------------
pub open spec fn children_wf(b: Seq<u8>, cs: Seq<ChildV>) -> bool {
    forall|i: int| 0 <= i < cs.len() ==> value_wf(b, value_of(#[trigger] cs[i]))
}

proof fn lemma_children_wf(b: Seq<u8>, s: LevelV)
    requires
        addressable(b),
        level_wf(b, s),
    ensures
        children_wf(b, children_from(b, s)),
    decreases usize::MAX - s.index,
{
    if next_child(b, s) is Some && s.index < usize::MAX {
        lemma_next_child(b, s);
        lemma_child_value_wf(b, s);
        lemma_children_wf(b, after_child(b, s));
        let rest = children_from(b, after_child(b, s));
        let all = children_from(b, s);
        assert forall|i: int| 0 <= i < all.len() implies value_wf(b, value_of(#[trigger] all[i])) by {
            if i > 0 {
                assert(all[i] == rest[i - 1]);
            }
        }
    }
}

proof fn lemma_elements_wf(b: Seq<u8>, v: ValueV)
    requires
        value_wf(b, v),
        v.kind.is_container(),
    ensures
        children_wf(b, elements(b, v)),
{
    lemma_level_of_wf(b, v);
    lemma_children_wf(b, level_of(v.start, v.end, v.kind is Array));
}

proof fn lemma_member_wf(b: Seq<u8>, v: ValueV, key: Seq<char>)
    requires
        value_wf(b, v),
    ensures
        member(b, v, key) matches Some(w) ==> value_wf(b, w),
{
    if v.kind.is_container() {
        lemma_elements_wf(b, v);
        lemma_labelled(elements(b, v), key, 0);
    }
}

proof fn lemma_labelled(cs: Seq<ChildV>, key: Seq<char>, i: int)
    requires
        0 <= i,
    ensures
        labelled(cs, key, i) matches Some(k) ==> i <= k < cs.len(),
    decreases cs.len() - i,
{
    if i < cs.len() && cs[i].label != key {
        lemma_labelled(cs, key, i + 1);
    }
}

proof fn lemma_hits_join(b: Seq<u8>, x: Seq<HitV>, y: Seq<HitV>)
    requires
        hits_wf(b, x),
        hits_wf(b, y),
    ensures
        hits_wf(b, x + y),
{
    let z = x + y;
    assert forall|i: int| 0 <= i < z.len() implies value_range(
        b,
        (#[trigger] z[i]).start,
        z[i].end,
        z[i].kind,
    ) by {
        if i < x.len() {
            assert(z[i] == x[i]);
        } else {
            assert(z[i] == y[i - x.len()]);
        }
    }
}

proof fn lemma_selected_wf(q: QueryV, v: ValueV, k: int, label: Seq<char>)
    requires
        value_wf(q.b, v),
        0 <= k,
    ensures
        hits_wf(q.b, selected(q, v, k, label)),
    decreases q.stages.len() - k, 1int, 0int, 0int, 0int, 0int,
{
    if k < q.stages.len() {
        lemma_by_terms_wf(q, v, k, 0, label);
    }
}

proof fn lemma_by_terms_wf(q: QueryV, v: ValueV, k: int, t: int, label: Seq<char>)
    requires
        value_wf(q.b, v),
        0 <= k,
        0 <= t,
    ensures
        hits_wf(q.b, selected_by_terms(q, v, k, t, label)),
    decreases q.stages.len() - k, 0int, q.stages[k].len() - t, 0int, 0int, 0int,
{
    if k < q.stages.len() && t < q.stages[k].len() {
        let rest = selected_by_terms(q, v, k, t + 1, label);
        lemma_by_terms_wf(q, v, k, t + 1, label);
        match q.stages[k][t] {
            TermV::Select(cond) => {
                if holds(q.b, q.num, v, cond) {
                    lemma_selected_wf(q, v, k + 1, label);
                    lemma_hits_join(q.b, selected(q, v, k + 1, label), rest);
                } else {
                    lemma_hits_join(q.b, Seq::empty(), rest);
                }
            },
            TermV::Path(ops) => {
                lemma_by_path_wf(q, v, ops, 0, k + 1, label);
                lemma_hits_join(q.b, selected_by_path(q, v, ops, 0, k + 1, label), rest);
            },
        }
    }
}

proof fn lemma_by_path_wf(
    q: QueryV,
    v: ValueV,
    ops: Seq<PathOpV>,
    j: int,
    k: int,
    label: Seq<char>,
)
    requires
        value_wf(q.b, v),
        0 <= k,
        0 <= j,
    ensures
        hits_wf(q.b, selected_by_path(q, v, ops, j, k, label)),
    decreases q.stages.len() - k, 2int, ops.len() - j, 0int, 0int, 0int,
{
    if j >= ops.len() {
        lemma_selected_wf(q, v, k, label);
    } else {
        if v.kind.is_container() {
            lemma_elements_wf(q.b, v);
        }
        match ops[j] {
            PathOpV::Field(key) => {
                if let Some(w) = member(q.b, v, key) {
                    lemma_member_wf(q.b, v, key);
                    lemma_by_path_wf(q, w, ops, j + 1, k, field_label(label, key));
                }
            },
            PathOpV::Index(idx) => {
                if let Some((w, i)) = element(q.b, v, idx) {
                    lemma_by_path_wf(q, w, ops, j + 1, k, index_label(label, i));
                }
            },
            PathOpV::Slice(lo, hi) => {
                if v.kind is Array {
                    let es = elements(q.b, v);
                    let l = slice_bound(lo, es.len() as int, 0);
                    let h = slice_bound(hi, es.len() as int, es.len() as int);
                    lemma_by_each_wf(q, first_children(es, h), true, l, ops, j + 1, k, label);
                }
            },
            PathOpV::Iterate => {
                if v.kind.is_container() {
                    let es = elements(q.b, v);
                    lemma_by_each_wf(q, es, v.kind is Array, 0, ops, j + 1, k, label);
                }
            },
            PathOpV::Recurse => {
                lemma_below_wf(q, v, 0, ops, j + 1, k, label);
            },
        }
    }
}

proof fn lemma_by_each_wf(
    q: QueryV,
    cs: Seq<ChildV>,
    in_array: bool,
    i: int,
    ops: Seq<PathOpV>,
    j: int,
    k: int,
    label: Seq<char>,
)
    requires
        children_wf(q.b, cs),
        0 <= i,
        0 <= k,
        0 <= j,
    ensures
        hits_wf(q.b, selected_by_each(q, cs, in_array, i, ops, j, k, label)),
    decreases q.stages.len() - k, 2int, ops.len() - j, 1int, 0int, cs.len() - i,
{
    if i < cs.len() {
        let l = child_label(label, cs[i], in_array, i);
        lemma_by_path_wf(q, value_of(cs[i]), ops, j, k, l);
        lemma_by_each_wf(q, cs, in_array, i + 1, ops, j, k, label);
        lemma_hits_join(
            q.b,
            selected_by_path(q, value_of(cs[i]), ops, j, k, l),
            selected_by_each(q, cs, in_array, i + 1, ops, j, k, label),
        );
    }
}

proof fn lemma_below_wf(
    q: QueryV,
    v: ValueV,
    depth: int,
    ops: Seq<PathOpV>,
    j: int,
    k: int,
    label: Seq<char>,
)
    requires
        value_wf(q.b, v),
        0 <= k,
        0 <= j,
    ensures
        hits_wf(q.b, selected_below(q, v, depth, ops, j, k, label)),
    decreases q.stages.len() - k, 2int, ops.len() - j, 2 + MAX_DEPTH - depth, 1int, 0int,
{
    if depth <= MAX_DEPTH {
        let own = selected_by_path(q, v, ops, j, k, label);
        lemma_by_path_wf(q, v, ops, j, k, label);
        if depth < MAX_DEPTH && v.kind.is_container() {
            let es = elements(q.b, v);
            lemma_elements_wf(q.b, v);
            lemma_below_each_wf(q, es, v.kind is Array, 0, depth, ops, j, k, label);
            lemma_hits_join(
                q.b,
                own,
                selected_below_each(q, es, v.kind is Array, 0, depth, ops, j, k, label),
            );
        } else {
            lemma_hits_join(q.b, own, Seq::empty());
        }
    }
}

proof fn lemma_below_each_wf(
    q: QueryV,
    cs: Seq<ChildV>,
    in_array: bool,
    i: int,
    depth: int,
    ops: Seq<PathOpV>,
    j: int,
    k: int,
    label: Seq<char>,
)
    requires
        children_wf(q.b, cs),
        0 <= i,
        0 <= k,
        0 <= j,
    ensures
        hits_wf(q.b, selected_below_each(q, cs, in_array, i, depth, ops, j, k, label)),
    decreases q.stages.len() - k, 2int, ops.len() - j, 2 + MAX_DEPTH - depth, 0int, cs.len() - i,
{
    if i < cs.len() && depth < MAX_DEPTH {
        let l = child_label(label, cs[i], in_array, i);
        lemma_below_wf(q, value_of(cs[i]), depth + 1, ops, j, k, l);
        lemma_below_each_wf(q, cs, in_array, i + 1, depth, ops, j, k, label);
        lemma_hits_join(
            q.b,
            selected_below(q, value_of(cs[i]), depth + 1, ops, j, k, l),
            selected_below_each(q, cs, in_array, i + 1, depth, ops, j, k, label),
        );
    }
}

proof fn lemma_by_documents_wf(q: QueryV, docs: Seq<ChildV>, i: int)
    requires
        children_wf(q.b, docs),
        0 <= i,
    ensures
        hits_wf(q.b, selected_by_documents(q, docs, i)),
    decreases docs.len() - i,
{
    if i < docs.len() {
        let l = index_label(Seq::empty(), i);
        lemma_selected_wf(q, value_of(docs[i]), 0, l);
        lemma_by_documents_wf(q, docs, i + 1);
        lemma_hits_join(
            q.b,
            selected(q, value_of(docs[i]), 0, l),
            selected_by_documents(q, docs, i + 1),
        );
    }
}

/// A filter builds no new values: whatever it selects is a value of the document, a
/// byte range of it.
pub proof fn law_hits_are_in_the_document(
    q: QueryV,
    jsonl: bool,
    start: int,
    end: int,
    kind: Kind,
)
    requires
        addressable(q.b),
        if jsonl {
            0 <= start && 0 <= end <= q.b.len() + 1
        } else {
            value_wf(q.b, ValueV { start, end, kind })
        },
    ensures
        hits_wf(q.b, everything_selected(q, jsonl, start, end, kind)),
{
    if jsonl {
        lemma_children_wf(q.b, level_of_lines(start, end));
        lemma_by_documents_wf(q, children_from(q.b, level_of_lines(start, end)), 0);
    } else if start < end {
        lemma_selected_wf(q, ValueV { start, end, kind }, 0, Seq::empty());
    }
}

// ---------------------------------------------------------------------------
// What a pipe does
// ---------------------------------------------------------------------------
/// A program with other stages in front of its own.
pub open spec fn behind(pre: Seq<Seq<TermV>>, q: QueryV) -> QueryV {
    QueryV { stages: pre + q.stages, ..q }
}

/// What a program selects from values that were selected before, one after another.
pub open spec fn selected_from_hits(q: QueryV, hits: Seq<HitV>) -> Seq<HitV>
    decreases hits.len(),
{
    if hits.len() == 0 {
        Seq::empty()
    } else {
        let h = hits.last();
        selected_from_hits(q, hits.drop_last()) + selected(
            q,
            ValueV { start: h.start, end: h.end, kind: h.kind },
            0,
            h.label,
        )
    }
}

proof fn lemma_from_hits_join(q: QueryV, x: Seq<HitV>, y: Seq<HitV>)
    ensures
        selected_from_hits(q, x + y) == selected_from_hits(q, x) + selected_from_hits(q, y),
    decreases y.len(),
{
    let all = x + y;
    if y.len() == 0 {
        assert(all =~= x);
        assert(selected_from_hits(q, x) + Seq::<HitV>::empty() =~= selected_from_hits(q, x));
    } else {
        assert(all.drop_last() =~= x + y.drop_last());
        assert(all.last() == y.last());
        lemma_from_hits_join(q, x, y.drop_last());
        let h = y.last();
        let last = selected(q, ValueV { start: h.start, end: h.end, kind: h.kind }, 0, h.label);
        assert(selected_from_hits(q, x) + selected_from_hits(q, y.drop_last()) + last
            =~= selected_from_hits(q, x) + (selected_from_hits(q, y.drop_last()) + last));
    }
}

proof fn lemma_selected_behind(pre: Seq<Seq<TermV>>, q: QueryV, v: ValueV, k: int, label: Seq<char>)
    requires
        0 <= k,
    ensures
        selected(behind(pre, q), v, pre.len() + k, label) == selected(q, v, k, label),
    decreases q.stages.len() - k, 1int, 0int, 0int, 0int, 0int,
{
    if k < q.stages.len() {
        lemma_by_terms_behind(pre, q, v, k, 0, label);
    }
}

proof fn lemma_by_terms_behind(
    pre: Seq<Seq<TermV>>,
    q: QueryV,
    v: ValueV,
    k: int,
    t: int,
    label: Seq<char>,
)
    requires
        0 <= k,
        0 <= t,
    ensures
        selected_by_terms(behind(pre, q), v, pre.len() + k, t, label) == selected_by_terms(q, v, k, t, label),
    decreases q.stages.len() - k, 0int, q.stages[k].len() - t, 0int, 0int, 0int,
{
    if k < q.stages.len() && t < q.stages[k].len() {
        assert(behind(pre, q).stages[pre.len() + k] == q.stages[k]);
        lemma_by_terms_behind(pre, q, v, k, t + 1, label);
        match q.stages[k][t] {
            TermV::Select(cond) => {
                lemma_selected_behind(pre, q, v, k + 1, label);
            },
            TermV::Path(ops) => {
                lemma_by_path_behind(pre, q, v, ops, 0, k + 1, label);
            },
        }
    } else if k < q.stages.len() {
        assert(behind(pre, q).stages[pre.len() + k] == q.stages[k]);
    }
}

proof fn lemma_by_path_behind(
    pre: Seq<Seq<TermV>>,
    q: QueryV,
    v: ValueV,
    ops: Seq<PathOpV>,
    j: int,
    k: int,
    label: Seq<char>,
)
    requires
        0 <= k,
        0 <= j,
    ensures
        selected_by_path(behind(pre, q), v, ops, j, pre.len() + k, label) == selected_by_path(
            q,
            v,
            ops,
            j,
            k,
            label,
        ),
    decreases q.stages.len() - k, 2int, ops.len() - j, 0int, 0int, 0int,
{
    if j >= ops.len() {
        lemma_selected_behind(pre, q, v, k, label);
    } else {
        match ops[j] {
            PathOpV::Field(key) => {
                if let Some(w) = member(q.b, v, key) {
                    lemma_by_path_behind(pre, q, w, ops, j + 1, k, field_label(label, key));
                }
            },
            PathOpV::Index(idx) => {
                if let Some((w, i)) = element(q.b, v, idx) {
                    lemma_by_path_behind(pre, q, w, ops, j + 1, k, index_label(label, i));
                }
            },
            PathOpV::Slice(lo, hi) => {
                let es = elements(q.b, v);
                let l = slice_bound(lo, es.len() as int, 0);
                let h = slice_bound(hi, es.len() as int, es.len() as int);
                lemma_by_each_behind(pre, q, first_children(es, h), true, l, ops, j + 1, k, label);
            },
            PathOpV::Iterate => {
                let es = elements(q.b, v);
                lemma_by_each_behind(pre, q, es, v.kind is Array, 0, ops, j + 1, k, label);
            },
            PathOpV::Recurse => {
                lemma_below_behind(pre, q, v, 0, ops, j + 1, k, label);
            },
        }
    }
}

proof fn lemma_by_each_behind(
    pre: Seq<Seq<TermV>>,
    q: QueryV,
    cs: Seq<ChildV>,
    in_array: bool,
    i: int,
    ops: Seq<PathOpV>,
    j: int,
    k: int,
    label: Seq<char>,
)
    requires
        0 <= i,
        0 <= k,
        0 <= j,
    ensures
        selected_by_each(behind(pre, q), cs, in_array, i, ops, j, pre.len() + k, label)
            == selected_by_each(q, cs, in_array, i, ops, j, k, label),
    decreases q.stages.len() - k, 2int, ops.len() - j, 1int, 0int, cs.len() - i,
{
    if i < cs.len() {
        let l = child_label(label, cs[i], in_array, i);
        lemma_by_path_behind(pre, q, value_of(cs[i]), ops, j, k, l);
        lemma_by_each_behind(pre, q, cs, in_array, i + 1, ops, j, k, label);
    }
}

proof fn lemma_below_behind(
    pre: Seq<Seq<TermV>>,
    q: QueryV,
    v: ValueV,
    depth: int,
    ops: Seq<PathOpV>,
    j: int,
    k: int,
    label: Seq<char>,
)
    requires
        0 <= k,
        0 <= j,
    ensures
        selected_below(behind(pre, q), v, depth, ops, j, pre.len() + k, label) == selected_below(
            q,
            v,
            depth,
            ops,
            j,
            k,
            label,
        ),
    decreases q.stages.len() - k, 2int, ops.len() - j, 2 + MAX_DEPTH - depth, 1int, 0int,
{
    if depth <= MAX_DEPTH {
        lemma_by_path_behind(pre, q, v, ops, j, k, label);
        if depth < MAX_DEPTH && v.kind.is_container() {
            let es = elements(q.b, v);
            lemma_below_each_behind(pre, q, es, v.kind is Array, 0, depth, ops, j, k, label);
        }
    }
}

proof fn lemma_below_each_behind(
    pre: Seq<Seq<TermV>>,
    q: QueryV,
    cs: Seq<ChildV>,
    in_array: bool,
    i: int,
    depth: int,
    ops: Seq<PathOpV>,
    j: int,
    k: int,
    label: Seq<char>,
)
    requires
        0 <= i,
        0 <= k,
        0 <= j,
    ensures
        selected_below_each(behind(pre, q), cs, in_array, i, depth, ops, j, pre.len() + k, label)
            == selected_below_each(q, cs, in_array, i, depth, ops, j, k, label),
    decreases q.stages.len() - k, 2int, ops.len() - j, 2 + MAX_DEPTH - depth, 0int, cs.len() - i,
{
    if i < cs.len() && depth < MAX_DEPTH {
        let l = child_label(label, cs[i], in_array, i);
        lemma_below_behind(pre, q, value_of(cs[i]), depth + 1, ops, j, k, l);
        lemma_below_each_behind(pre, q, cs, in_array, i + 1, depth, ops, j, k, label);
    }
}

/// Two programs over the same document as one, with a pipe between them.
pub open spec fn piped(p: QueryV, q: QueryV) -> QueryV {
    behind(p.stages, q)
}

proof fn lemma_selected_piped(p: QueryV, q: QueryV, v: ValueV, k: int, label: Seq<char>)
    requires
        p.b == q.b,
        p.num == q.num,
        0 <= k <= p.stages.len(),
    ensures
        selected(piped(p, q), v, k, label) == selected_from_hits(q, selected(p, v, k, label)),
    decreases p.stages.len() - k, 1int, 0int, 0int, 0int, 0int,
{
    if k < p.stages.len() {
        lemma_by_terms_piped(p, q, v, k, 0, label);
    } else {
        let one = seq![hit(label, v)];
        lemma_selected_behind(p.stages, q, v, 0, label);
        assert(one.drop_last() =~= Seq::empty());
        reveal_with_fuel(selected_from_hits, 2);
        assert(Seq::<HitV>::empty() + selected(q, v, 0, label) =~= selected(q, v, 0, label));
    }
}

proof fn lemma_by_terms_piped(
    p: QueryV,
    q: QueryV,
    v: ValueV,
    k: int,
    t: int,
    label: Seq<char>,
)
    requires
        p.b == q.b,
        p.num == q.num,
        0 <= k <= p.stages.len(),
        0 <= t,
        k < p.stages.len(),
    ensures
        selected_by_terms(piped(p, q), v, k, t, label) == selected_from_hits(
            q,
            selected_by_terms(p, v, k, t, label),
        ),
    decreases p.stages.len() - k, 0int, p.stages[k].len() - t, 0int, 0int, 0int,
{
    assert(piped(p, q).stages[k] == p.stages[k]);
    if t < p.stages[k].len() {
        let rest = selected_by_terms(p, v, k, t + 1, label);
        lemma_by_terms_piped(p, q, v, k, t + 1, label);
        match p.stages[k][t] {
            TermV::Select(cond) => {
                if holds(p.b, p.num, v, cond) {
                    lemma_selected_piped(p, q, v, k + 1, label);
                    lemma_from_hits_join(q, selected(p, v, k + 1, label), rest);
                } else {
                    lemma_from_hits_join(q, Seq::empty(), rest);
                }
            },
            TermV::Path(ops) => {
                lemma_by_path_piped(p, q, v, ops, 0, k + 1, label);
                lemma_from_hits_join(q, selected_by_path(p, v, ops, 0, k + 1, label), rest);
            },
        }
    }
}

proof fn lemma_by_path_piped(
    p: QueryV,
    q: QueryV,
    v: ValueV,
    ops: Seq<PathOpV>,
    j: int,
    k: int,
    label: Seq<char>,
)
    requires
        p.b == q.b,
        p.num == q.num,
        0 <= k <= p.stages.len(),
        0 <= j,
    ensures
        selected_by_path(piped(p, q), v, ops, j, k, label) == selected_from_hits(
            q,
            selected_by_path(p, v, ops, j, k, label),
        ),
    decreases p.stages.len() - k, 2int, ops.len() - j, 0int, 0int, 0int,
{
    if j >= ops.len() {
        lemma_selected_piped(p, q, v, k, label);
    } else {
        match ops[j] {
            PathOpV::Field(key) => {
                if let Some(w) = member(p.b, v, key) {
                    lemma_by_path_piped(p, q, w, ops, j + 1, k, field_label(label, key));
                }
            },
            PathOpV::Index(idx) => {
                if let Some((w, i)) = element(p.b, v, idx) {
                    lemma_by_path_piped(p, q, w, ops, j + 1, k, index_label(label, i));
                }
            },
            PathOpV::Slice(lo, hi) => {
                let es = elements(p.b, v);
                let l = slice_bound(lo, es.len() as int, 0);
                let h = slice_bound(hi, es.len() as int, es.len() as int);
                lemma_by_each_piped(p, q, first_children(es, h), true, l, ops, j + 1, k, label);
            },
            PathOpV::Iterate => {
                let es = elements(p.b, v);
                lemma_by_each_piped(p, q, es, v.kind is Array, 0, ops, j + 1, k, label);
            },
            PathOpV::Recurse => {
                lemma_below_piped(p, q, v, 0, ops, j + 1, k, label);
            },
        }
    }
}

proof fn lemma_by_each_piped(
    p: QueryV,
    q: QueryV,
    cs: Seq<ChildV>,
    in_array: bool,
    i: int,
    ops: Seq<PathOpV>,
    j: int,
    k: int,
    label: Seq<char>,
)
    requires
        p.b == q.b,
        p.num == q.num,
        0 <= k <= p.stages.len(),
        0 <= j,
        0 <= i,
    ensures
        selected_by_each(piped(p, q), cs, in_array, i, ops, j, k, label) == selected_from_hits(
            q,
            selected_by_each(p, cs, in_array, i, ops, j, k, label),
        ),
    decreases p.stages.len() - k, 2int, ops.len() - j, 1int, 0int, cs.len() - i,
{
    if i < cs.len() {
        let l = child_label(label, cs[i], in_array, i);
        lemma_by_path_piped(p, q, value_of(cs[i]), ops, j, k, l);
        lemma_by_each_piped(p, q, cs, in_array, i + 1, ops, j, k, label);
        lemma_from_hits_join(
            q,
            selected_by_path(p, value_of(cs[i]), ops, j, k, l),
            selected_by_each(p, cs, in_array, i + 1, ops, j, k, label),
        );
    }
}

proof fn lemma_below_piped(
    p: QueryV,
    q: QueryV,
    v: ValueV,
    depth: int,
    ops: Seq<PathOpV>,
    j: int,
    k: int,
    label: Seq<char>,
)
    requires
        p.b == q.b,
        p.num == q.num,
        0 <= k <= p.stages.len(),
        0 <= j,
    ensures
        selected_below(piped(p, q), v, depth, ops, j, k, label) == selected_from_hits(
            q,
            selected_below(p, v, depth, ops, j, k, label),
        ),
    decreases p.stages.len() - k, 2int, ops.len() - j, 2 + MAX_DEPTH - depth, 1int, 0int,
{
    if depth <= MAX_DEPTH {
        let own = selected_by_path(p, v, ops, j, k, label);
        lemma_by_path_piped(p, q, v, ops, j, k, label);
        if depth < MAX_DEPTH && v.kind.is_container() {
            let es = elements(p.b, v);
            lemma_below_each_piped(p, q, es, v.kind is Array, 0, depth, ops, j, k, label);
            lemma_from_hits_join(
                q,
                own,
                selected_below_each(p, es, v.kind is Array, 0, depth, ops, j, k, label),
            );
        } else {
            lemma_from_hits_join(q, own, Seq::empty());
        }
    }
}

proof fn lemma_below_each_piped(
    p: QueryV,
    q: QueryV,
    cs: Seq<ChildV>,
    in_array: bool,
    i: int,
    depth: int,
    ops: Seq<PathOpV>,
    j: int,
    k: int,
    label: Seq<char>,
)
    requires
        p.b == q.b,
        p.num == q.num,
        0 <= k <= p.stages.len(),
        0 <= j,
        0 <= i,
    ensures
        selected_below_each(piped(p, q), cs, in_array, i, depth, ops, j, k, label) == selected_from_hits(
            q,
            selected_below_each(p, cs, in_array, i, depth, ops, j, k, label),
        ),
    decreases p.stages.len() - k, 2int, ops.len() - j, 2 + MAX_DEPTH - depth, 0int, cs.len() - i,
{
    if i < cs.len() && depth < MAX_DEPTH {
        let l = child_label(label, cs[i], in_array, i);
        lemma_below_piped(p, q, value_of(cs[i]), depth + 1, ops, j, k, l);
        lemma_below_each_piped(p, q, cs, in_array, i + 1, depth, ops, j, k, label);
        lemma_from_hits_join(
            q,
            selected_below(p, value_of(cs[i]), depth + 1, ops, j, k, l),
            selected_below_each(p, cs, in_array, i + 1, depth, ops, j, k, label),
        );
    }
}

/// A pipe chains programs: what the whole selects is what the second selects from
/// each of the values that the first selects, in that order.
pub proof fn law_pipe_chains(p: QueryV, q: QueryV, v: ValueV, label: Seq<char>)
    requires
        p.b == q.b,
        p.num == q.num,
    ensures
        selected(piped(p, q), v, 0, label) == selected_from_hits(q, selected(p, v, 0, label)),
{
    lemma_selected_piped(p, q, v, 0, label);
}

/// A comma unites: what a stage selects is what its first terms select, however many
/// those are, and behind that what the others select.
pub proof fn law_comma_unites(q: QueryV, v: ValueV, k: int, t: int, label: Seq<char>)
    requires
        0 <= k < q.stages.len(),
        0 <= t <= q.stages[k].len(),
    ensures
        ({
            let left = QueryV { stages: q.stages.update(k, q.stages[k].take(t)), ..q };
            selected_by_terms(q, v, k, 0, label) == selected_by_terms(left, v, k, 0, label)
                + selected_by_terms(q, v, k, t, label)
        }),
{
    lemma_comma(q, v, k, t, 0, label);
}

proof fn lemma_comma(q: QueryV, v: ValueV, k: int, t: int, i: int, label: Seq<char>)
    requires
        0 <= k < q.stages.len(),
        0 <= i <= t <= q.stages[k].len(),
    ensures
        ({
            let left = QueryV { stages: q.stages.update(k, q.stages[k].take(t)), ..q };
            selected_by_terms(q, v, k, i, label) == selected_by_terms(left, v, k, i, label)
                + selected_by_terms(q, v, k, t, label)
        }),
    decreases t - i,
{
    let left = QueryV { stages: q.stages.update(k, q.stages[k].take(t)), ..q };
    let cut = QueryV { stages: q.stages.skip(k + 1), ..q };
    if i < t {
        lemma_comma(q, v, k, t, i + 1, label);
        assert(left.stages[k][i] == q.stages[k][i]);
        // Both programs go on with the same stages.
        assert(behind(q.stages.take(k + 1), cut).stages =~= q.stages);
        assert(behind(left.stages.take(k + 1), cut).stages =~= left.stages);
        match q.stages[k][i] {
            TermV::Select(cond) => {
                lemma_selected_behind(q.stages.take(k + 1), cut, v, 0, label);
                lemma_selected_behind(left.stages.take(k + 1), cut, v, 0, label);
            },
            TermV::Path(ops) => {
                lemma_by_path_behind(q.stages.take(k + 1), cut, v, ops, 0, 0, label);
                lemma_by_path_behind(left.stages.take(k + 1), cut, v, ops, 0, 0, label);
            },
        }
        let first = match q.stages[k][i] {
            TermV::Select(cond) => if holds(q.b, q.num, v, cond) {
                selected(q, v, k + 1, label)
            } else {
                Seq::empty()
            },
            TermV::Path(ops) => selected_by_path(q, v, ops, 0, k + 1, label),
        };
        let united = selected_by_terms(left, v, k, i + 1, label);
        let rest = selected_by_terms(q, v, k, t, label);
        assert(first + (united + rest) =~= (first + united) + rest);
    } else {
        assert(selected_by_terms(left, v, k, t, label) == Seq::<HitV>::empty());
        let rest = selected_by_terms(q, v, k, t, label);
        assert(Seq::<HitV>::empty() + rest =~= rest);
    }
}

/// What a walk hands over are values of the document, however far it came.
pub proof fn law_sent_hits_are_in_the_document(
    b: Seq<u8>,
    all: Seq<HitV>,
    sent: Seq<HitV>,
    cap: int,
    stopped: bool,
)
    requires
        hits_wf(b, all),
        outcome(all, sent, cap, stopped),
    ensures
        hits_wf(b, sent),
{
    assert forall|i: int| 0 <= i < sent.len() implies value_range(
        b,
        (#[trigger] sent[i]).start,
        sent[i].end,
        sent[i].kind,
    ) by {
        assert(sent[i] == all[i]);
    }
}

// ---------------------------------------------------------------------------
// Conditions
// ---------------------------------------------------------------------------
/// Values of different kinds are simply unequal and unordered.
pub proof fn law_kinds_do_not_compare(a: ValV, op: CmpOp, c: ValV)
    requires
        a is Num != c is Num || a is Str != c is Str || a is Bool != c is Bool || a is Null
            != c is Null,
    ensures
        comparison(a, op, c) == (op is Ne),
{
}

/// A path that leads nowhere reads as null.
pub proof fn law_missing_is_null(
    b: Seq<u8>,
    num: spec_fn(Seq<char>) -> u64,
    v: ValueV,
    segs: Seq<PathSegV>,
)
    requires
        at_path(b, v, segs, 0) is None,
    ensures
        operand_value(b, num, v, OperandV::Path(segs)) is Null,
        !holds(b, num, v, CondV::Truthy(OperandV::Path(segs))),
{
}

/// Only strings match a pattern; what is none is what does not match.
pub proof fn law_only_strings_match(
    b: Seq<u8>,
    num: spec_fn(Seq<char>) -> u64,
    v: ValueV,
    lhs: OperandV,
    pattern: PatternV,
    negated: bool,
)
    requires
        !(operand_value(b, num, v, lhs) is Str),
    ensures
        holds(b, num, v, CondV::Match { lhs, pattern, negated }) == negated,
{
}

} // verus!
