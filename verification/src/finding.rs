//! What a search finds is there, and what is there is found: the paths it streams lead to
//! the nodes of the tree that the pattern is met by.

use crate::filter::{elements, value_of, ValueV};
use crate::reopening::{all_children, blank, lemma_fresh_children_wf, lemma_root_wf};
use crate::scanner::{
    addressable, children_from, decoded, empty_container, lemma_ws_end, level_of, level_of_lines,
    next_child, ChildV, Kind, MAX_DEPTH,
};
use crate::search::{
    all_matches, glob_regex, matches_below, matches_in_each, pattern_matches, query_pattern,
    regex_error, PatternV,
};
use crate::text::{has_prefix, lower_text, occurs_at};
use crate::tree::{
    arrives, document_root, fresh_cursor, fresh_node, node_wf, opened, scanned_to, NodeV,
};
use crate::unfolding::{ahead, lemma_children_bound, lemma_scan};
use vstd::prelude::*;
use vstd::utf8::*;

verus! {

/// Whether `q` goes on behind `path` to a node below `c`, which is at `path`.
spec fn leads(b: Seq<u8>, c: NodeV, path: Seq<usize>, q: Seq<usize>) -> bool {
    &&& path.len() <= q.len()
    &&& q.take(path.len() as int) == path
    &&& arrives(b, c, q.skip(path.len() as int))
}

/// Whether a node that has children says so.
pub open spec fn tells_children(b: Seq<u8>, c: NodeV) -> bool {
    c.kind.is_container() && all_children(b, c).len() > 0 ==> c.has_children
}

proof fn lemma_fresh_tells(b: Seq<u8>, c: ChildV)
    ensures
        tells_children(b, fresh_node(b, c)),
{
    let s = fresh_cursor(fresh_node(b, c)).level;
    if c.kind.is_container() && empty_container(b, c.start, c.end) {
        assert(next_child(b, s) is None);
    }
}

/// The way to the children of a node of which nothing is scanned.
proof fn lemma_child_arrives(b: Seq<u8>, c: NodeV, i: usize, rest: Seq<usize>)
    requires
        addressable(b),
        node_wf(b, c),
        blank(c),
        tells_children(b, c),
        c.kind.is_container(),
        i < all_children(b, c).len(),
        arrives(b, fresh_node(b, all_children(b, c)[i as int]), rest),
    ensures
        arrives(b, c, seq![i] + rest),
{
    let all = all_children(b, c);
    let s = fresh_cursor(c).level;
    let p = seq![i] + rest;
    let o = opened(c);
    assert(next_child(b, s) is Some);
    assert(ahead(b, o) == all);
    lemma_scan(b, o, i as int);
    let m = scanned_to(b, o, i as int);
    assert(m.children[i as int] == fresh_node(b, all[i as int]));
    assert(p.skip(1) =~= rest);
}

proof fn lemma_matches_lead(
    b: Seq<u8>,
    p: PatternV,
    c: NodeV,
    label: Seq<char>,
    depth: int,
    path: Seq<usize>,
    k: int,
)
    requires
        addressable(b),
        node_wf(b, c),
        blank(c),
        tells_children(b, c),
        !c.jsonl,
        depth <= MAX_DEPTH,
        0 <= k < matches_below(
            b,
            p,
            ValueV { start: c.start, end: c.end, kind: c.kind },
            label,
            depth,
            path,
        ).len(),
    ensures
        ({
            let v = ValueV { start: c.start, end: c.end, kind: c.kind };
            let q = matches_below(b, p, v, label, depth, path)[k];
            leads(b, c, path, q) && q.len() - path.len() <= MAX_DEPTH - depth
        }),
    decreases MAX_DEPTH - depth, 1int, 0int,
{
    let v = ValueV { start: c.start, end: c.end, kind: c.kind };
    let all = matches_below(b, p, v, label, depth, path);
    let below = if depth < MAX_DEPTH && v.kind.is_container() {
        matches_in_each(b, p, elements(b, v), 0, depth, path)
    } else {
        Seq::empty()
    };
    if all.len() > below.len() && k == 0 {
        assert(all[0] == path);
        assert(path.take(path.len() as int) =~= path);
        assert(path.skip(path.len() as int) =~= Seq::<usize>::empty());
    } else {
        let j = k - (all.len() - below.len());
        assert(all[k] == below[j]);
        assert(elements(b, v) == all_children(b, c));
        lemma_child_matches_lead(b, p, c, 0, depth, path, j);
    }
}

proof fn lemma_child_matches_lead(
    b: Seq<u8>,
    p: PatternV,
    c: NodeV,
    i: int,
    depth: int,
    path: Seq<usize>,
    k: int,
)
    requires
        addressable(b),
        node_wf(b, c),
        blank(c),
        tells_children(b, c),
        c.kind.is_container(),
        0 <= i,
        depth < MAX_DEPTH,
        0 <= k < matches_in_each(b, p, all_children(b, c), i, depth, path).len(),
    ensures
        ({
            let q = matches_in_each(b, p, all_children(b, c), i, depth, path)[k];
            leads(b, c, path, q) && q.len() - path.len() <= MAX_DEPTH - depth
        }),
    decreases MAX_DEPTH - depth, 0int, all_children(b, c).len() - i,
{
    let cs = all_children(b, c);
    let s = fresh_cursor(c).level;
    lemma_children_bound(b, s);
    lemma_fresh_children_wf(b, s);
    let x = i as usize;
    let kid = fresh_node(b, cs[i]);
    let to = path.push(x);
    let first = matches_below(b, p, value_of(cs[i]), cs[i].label, depth + 1, to);
    let all = matches_in_each(b, p, cs, i, depth, path);
    if k < first.len() {
        assert(all[k] == first[k]);
        lemma_fresh_tells(b, cs[i]);
        lemma_matches_lead(b, p, kid, cs[i].label, depth + 1, to, k);
        let q = first[k];
        let rest = q.skip(to.len() as int);
        lemma_child_arrives(b, c, x, rest);
        assert(q.take(to.len() as int)[path.len() as int] == x);
        assert(q.skip(path.len() as int) =~= seq![x] + rest);
        assert(q.take(path.len() as int) =~= q.take(to.len() as int).take(path.len() as int));
        assert(to.take(path.len() as int) =~= path);
    } else {
        assert(all[k] == matches_in_each(b, p, cs, i + 1, depth, path)[k - first.len()]);
        lemma_child_matches_lead(b, p, c, i + 1, depth, path, k - first.len());
    }
}

// ---------------------------------------------------------------------------
// Laws
// ---------------------------------------------------------------------------
/// The paths that a search of a tree's bytes finds lead to nodes of the tree, none deeper
/// than a jump goes.
pub proof fn law_matches_are_nodes(b: Seq<u8>, p: PatternV, c: NodeV, k: int)
    requires
        addressable(b),
        node_wf(b, c),
        blank(c),
        tells_children(b, c),
        0 <= k < all_matches(b, p, c.jsonl, c.start, c.end, c.kind).len(),
    ensures
        arrives(b, c, all_matches(b, p, c.jsonl, c.start, c.end, c.kind)[k]),
        all_matches(b, p, c.jsonl, c.start, c.end, c.kind)[k].len() <= MAX_DEPTH,
{
    let q = all_matches(b, p, c.jsonl, c.start, c.end, c.kind)[k];
    if c.jsonl {
        lemma_child_matches_lead(b, p, c, 0, 0, Seq::empty(), k);
    } else {
        lemma_matches_lead(b, p, c, Seq::empty(), 0, Seq::empty(), k);
    }
    assert(q.skip(0) =~= q);
}

/// What a search of the document finds are nodes of its tree.
pub proof fn law_document_matches_are_nodes(
    b: Seq<u8>,
    p: PatternV,
    name: Seq<char>,
    jsonl: bool,
    k: int,
)
    requires
        addressable(b),
        ({
            let c = document_root(b, name, jsonl);
            0 <= k < all_matches(b, p, c.jsonl, c.start, c.end, c.kind).len()
        }),
    ensures
        ({
            let c = document_root(b, name, jsonl);
            let q = all_matches(b, p, c.jsonl, c.start, c.end, c.kind)[k];
            arrives(b, c, q) && q.len() <= MAX_DEPTH
        }),
{
    let c = document_root(b, name, jsonl);
    lemma_root_wf(b, name, jsonl);
    if c.kind.is_container() && !c.has_children {
        lemma_ws_end(b, 0, b.len() as int);
        assert(next_child(b, fresh_cursor(c).level) is None);
    }
    law_matches_are_nodes(b, p, c, k);
}

// ---------------------------------------------------------------------------
// Everything that matches is found
// ---------------------------------------------------------------------------
/// The value that a path leads to below `v`, with its label: each step goes to the child of
/// that number.
pub open spec fn found_at(b: Seq<u8>, v: ValueV, label: Seq<char>, q: Seq<usize>) -> Option<
    (ValueV, Seq<char>),
>
    decreases q.len(),
{
    if q.len() == 0 {
        Some((v, label))
    } else if v.kind == Kind::Object || v.kind == Kind::Array {
        let cs = children_from(b, level_of(v.start, v.end, v.kind == Kind::Array));
        if q[0] < cs.len() {
            let c = cs[q[0] as int];
            found_at(
                b,
                ValueV { start: c.start, end: c.end, kind: c.kind },
                c.label,
                q.skip(1),
            )
        } else {
            None
        }
    } else {
        None
    }
}

/// The same below the values that follow one another in `[start, end)`.
pub open spec fn found_in_lines(b: Seq<u8>, start: int, end: int, q: Seq<usize>) -> Option<
    (ValueV, Seq<char>),
> {
    let cs = children_from(b, level_of_lines(start, end));
    if q.len() > 0 && q[0] < cs.len() {
        let c = cs[q[0] as int];
        found_at(b, ValueV { start: c.start, end: c.end, kind: c.kind }, c.label, q.skip(1))
    } else {
        None
    }
}

/// Whether the pattern is met by what a value is or is called: by its label where it has
/// one, by the text of a string, or by the bytes that a number, `true`, `false` or `null` is
/// written in.
pub open spec fn bears(b: Seq<u8>, p: PatternV, v: ValueV, label: Seq<char>) -> bool {
    let bytes = b.subrange(v.start, v.end);
    ||| label.len() > 0 && pattern_matches(p, label)
    ||| v.kind == Kind::Str && pattern_matches(p, decoded(b, v.start, v.end))
    ||| v.kind == Kind::Number && valid_utf8(bytes) && pattern_matches(p, decode_utf8(bytes))
    ||| v.kind == Kind::Bool && valid_utf8(bytes) && pattern_matches(p, decode_utf8(bytes))
    ||| v.kind == Kind::Null && valid_utf8(bytes) && pattern_matches(p, decode_utf8(bytes))
}

/// Whether a path comes before another in the order of the document: it is the beginning of
/// the other, or the first step in which they differ is to an earlier child.
pub open spec fn comes_before(x: Seq<usize>, y: Seq<usize>) -> bool {
    exists|k: int| #[trigger] parts_at(x, y, k)
}

pub open spec fn parts_at(x: Seq<usize>, y: Seq<usize>, k: int) -> bool {
    &&& 0 <= k <= x.len()
    &&& k < y.len()
    &&& x.take(k) == y.take(k)
    &&& k == x.len() || x[k] < y[k]
}

/// Whether a path leads to a value that the pattern is met by.
pub open spec fn bears_at(b: Seq<u8>, p: PatternV, v: ValueV, label: Seq<char>, q: Seq<usize>) -> bool {
    found_at(b, v, label, q) matches Some(w) && bears(b, p, w.0, w.1)
}

/// The matches at a value and below it, in two parts.
proof fn lemma_matches_split(
    b: Seq<u8>,
    p: PatternV,
    v: ValueV,
    label: Seq<char>,
    depth: int,
    path: Seq<usize>,
)
    ensures
        matches_below(b, p, v, label, depth, path) == (if bears(b, p, v, label) {
            seq![path]
        } else {
            Seq::empty()
        }) + (if depth < MAX_DEPTH && (v.kind == Kind::Object || v.kind == Kind::Array) {
            matches_in_each(
                b,
                p,
                children_from(b, level_of(v.start, v.end, v.kind == Kind::Array)),
                0,
                depth,
                path,
            )
        } else {
            Seq::empty()
        }),
{
}

proof fn lemma_match_bears(
    b: Seq<u8>,
    p: PatternV,
    v: ValueV,
    label: Seq<char>,
    depth: int,
    path: Seq<usize>,
    k: int,
)
    requires
        0 <= depth <= MAX_DEPTH,
        0 <= k < matches_below(b, p, v, label, depth, path).len(),
    ensures
        ({
            let x = matches_below(b, p, v, label, depth, path)[k];
            let n = path.len() as int;
            &&& n <= x.len() <= n + MAX_DEPTH - depth
            &&& x.take(n) == path
            &&& bears_at(b, p, v, label, x.skip(n))
        }),
    decreases MAX_DEPTH - depth, 1int, 0int,
{
    lemma_matches_split(b, p, v, label, depth, path);
    let all = matches_below(b, p, v, label, depth, path);
    let n = path.len() as int;
    let h: int = if bears(b, p, v, label) {
        1
    } else {
        0
    };
    if k < h {
        assert(all[k] == path);
        assert(path.take(n) =~= path && path.skip(n) =~= Seq::<usize>::empty());
    } else {
        let cs = children_from(b, level_of(v.start, v.end, v.kind == Kind::Array));
        lemma_children_bound(b, level_of(v.start, v.end, v.kind == Kind::Array));
        let x = matches_in_each(b, p, cs, 0, depth, path)[k - h];
        assert(all[k] == x);
        lemma_child_match_bears(b, p, cs, 0, depth, path, k - h);
        assert(x.skip(n).skip(1) =~= x.skip(n + 1));
        assert(x.skip(n)[0] == x[n]);
    }
}

proof fn lemma_child_match_bears(
    b: Seq<u8>,
    p: PatternV,
    cs: Seq<ChildV>,
    i: int,
    depth: int,
    path: Seq<usize>,
    k: int,
)
    requires
        0 <= i,
        0 <= depth < MAX_DEPTH,
        cs.len() <= usize::MAX,
        0 <= k < matches_in_each(b, p, cs, i, depth, path).len(),
    ensures
        ({
            let x = matches_in_each(b, p, cs, i, depth, path)[k];
            let n = path.len() as int;
            &&& n < x.len() <= n + MAX_DEPTH - depth
            &&& x.take(n) == path
            &&& i <= x[n] < cs.len()
            &&& bears_at(b, p, value_of(cs[x[n] as int]), cs[x[n] as int].label, x.skip(n + 1))
        }),
    decreases MAX_DEPTH - depth, 0int, cs.len() - i,
{
    let c = cs[i];
    let x = i as usize;
    let to = path.push(x);
    let n = path.len() as int;
    let head = matches_below(b, p, value_of(c), c.label, depth + 1, to);
    let all = matches_in_each(b, p, cs, i, depth, path);
    if k < head.len() {
        let y = head[k];
        assert(all[k] == y);
        lemma_match_bears(b, p, value_of(c), c.label, depth + 1, to, k);
        assert(y.take(n + 1)[n] == x);
        assert(y.take(n) =~= y.take(n + 1).take(n));
        assert(to.take(n) =~= path);
    } else {
        assert(all[k] == matches_in_each(b, p, cs, i + 1, depth, path)[k - head.len()]);
        lemma_child_match_bears(b, p, cs, i + 1, depth, path, k - head.len());
    }
}

proof fn lemma_bearer_matches(
    b: Seq<u8>,
    p: PatternV,
    v: ValueV,
    label: Seq<char>,
    depth: int,
    path: Seq<usize>,
    q: Seq<usize>,
) -> (k: int)
    requires
        0 <= depth <= MAX_DEPTH,
        q.len() <= MAX_DEPTH - depth,
        bears_at(b, p, v, label, q),
    ensures
        0 <= k < matches_below(b, p, v, label, depth, path).len(),
        matches_below(b, p, v, label, depth, path)[k] == path + q,
    decreases MAX_DEPTH - depth, 1int, 0int,
{
    lemma_matches_split(b, p, v, label, depth, path);
    let h: int = if bears(b, p, v, label) {
        1
    } else {
        0
    };
    if q.len() == 0 {
        assert(path + q =~= path);
        0
    } else {
        let cs = children_from(b, level_of(v.start, v.end, v.kind == Kind::Array));
        assert(q =~= seq![q[0]] + q.skip(1));
        let k = lemma_bearing_child_matches(b, p, cs, 0, depth, path, q[0], q.skip(1));
        h + k
    }
}

proof fn lemma_bearing_child_matches(
    b: Seq<u8>,
    p: PatternV,
    cs: Seq<ChildV>,
    i: int,
    depth: int,
    path: Seq<usize>,
    m: usize,
    q: Seq<usize>,
) -> (k: int)
    requires
        0 <= i <= m < cs.len(),
        0 <= depth < MAX_DEPTH,
        q.len() < MAX_DEPTH - depth,
        bears_at(b, p, value_of(cs[m as int]), cs[m as int].label, q),
    ensures
        0 <= k < matches_in_each(b, p, cs, i, depth, path).len(),
        matches_in_each(b, p, cs, i, depth, path)[k] == path + (seq![m] + q),
    decreases MAX_DEPTH - depth, 0int, cs.len() - i,
{
    let c = cs[i];
    let head = matches_below(b, p, value_of(c), c.label, depth + 1, path.push(i as usize));
    if i == m {
        assert(path + (seq![m] + q) =~= path.push(m) + q);
        lemma_bearer_matches(b, p, value_of(c), c.label, depth + 1, path.push(m), q)
    } else {
        head.len() + lemma_bearing_child_matches(b, p, cs, i + 1, depth, path, m, q)
    }
}

proof fn lemma_matches_ordered(
    b: Seq<u8>,
    p: PatternV,
    v: ValueV,
    label: Seq<char>,
    depth: int,
    path: Seq<usize>,
    i: int,
    j: int,
)
    requires
        0 <= depth <= MAX_DEPTH,
        0 <= i < j < matches_below(b, p, v, label, depth, path).len(),
    ensures
        comes_before(
            matches_below(b, p, v, label, depth, path)[i],
            matches_below(b, p, v, label, depth, path)[j],
        ),
    decreases MAX_DEPTH - depth, 1int, 0int,
{
    lemma_matches_split(b, p, v, label, depth, path);
    let all = matches_below(b, p, v, label, depth, path);
    let h: int = if bears(b, p, v, label) {
        1
    } else {
        0
    };
    let cs = children_from(b, level_of(v.start, v.end, v.kind == Kind::Array));
    let low = matches_in_each(b, p, cs, 0, depth, path);
    lemma_children_bound(b, level_of(v.start, v.end, v.kind == Kind::Array));
    assert(all[j] == low[j - h]);
    lemma_child_match_bears(b, p, cs, 0, depth, path, j - h);
    if i < h {
        assert(all[i] == path);
        assert(path.take(path.len() as int) =~= path);
        assert(parts_at(path, all[j], path.len() as int));
    } else {
        assert(all[i] == low[i - h]);
        lemma_child_matches_ordered(b, p, cs, 0, depth, path, i - h, j - h);
    }
}

proof fn lemma_child_matches_ordered(
    b: Seq<u8>,
    p: PatternV,
    cs: Seq<ChildV>,
    n: int,
    depth: int,
    path: Seq<usize>,
    i: int,
    j: int,
)
    requires
        0 <= n,
        0 <= depth < MAX_DEPTH,
        cs.len() <= usize::MAX,
        0 <= i < j < matches_in_each(b, p, cs, n, depth, path).len(),
    ensures
        comes_before(
            matches_in_each(b, p, cs, n, depth, path)[i],
            matches_in_each(b, p, cs, n, depth, path)[j],
        ),
    decreases MAX_DEPTH - depth, 0int, cs.len() - n,
{
    let c = cs[n];
    let to = path.push(n as usize);
    let head = matches_below(b, p, value_of(c), c.label, depth + 1, to);
    let low = matches_in_each(b, p, cs, n + 1, depth, path);
    let all = matches_in_each(b, p, cs, n, depth, path);
    if j < head.len() {
        assert(all[i] == head[i] && all[j] == head[j]);
        lemma_matches_ordered(b, p, value_of(c), c.label, depth + 1, to, i, j);
    } else if i >= head.len() {
        assert(all[i] == low[i - head.len()] && all[j] == low[j - head.len()]);
        lemma_child_matches_ordered(b, p, cs, n + 1, depth, path, i - head.len(), j - head.len());
    } else {
        let l = path.len() as int;
        assert(all[i] == head[i] && all[j] == low[j - head.len()]);
        lemma_match_bears(b, p, value_of(c), c.label, depth + 1, to, i);
        lemma_child_match_bears(b, p, cs, n + 1, depth, path, j - head.len());
        assert(head[i].take(l + 1)[l] == n);
        assert(head[i].take(l) =~= head[i].take(l + 1).take(l));
        assert(to.take(l) =~= path);
        assert(parts_at(all[i], all[j], l));
    }
}

/// A search finds exactly the paths to the values that the pattern is met by: whatever the
/// kind of value, down to the deepest level that is searched.
pub proof fn law_what_matches_is_found(
    b: Seq<u8>,
    p: PatternV,
    start: int,
    end: int,
    kind: Kind,
    q: Seq<usize>,
)
    requires
        start < end,
    ensures
        all_matches(b, p, false, start, end, kind).contains(q) <==> q.len() <= 512 && (found_at(
            b,
            ValueV { start, end, kind },
            Seq::empty(),
            q,
        ) matches Some(w) && bears(b, p, w.0, w.1)),
{
    let v = ValueV { start, end, kind };
    let none = Seq::<usize>::empty();
    let all = all_matches(b, p, false, start, end, kind);
    if all.contains(q) {
        let k = choose|k: int| 0 <= k < all.len() && all[k] == q;
        lemma_match_bears(b, p, v, Seq::empty(), 0, none, k);
        assert(all[k].skip(0) =~= q);
    }
    if q.len() <= 512 && bears_at(b, p, v, Seq::empty(), q) {
        let k = lemma_bearer_matches(b, p, v, Seq::empty(), 0, none, q);
        assert(none + q =~= q);
        assert(all[k] == q);
    }
}

/// The same of a search of values that follow one another.
pub proof fn law_what_matches_in_lines_is_found(
    b: Seq<u8>,
    p: PatternV,
    start: int,
    end: int,
    kind: Kind,
    q: Seq<usize>,
)
    ensures
        all_matches(b, p, true, start, end, kind).contains(q) <==> q.len() <= 512 && (
        found_in_lines(b, start, end, q) matches Some(w) && bears(b, p, w.0, w.1)),
{
    let none = Seq::<usize>::empty();
    let all = all_matches(b, p, true, start, end, kind);
    let cs = children_from(b, level_of_lines(start, end));
    lemma_children_bound(b, level_of_lines(start, end));
    if all.contains(q) {
        let k = choose|k: int| 0 <= k < all.len() && all[k] == q;
        lemma_child_match_bears(b, p, cs, 0, 0, none, k);
        assert(bears_at(b, p, value_of(cs[q[0] as int]), cs[q[0] as int].label, q.skip(1)));
    }
    if q.len() <= 512 && q.len() > 0 && q[0] < cs.len() && bears_at(
        b,
        p,
        value_of(cs[q[0] as int]),
        cs[q[0] as int].label,
        q.skip(1),
    ) {
        let k = lemma_bearing_child_matches(b, p, cs, 0, 0, none, q[0], q.skip(1));
        assert(none + (seq![q[0]] + q.skip(1)) =~= q);
        assert(all[k] == q);
    }
}

/// The paths come in the order of the document, a value before what is below it, and none
/// comes twice.
pub proof fn law_matches_are_in_order(
    b: Seq<u8>,
    p: PatternV,
    jsonl: bool,
    start: int,
    end: int,
    kind: Kind,
    i: int,
    j: int,
)
    requires
        0 <= i < j < all_matches(b, p, jsonl, start, end, kind).len(),
    ensures
        comes_before(
            all_matches(b, p, jsonl, start, end, kind)[i],
            all_matches(b, p, jsonl, start, end, kind)[j],
        ),
        all_matches(b, p, jsonl, start, end, kind)[i] != all_matches(
            b,
            p,
            jsonl,
            start,
            end,
            kind,
        )[j],
{
    let none = Seq::<usize>::empty();
    let all = all_matches(b, p, jsonl, start, end, kind);
    if jsonl {
        lemma_children_bound(b, level_of_lines(start, end));
        let cs = children_from(b, level_of_lines(start, end));
        lemma_child_matches_ordered(b, p, cs, 0, 0, none, i, j);
    } else {
        lemma_matches_ordered(b, p, ValueV { start, end, kind }, Seq::empty(), 0, none, i, j);
    }
    let k = choose|k: int| #[trigger] parts_at(all[i], all[j], k);
    assert(parts_at(all[i], all[j], k));
}

/// Nothing is found in no bytes.
pub proof fn law_nothing_is_found_in_nothing(
    b: Seq<u8>,
    p: PatternV,
    start: int,
    end: int,
    kind: Kind,
)
    requires
        start >= end,
    ensures
        all_matches(b, p, false, start, end, kind).len() == 0,
{
}

// ---------------------------------------------------------------------------
// Patterns
// ---------------------------------------------------------------------------
/// A query without a prefix asks for its own text, in upper or lower case, anywhere in
/// another.
pub proof fn law_a_plain_query_matches_by_text(s: Seq<char>, hay: Seq<char>)
    requires
        is_ascii_chars(s),
        is_ascii_chars(hay),
        !(s.len() >= 2 && s[0] == 'g' && s[1] == ':'),
        !(s.len() >= 3 && s[0] == 'r' && s[1] == 'e' && s[2] == ':'),
    ensures
        query_pattern(s) matches Ok(p) && (pattern_matches(p, hay) <==> exists|at: int|
            0 <= at <= hay.len() - s.len() && #[trigger] stands_without_case(hay, at, s)),
{
    reveal_strlit("re:");
    reveal_strlit("g:");
    let p = query_pattern(s)->Ok_0;
    let h = lower_text(hay);
    let n = lower_text(s);
    assert(!has_prefix(s, "re:"@)) by {
        if has_prefix(s, "re:"@) {
            assert(s.take(3)[0] == "re:"@[0] && s.take(3)[1] == "re:"@[1] && s.take(3)[2] == "re:"@[2]);
        }
    }
    assert(!has_prefix(s, "g:"@)) by {
        if has_prefix(s, "g:"@) {
            assert(s.take(2)[0] == "g:"@[0] && s.take(2)[1] == "g:"@[1]);
        }
    }
    assert(p == PatternV::Literal(n));
    if pattern_matches(p, hay) {
        let at = choose|at: int| occurs_at(h, n, at);
        assert forall|i: int| 0 <= i < s.len() implies same_letter(
            #[trigger] s[i],
            hay[at + i],
        ) by {
            assert(h.subrange(at, at + n.len())[i] == n[i]);
        }
        assert(stands_without_case(hay, at, s));
    }
    if exists|at: int|
        0 <= at <= hay.len() - s.len() && #[trigger] stands_without_case(hay, at, s) {
        let at = choose|at: int|
            0 <= at <= hay.len() - s.len() && #[trigger] stands_without_case(hay, at, s);
        assert(h.subrange(at, at + n.len()) =~= n) by {
            assert forall|i: int| 0 <= i < n.len() implies h.subrange(at, at + n.len())[i]
                == #[trigger] n[i] by {
                assert(same_letter(s[i], hay[at + i]));
            }
        }
        assert(occurs_at(h, n, at));
    }
}

/// The same character, or the same letter in the other case.
pub open spec fn same_letter(x: char, y: char) -> bool {
    ||| x == y
    ||| 'A' <= x <= 'Z' && y as int == x as int + 32
    ||| 'A' <= y <= 'Z' && x as int == y as int + 32
}

/// Whether `s` stands in `hay` at `at`, in upper or lower case.
pub open spec fn stands_without_case(hay: Seq<char>, at: int, s: Seq<char>) -> bool {
    forall|i: int| 0 <= i < s.len() ==> same_letter(#[trigger] s[i], hay[at + i])
}

/// A query behind `re:` is a regular expression, and one behind `g:` a glob: a star stands
/// for any run of characters, a question mark for one, and every other character for itself.
pub proof fn law_prefixed_queries(t: Seq<char>)
    ensures
        query_pattern(seq!['r', 'e', ':'] + t) == (match regex_error(t) {
            None => Ok::<PatternV, Seq<char>>(PatternV::Regex(t)),
            Some(e) => Err("bad pattern: "@ + e),
        }),
        query_pattern(seq!['g', ':'] + t) == (match regex_error(glob_regex(t)) {
            None => Ok::<PatternV, Seq<char>>(PatternV::Regex(glob_regex(t))),
            Some(e) => Err("bad pattern: "@ + e),
        }),
        glob_regex(t + seq!['*']) == glob_regex(t) + seq!['.', '*'],
        glob_regex(t + seq!['?']) == glob_regex(t) + seq!['.'],
{
    reveal_strlit("re:");
    reveal_strlit("g:");
    let x = seq!['r', 'e', ':'] + t;
    assert(x.take(3) =~= "re:"@);
    assert(x.skip(3) =~= t);
    let y = seq!['g', ':'] + t;
    assert(y.take(2) =~= "g:"@);
    assert(y.skip(2) =~= t);
    if y.len() >= 3 {
        assert(y.take(3)[0] == 'g');
    }
    assert((t + seq!['*']).drop_last() =~= t);
    assert((t + seq!['?']).drop_last() =~= t);
}

/// A letter, a digit or a blank of a glob stands for itself, and so does a character that
/// means something in a regular expression, behind a backslash.
pub proof fn law_glob_escapes(t: Seq<char>, c: char)
    requires
        c != '*',
        c != '?',
    ensures
        ({
            let special = seq!['.', '+', '(', ')', '|', '^', '$', '\\', '{', '}', '[', ']'];
            glob_regex(t + seq![c]) == glob_regex(t) + (if special.contains(c) {
                seq!['\\', c]
            } else {
                seq![c]
            })
        }),
{
    let special = seq!['.', '+', '(', ')', '|', '^', '$', '\\', '{', '}', '[', ']'];
    assert((t + seq![c]).drop_last() =~= t);
    assert(special[0] == '.' && special[1] == '+' && special[2] == '(' && special[3] == ')');
    assert(special[4] == '|' && special[5] == '^' && special[6] == '$' && special[7] == '\\');
    assert(special[8] == '{' && special[9] == '}' && special[10] == '[' && special[11] == ']');
}

} // verus!
