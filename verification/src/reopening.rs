//! What is open survives a fresh parse: collecting the open nodes of a tree and opening
//! them again in a new one gives the same open nodes.

use crate::pane::all_expanded;
use crate::scanner::{
    addressable, after_child, children_from, lemma_next_child, lemma_ws_end, level_wf, next_child,
    ChildV, LevelV,
};
use crate::tree::{
    arrives, document_root, expanded_at, expanded_paths, expanded_paths_from, fresh_cursor,
    fresh_node, grafted, lemma_fresh_node_wf, lemma_same_open_from, node_at, node_wf, opened,
    reachable, scanned_to, toggled, NodeV,
};
use crate::unfolding::{ahead, lemma_children_bound, lemma_scan, scannable, to_scan};
use vstd::prelude::*;

verus! {

// ---------------------------------------------------------------------------
// Opening paths again
// ---------------------------------------------------------------------------
/// The children of a node of which nothing is scanned yet.
pub open spec fn all_children(b: Seq<u8>, n: NodeV) -> Seq<ChildV> {
    children_from(b, fresh_cursor(n).level)
}

/// Whether whatever is open in the tree `r` is there in a fresh tree with the root `c`.
pub open spec fn still_there(b: Seq<u8>, c: NodeV, r: NodeV) -> bool
    decreases r,
{
    r.expanded ==> {
        &&& c.kind.is_container() && c.has_children
        &&& r.children.len() <= all_children(b, c).len()
        &&& forall|k: int|
            0 <= k < r.children.len() ==> still_there(
                b,
                fresh_node(b, all_children(b, c)[k]),
                #[trigger] r.children[k],
            )
    }
}

/// A node of which nothing is scanned, whether it is open or not.
pub open spec fn blank(n: NodeV) -> bool {
    &&& n.children.len() == 0
    &&& !n.done
    &&& n.cursor is None || n.cursor == Some(fresh_cursor(n))
    &&& n.expanded ==> n.cursor is Some
}

/// The paths behind a first step.
spec fn behind_step(i: usize, qs: Seq<Seq<usize>>) -> Seq<Seq<usize>> {
    Seq::new(qs.len(), |k: int| seq![i] + qs[k])
}

spec fn behind_path(p: Seq<usize>, qs: Seq<Seq<usize>>) -> Seq<Seq<usize>> {
    Seq::new(qs.len(), |k: int| p + qs[k])
}

/// The paths of the open nodes below a node, seen from further up.
proof fn lemma_paths_from_above(n: NodeV, p: Seq<usize>, q: Seq<usize>)
    ensures
        expanded_paths(n, p + q) == behind_path(p, expanded_paths(n, q)),
    decreases n, n.children.len() + 1,
{
    if n.expanded {
        lemma_paths_from_above_each(n, p, q, 0);
        assert(expanded_paths(n, p + q) =~= behind_path(p, expanded_paths(n, q)));
    } else {
        assert(expanded_paths(n, p + q) =~= behind_path(p, expanded_paths(n, q)));
    }
}

proof fn lemma_paths_from_above_each(n: NodeV, p: Seq<usize>, q: Seq<usize>, i: int)
    requires
        0 <= i,
    ensures
        expanded_paths_from(n, p + q, i) == behind_path(p, expanded_paths_from(n, q, i)),
    decreases n, n.children.len() - i,
{
    if i < n.children.len() {
        let x = i as usize;
        assert((p + q).push(x) =~= p + q.push(x));
        lemma_paths_from_above(n.children[i], p, q.push(x));
        lemma_paths_from_above_each(n, p, q, i + 1);
    }
    assert(expanded_paths_from(n, p + q, i) =~= behind_path(p, expanded_paths_from(n, q, i)));
}

/// Paths opened after others.
proof fn lemma_expanded_join(
    b: Seq<u8>,
    t: NodeV,
    ps: Seq<Seq<usize>>,
    qs: Seq<Seq<usize>>,
    i: int,
)
    requires
        0 <= i <= ps.len(),
    ensures
        all_expanded(b, t, ps + qs, i) == all_expanded(b, all_expanded(b, t, ps, i), qs, 0),
    decreases ps.len() - i,
{
    if i < ps.len() {
        assert((ps + qs)[i] == ps[i]);
        lemma_expanded_join(b, expanded_at(b, t, ps[i]), ps, qs, i + 1);
    } else {
        lemma_expanded_skip(b, t, ps, qs, 0);
    }
}

proof fn lemma_expanded_skip(
    b: Seq<u8>,
    t: NodeV,
    ps: Seq<Seq<usize>>,
    qs: Seq<Seq<usize>>,
    j: int,
)
    requires
        0 <= j,
    ensures
        all_expanded(b, t, ps + qs, ps.len() + j) == all_expanded(b, t, qs, j),
    decreases qs.len() - j,
{
    if j < qs.len() {
        assert((ps + qs)[ps.len() + j] == qs[j]);
        lemma_expanded_skip(b, expanded_at(b, t, qs[j]), ps, qs, j + 1);
    }
}

/// Paths through one child of an open node open in that child.
proof fn lemma_reopen_child(b: Seq<u8>, t: NodeV, i: usize, qs: Seq<Seq<usize>>, k: int)
    requires
        t.expanded,
        i < t.children.len(),
        0 <= k,
    ensures
        all_expanded(b, t, behind_step(i, qs), k) == (NodeV {
            children: t.children.update(
                i as int,
                all_expanded(b, t.children[i as int], qs, k),
            ),
            ..t
        }),
    decreases qs.len() - k,
{
    let ps = behind_step(i, qs);
    if k < qs.len() {
        let path = ps[k];
        assert(path[0] == i);
        assert(path.skip(1) =~= qs[k]);
        let c = expanded_at(b, t.children[i as int], qs[k]);
        let w = NodeV { children: t.children.update(i as int, c), ..t };
        assert(opened(t) == t);
        assert(scanned_to(b, t, i as int) == t);
        assert(expanded_at(b, t, path) == w);
        lemma_reopen_child(b, w, i, qs, k + 1);
        assert(t.children.update(i as int, c).update(
            i as int,
            all_expanded(b, c, qs, k + 1),
        ) =~= t.children.update(i as int, all_expanded(b, c, qs, k + 1)));
    } else {
        assert(t.children.update(i as int, t.children[i as int]) =~= t.children);
    }
}

/// The first of such paths has the node scanned.
proof fn lemma_reopen_scans(b: Seq<u8>, t: NodeV, i: usize, qs: Seq<Seq<usize>>)
    requires
        t.expanded,
        qs.len() > 0,
        i < scanned_to(b, t, i as int).children.len(),
        scanned_to(b, t, i as int).expanded,
    ensures
        all_expanded(b, t, behind_step(i, qs), 0) == all_expanded(
            b,
            scanned_to(b, t, i as int),
            behind_step(i, qs),
            0,
        ),
{
    let m = scanned_to(b, t, i as int);
    let path = behind_step(i, qs)[0];
    assert(path[0] == i);
    assert(opened(t) == t && opened(m) == m);
    assert(scanned_to(b, m, i as int) == m);
    assert(arrives(b, t, path) == arrives(b, m, path));
    assert(expanded_at(b, t, path) == expanded_at(b, m, path));
}

/// How far the open children of `r` before number `i` have been opened again in `t`.
spec fn reopened_to(b: Seq<u8>, c: NodeV, r: NodeV, t: NodeV, i: int) -> bool {
    &&& t.expanded
    &&& scannable(b, t)
    &&& t.children.len() <= i <= r.children.len()
    &&& ahead(b, t) == all_children(b, c).skip(t.children.len() as int)
    &&& t.children.len() <= all_children(b, c).len()
    &&& forall|k: int, p: Seq<usize>|
        0 <= k < t.children.len() ==> #[trigger] expanded_paths(t.children[k], p)
            == expanded_paths(r.children[k], p)
    &&& forall|k: int|
        t.children.len() <= k < i ==> !(#[trigger] r.children[k]).expanded
}

pub proof fn lemma_fresh_children_wf(b: Seq<u8>, s: LevelV)
    requires
        addressable(b),
        level_wf(b, s),
    ensures
        forall|k: int|
            0 <= k < children_from(b, s).len() ==> node_wf(
                b,
                fresh_node(b, #[trigger] children_from(b, s)[k]),
            ),
    decreases usize::MAX - s.index,
{
    if next_child(b, s) is Some && s.index < usize::MAX {
        lemma_next_child(b, s);
        lemma_fresh_node_wf(b, s);
        lemma_fresh_children_wf(b, after_child(b, s));
        let rest = children_from(b, after_child(b, s));
        let all = children_from(b, s);
        assert forall|k: int| 0 <= k < all.len() implies node_wf(
            b,
            fresh_node(b, #[trigger] all[k]),
        ) by {
            if k > 0 {
                assert(all[k] == rest[k - 1]);
            }
        }
    }
}

proof fn lemma_reopen_from(b: Seq<u8>, c: NodeV, r: NodeV, t: NodeV, i: int)
    requires
        addressable(b),
        node_wf(b, c),
        still_there(b, c, r),
        r.expanded,
        0 <= i,
        reopened_to(b, c, r, t, i),
        level_wf(b, fresh_cursor(c).level),
    ensures
        reopened_to(
            b,
            c,
            r,
            all_expanded(b, t, expanded_paths_from(r, Seq::empty(), i), 0),
            r.children.len() as int,
        ),
    decreases r, r.children.len() - i,
{
    let none = Seq::<usize>::empty();
    if i < r.children.len() {
        let x = r.children[i];
        let all = all_children(b, c);
        lemma_children_bound(b, fresh_cursor(c).level);
        let u = i as usize;
        let own = expanded_paths(x, none.push(u));
        let rest = expanded_paths_from(r, none, i + 1);
        assert(still_there(b, fresh_node(b, all[i]), x));
        if !x.expanded {
            assert(own == Seq::<Seq<usize>>::empty());
            assert(own + rest =~= rest);
            lemma_reopen_from(b, c, r, t, i + 1);
        } else {
            let qs = expanded_paths(x, none);
            lemma_paths_from_above(x, seq![u], none);
            assert(none.push(u) =~= seq![u] + none);
            assert(own =~= behind_step(u, qs));
            let m = scanned_to(b, t, i);
            lemma_scan(b, t, i);
            let j = to_scan(b, t, i);
            assert(j == i + 1 - t.children.len());
            assert(m.children.len() == i + 1);
            assert(m.expanded);
            lemma_reopen_scans(b, t, u, qs);
            lemma_reopen_child(b, m, u, qs, 0);
            lemma_fresh_children_wf(b, fresh_cursor(c).level);
            let f = fresh_node(b, all[i]);
            assert(m.children[i] == f) by {
                assert(ahead(b, t).take(j)[j - 1] == all[i]);
            }
            lemma_reopened(b, f, x);
            let t1 = all_expanded(b, t, own, 0);
            assert(t1.children.len() == i + 1);
            assert(ahead(b, t1) =~= all.skip(i + 1));
            assert forall|k: int, p: Seq<usize>|
                0 <= k < t1.children.len() implies #[trigger] expanded_paths(t1.children[k], p)
                == expanded_paths(r.children[k], p) by {
                if k < t.children.len() {
                    assert(t1.children[k] == t.children[k]);
                    assert(expanded_paths(t.children[k], p) == expanded_paths(r.children[k], p));
                } else if k < i {
                    assert(ahead(b, t).take(j)[k - t.children.len()] == all[k]);
                    assert(t1.children[k] == fresh_node(b, all[k]));
                    assert(!r.children[k].expanded);
                } else {
                    assert(t1.children[k] == all_expanded(b, f, qs, 0));
                }
            }
            lemma_expanded_join(b, t, own, rest, 0);
            lemma_reopen_from(b, c, r, t1, i + 1);
        }
    }
}

/// Opening again in a fresh tree what is open in another.
proof fn lemma_reopened(b: Seq<u8>, c: NodeV, r: NodeV)
    requires
        addressable(b),
        node_wf(b, c),
        blank(c),
        still_there(b, c, r),
        r.expanded,
    ensures
        forall|p: Seq<usize>| #[trigger]
            expanded_paths(
                all_expanded(b, c, expanded_paths(r, Seq::empty()), 0),
                p,
            ) == expanded_paths(r, p),
    decreases r, r.children.len() + 1,
{
    let none = Seq::<usize>::empty();
    let first = seq![none];
    let rest = expanded_paths_from(r, none, 0);
    let o = opened(c);
    assert(o.cursor == Some(fresh_cursor(c)));
    assert(all_expanded(b, c, first, 0) == o) by {
        reveal_with_fuel(all_expanded, 2);
    }
    lemma_expanded_join(b, c, first, rest, 0);
    assert(ahead(b, o) =~= all_children(b, c).skip(0));
    lemma_reopen_from(b, c, r, o, 0);
    let g = all_expanded(b, o, rest, 0);
    assert forall|p: Seq<usize>| #[trigger] expanded_paths(g, p) == expanded_paths(r, p) by {
        lemma_same_open_from(g, r, p, 0);
    }
}

// ---------------------------------------------------------------------------
// Trees that were toggled and scanned
// ---------------------------------------------------------------------------
/// Something that is done to a node of a tree.
pub enum Op {
    /// The node is toggled.
    Toggle(Seq<usize>),
    /// The node, which was open before, is asked for a child.
    Scan(Seq<usize>, int),
}

/// A tree after something was done to one of its nodes, if that is there.
pub open spec fn after_op(b: Seq<u8>, n: NodeV, op: Op) -> NodeV {
    match op {
        Op::Toggle(p) => if reachable(n, p) {
            grafted(n, p, toggled(node_at(n, p)))
        } else {
            n
        },
        Op::Scan(p, i) => if reachable(n, p) && node_at(n, p).cursor is Some {
            grafted(n, p, scanned_to(b, node_at(n, p), i))
        } else {
            n
        },
    }
}

/// A tree after the first `k` of those things.
pub open spec fn after_ops(b: Seq<u8>, n: NodeV, ops: Seq<Op>, k: int) -> NodeV
    decreases k,
{
    if k <= 0 {
        n
    } else {
        after_op(b, after_ops(b, n, ops, k - 1), ops[k - 1])
    }
}

/// Whether `n` is the node `c`, with whatever is open and scanned in it.
pub open spec fn comes_from(b: Seq<u8>, c: NodeV, n: NodeV) -> bool
    decreases n,
{
    &&& n == (NodeV {
        expanded: n.expanded,
        done: n.done,
        children: n.children,
        cursor: n.cursor,
        ..c
    })
    &&& n.expanded ==> n.cursor is Some
    &&& n.cursor is None ==> n.children.len() == 0 && (c.kind.is_container() && c.has_children
        ==> !n.done)
    &&& n.cursor is Some ==> {
        &&& c.kind.is_container() && c.has_children
        &&& scannable(b, n)
        &&& n.children.len() <= all_children(b, c).len()
        &&& ahead(b, n) == all_children(b, c).skip(n.children.len() as int)
    }
    &&& forall|k: int|
        0 <= k < n.children.len() ==> comes_from(
            b,
            fresh_node(b, all_children(b, c)[k]),
            #[trigger] n.children[k],
        )
}

proof fn lemma_comes_from_there(b: Seq<u8>, c: NodeV, n: NodeV)
    requires
        comes_from(b, c, n),
    ensures
        still_there(b, c, n),
    decreases n,
{
    assert forall|k: int| 0 <= k < n.children.len() implies still_there(
        b,
        fresh_node(b, all_children(b, c)[k]),
        #[trigger] n.children[k],
    ) by {
        lemma_comes_from_there(b, fresh_node(b, all_children(b, c)[k]), n.children[k]);
    }
}

proof fn lemma_scan_comes(b: Seq<u8>, c: NodeV, n: NodeV, i: int)
    requires
        addressable(b),
        comes_from(b, c, n),
        n.cursor is Some,
    ensures
        comes_from(b, c, scanned_to(b, n, i)),
{
    let m = scanned_to(b, n, i);
    let all = all_children(b, c);
    let j = to_scan(b, n, i);
    lemma_scan(b, n, i);
    assert(ahead(b, m) =~= all.skip(m.children.len() as int));
    assert forall|k: int| 0 <= k < m.children.len() implies comes_from(
        b,
        fresh_node(b, all[k]),
        #[trigger] m.children[k],
    ) by {
        if k < n.children.len() {
            assert(m.children[k] == n.children[k]);
        } else {
            assert(ahead(b, n).take(j)[k - n.children.len()] == all[k]);
            assert(m.children[k] == fresh_node(b, all[k]));
        }
    }
}

proof fn lemma_toggle_comes(b: Seq<u8>, c: NodeV, n: NodeV)
    requires
        addressable(b),
        node_wf(b, c),
        comes_from(b, c, n),
    ensures
        comes_from(b, c, toggled(n)),
{
    let m = toggled(n);
    assert(m.children == n.children);
    assert(all_children(b, c).skip(0) =~= all_children(b, c));
    assert forall|k: int| 0 <= k < m.children.len() implies comes_from(
        b,
        fresh_node(b, all_children(b, c)[k]),
        #[trigger] m.children[k],
    ) by {
        assert(m.children[k] == n.children[k]);
    }
}

proof fn lemma_op_comes(b: Seq<u8>, c: NodeV, n: NodeV, path: Seq<usize>, scan: Option<int>)
    requires
        addressable(b),
        node_wf(b, c),
        comes_from(b, c, n),
        reachable(n, path),
        scan is Some ==> node_at(n, path).cursor is Some,
    ensures
        comes_from(
            b,
            c,
            grafted(
                n,
                path,
                match scan {
                    Some(i) => scanned_to(b, node_at(n, path), i),
                    None => toggled(node_at(n, path)),
                },
            ),
        ),
    decreases path.len(),
{
    if path.len() == 0 {
        match scan {
            Some(i) => lemma_scan_comes(b, c, n, i),
            None => lemma_toggle_comes(b, c, n),
        }
    } else {
        let i = path[0] as int;
        let f = fresh_node(b, all_children(b, c)[i]);
        lemma_fresh_children_wf(b, fresh_cursor(c).level);
        lemma_op_comes(b, f, n.children[i], path.skip(1), scan);
        let to = match scan {
            Some(i) => scanned_to(b, node_at(n, path), i),
            None => toggled(node_at(n, path)),
        };
        let m = grafted(n, path, to);
        assert forall|k: int| 0 <= k < m.children.len() implies comes_from(
            b,
            fresh_node(b, all_children(b, c)[k]),
            #[trigger] m.children[k],
        ) by {
            if k != i {
                assert(m.children[k] == n.children[k]);
            }
        }
    }
}

/// Whatever node the fresh tree has, the tree has, however much of it is open and scanned.
proof fn lemma_arrives_alike(b: Seq<u8>, c: NodeV, n: NodeV, path: Seq<usize>)
    requires
        addressable(b),
        node_wf(b, c),
        comes_from(b, c, c),
        comes_from(b, c, n),
        c.children.len() == 0,
        arrives(b, c, path),
    ensures
        arrives(b, n, path),
    decreases path.len(),
{
    if path.len() > 0 {
        let i = path[0] as int;
        let all = all_children(b, c);
        lemma_toggle_comes(b, c, c);
        lemma_toggle_comes(b, c, n);
        let co = opened(c);
        let no = opened(n);
        if co.cursor is Some {
            lemma_scan_comes(b, c, co, i);
            lemma_scan_comes(b, c, no, i);
            lemma_scan(b, co, i);
            lemma_scan(b, no, i);
            lemma_fresh_children_wf(b, fresh_cursor(c).level);
            let k = fresh_node(b, all[i]);
            assert(all.skip(0) =~= all);
            assert(scanned_to(b, co, i).children[i] == k);
            assert(all_children(b, k).skip(0) =~= all_children(b, k));
            lemma_arrives_alike(b, k, scanned_to(b, no, i).children[i], path.skip(1));
        }
    }
}

pub proof fn lemma_root_wf(b: Seq<u8>, name: Seq<char>, jsonl: bool)
    requires
        addressable(b),
    ensures
        node_wf(b, document_root(b, name, jsonl)),
        blank(document_root(b, name, jsonl)),
        comes_from(b, document_root(b, name, jsonl), document_root(b, name, jsonl)),
{
    let n = document_root(b, name, jsonl);
    lemma_ws_end(b, 0, b.len() as int);
    assert(n.children == Seq::<NodeV>::empty());
    assert(all_children(b, n).skip(0) =~= all_children(b, n));
}

proof fn lemma_ops_come(b: Seq<u8>, c: NodeV, ops: Seq<Op>, k: int)
    requires
        addressable(b),
        node_wf(b, c),
        comes_from(b, c, c),
        0 <= k <= ops.len(),
    ensures
        comes_from(b, c, after_ops(b, c, ops, k)),
    decreases k,
{
    if k > 0 {
        lemma_ops_come(b, c, ops, k - 1);
        let n = after_ops(b, c, ops, k - 1);
        match ops[k - 1] {
            Op::Toggle(p) => {
                if reachable(n, p) {
                    lemma_op_comes(b, c, n, p, None);
                }
            },
            Op::Scan(p, i) => {
                if reachable(n, p) && node_at(n, p).cursor is Some {
                    lemma_op_comes(b, c, n, p, Some(i));
                }
            },
        }
    }
}

// ---------------------------------------------------------------------------
// Laws
// ---------------------------------------------------------------------------
/// What is open survives a fresh parse, as far as it is there: the paths of the open
/// nodes of a tree, opened again in a fresh one, are the paths of its open nodes.
pub proof fn law_reopening_restores(
    b: Seq<u8>,
    name: Seq<char>,
    jsonl: bool,
    r: NodeV,
    at: Seq<usize>,
)
    requires
        addressable(b),
        r.expanded,
        still_there(b, document_root(b, name, jsonl), r),
    ensures
        expanded_paths(
            all_expanded(
                b,
                document_root(b, name, jsonl),
                expanded_paths(r, Seq::empty()),
                0,
            ),
            at,
        ) == expanded_paths(r, at),
{
    lemma_root_wf(b, name, jsonl);
    lemma_reopened(b, document_root(b, name, jsonl), r);
}

/// Expansion survives a re-parse of the same bytes: whatever nodes of a document's tree
/// are toggled and scanned, in whatever order, a fresh tree has the same nodes open once
/// they are opened again.
pub proof fn law_expansion_survives_reparsing(
    b: Seq<u8>,
    name: Seq<char>,
    jsonl: bool,
    ops: Seq<Op>,
    at: Seq<usize>,
)
    requires
        addressable(b),
        after_ops(b, document_root(b, name, jsonl), ops, ops.len() as int).expanded,
    ensures
        ({
            let root = document_root(b, name, jsonl);
            let r = after_ops(b, root, ops, ops.len() as int);
            expanded_paths(
                all_expanded(b, root, expanded_paths(r, Seq::empty()), 0),
                at,
            ) == expanded_paths(r, at)
        }),
{
    let root = document_root(b, name, jsonl);
    lemma_root_wf(b, name, jsonl);
    lemma_ops_come(b, root, ops, ops.len() as int);
    let r = after_ops(b, root, ops, ops.len() as int);
    lemma_comes_from_there(b, root, r);
    law_reopening_restores(b, name, jsonl, r, at);
}

/// A document's tree has the same nodes, whatever is toggled and scanned in it.
pub proof fn law_toggling_loses_no_node(
    b: Seq<u8>,
    name: Seq<char>,
    jsonl: bool,
    ops: Seq<Op>,
    path: Seq<usize>,
)
    requires
        addressable(b),
        arrives(b, document_root(b, name, jsonl), path),
    ensures
        arrives(
            b,
            after_ops(b, document_root(b, name, jsonl), ops, ops.len() as int),
            path,
        ),
{
    let root = document_root(b, name, jsonl);
    lemma_root_wf(b, name, jsonl);
    lemma_ops_come(b, root, ops, ops.len() as int);
    lemma_arrives_alike(b, root, after_ops(b, root, ops, ops.len() as int), path);
}

} // verus!
