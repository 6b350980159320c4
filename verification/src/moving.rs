//! Where the moves of a pane lead: to which node, to which row, and what of the pane they
//! leave alone.

use crate::filter::HitV;
use crate::pane::{
    bookmark_toggled, collapsed_or_parent, focus_path, focus_settled, focus_toggled, hit_nodes,
    hits_adopted, hits_received, jumped, last_real, lemma_position, match_visited, matches_indexed,
    matches_received, next_in, position, prev_in, row_at, search_launched, sibling, PaneV,
};
use crate::paths::lemma_node_at_wf;
use crate::reaching::{kids, lemma_scan_keeps_kids};
use crate::rows::RowV;
use crate::search::query_pattern;
use crate::text::decimal;
use crate::tree::{grafted, node_at, node_wf, opened, reachable, toggled};
use vstd::prelude::*;

verus! {

// ---------------------------------------------------------------------------
// Round and round
// ---------------------------------------------------------------------------
/// The next is the one behind, and the first behind the last; the previous is the one in
/// front, and the last in front of the first.
pub proof fn law_next_and_previous(i: int, n: int)
    requires
        0 <= i < n,
    ensures
        next_in(i, n) == (if i == n - 1 {
            0
        } else {
            i + 1
        }),
        prev_in(i, n) == (if i == 0 {
            n - 1
        } else {
            i - 1
        }),
{
    reveal(next_in);
    reveal(prev_in);
    if i == n - 1 {
        assert(n % n == 0) by (nonlinear_arith)
            requires
                n > 0,
        ;
    } else {
        assert((i + 1) % n == i + 1) by (nonlinear_arith)
            requires
                0 <= i + 1 < n,
        ;
    }
    if i == 0 {
        assert((n - 1) % n == n - 1) by (nonlinear_arith)
            requires
                n > 0,
        ;
    } else {
        assert((i + n - 1) % n == i - 1) by (nonlinear_arith)
            requires
                0 < i < n,
        ;
    }
}

/// Going to the next match and to the previous one: at first to the first and to the last,
/// and from then on to the one behind and the one in front, round and round. The pane is
/// sent to that match, below the scope of a search that has one, and nothing else of it
/// changes but what is opened on the way.
pub proof fn law_going_through_the_matches(b: Seq<u8>, v: PaneV, forward: bool)
    requires
        v.search matches Some(s) && s.matches.len() > 0,
        0 <= v.match_idx < v.search->0.matches.len(),
    ensures
        ({
            let w = match_visited(b, v, forward);
            let ms = v.search->0.matches;
            let n = ms.len() as int;
            &&& w.landed
            &&& w.match_idx == (if forward {
                if !v.landed || v.match_idx == n - 1 {
                    0
                } else {
                    v.match_idx + 1
                }
            } else {
                if !v.landed || v.match_idx == 0 {
                    n - 1
                } else {
                    v.match_idx - 1
                }
            })
            &&& w.want_path == Some(
                if v.scoped && v.search_scope is Some {
                    v.search_scope->0.path + ms[w.match_idx]
                } else {
                    ms[w.match_idx]
                },
            )
            &&& w == (PaneV {
                root: w.root,
                want_path: w.want_path,
                match_idx: w.match_idx,
                landed: true,
                ..v
            })
        }),
{
    reveal(match_visited);
    reveal(jumped);
    law_next_and_previous(v.match_idx, v.search->0.matches.len() as int);
}

/// Without matches there is nowhere to go.
pub proof fn law_no_match_to_go_to(b: Seq<u8>, v: PaneV, forward: bool)
    requires
        v.search matches Some(s) ==> s.matches.len() == 0,
    ensures
        match_visited(b, v, forward) == v,
{
    reveal(match_visited);
}

// ---------------------------------------------------------------------------
// Searches and filters
// ---------------------------------------------------------------------------
/// What a search is launched over: the pattern of the query, in the scope where there is one
/// and the search is held to it, and else in the whole tree. Nothing is left of the search
/// before it.
pub proof fn law_search_launches(v: PaneV)
    ensures
        ({
            let (w, job) = search_launched(v);
            let q = v.query.before + v.query.after;
            &&& w.match_set.len() == 0 && w.match_idx == 0 && !w.landed && w.want_path is None
            &&& w.root == v.root && w.rows == v.rows && w.focus == v.focus && w.scroll == v.scroll
            &&& w.query == v.query && w.scoped == v.scoped && w.search_scope == v.search_scope
            &&& job is Some <==> q.len() > 0 && query_pattern(q) is Ok
            &&& job is Some <==> w.search is Some
            &&& w.search matches Some(s) ==> s.matches.len() == 0 && !s.finished
            &&& w.query_error is Some <==> q.len() > 0 && query_pattern(q) is Err
            &&& w.query_error is Some ==> w.query_error == Some(query_pattern(q)->Err_0)
            &&& job matches Some(j) ==> j.pattern == query_pattern(q)->Ok_0 && (if v.scoped
                && v.search_scope is Some {
                let s = v.search_scope->0;
                j.start == s.start && j.end == s.end && j.kind == s.kind && j.jsonl == s.jsonl
            } else {
                j.start == v.root.start && j.end == v.root.end && j.kind == v.root.kind && j.jsonl
                    == v.root.jsonl
            })
        }),
{
    reveal(search_launched);
}

/// Matches that come in are kept behind those that are there, and each is marked once, at
/// its place in the whole tree.
pub proof fn law_matches_come_in(v: PaneV, more: Seq<Seq<usize>>, finished: bool)
    requires
        v.search is Some,
        v.indexed == v.search->0.matches.len(),
        v.match_set.len() == v.indexed,
    ensures
        ({
            let w = matches_indexed(matches_received(v, more, finished));
            let ms = v.search->0.matches;
            &&& w.search matches Some(s) && s.matches == ms + more && (s.finished <==> finished
                || v.search->0.finished)
            &&& w.match_set.len() == ms.len() + more.len()
            &&& w.indexed == w.match_set.len()
            &&& forall|k: int|
                0 <= k < ms.len() ==> #[trigger] w.match_set[k] == v.match_set[k]
            &&& forall|k: int|
                ms.len() <= k < ms.len() + more.len() ==> #[trigger] w.match_set[k] == (if v.scoped
                    && v.search_scope is Some {
                    v.search_scope->0.path + more[k - ms.len()]
                } else {
                    more[k - ms.len()]
                })
        }),
{
    let w = matches_indexed(matches_received(v, more, finished));
    let ms = v.search->0.matches;
    if more.len() == 0 {
        assert(ms + more =~= ms);
    }
    assert forall|k: int| ms.len() <= k < ms.len() + more.len() implies #[trigger] w.match_set[k]
        == (if v.scoped && v.search_scope is Some {
        v.search_scope->0.path + more[k - ms.len()]
    } else {
        more[k - ms.len()]
    }) by {
        assert((ms + more)[k] == more[k - ms.len()]);
    }
}

/// Values that a filter selects become children of the result's root, one for each and in
/// their order, under the label that the filter gave them or else their number; the children
/// that are there stay as they are.
pub proof fn law_hits_come_in(b: Seq<u8>, v: PaneV, more: Seq<HitV>, finished: bool)
    requires
        v.filter is Some,
        v.filter_added == v.filter->0.hits.len(),
        v.root.children.len() == v.filter_added,
    ensures
        ({
            let w = hits_adopted(b, hits_received(v, more, finished));
            let n = v.root.children.len() as int;
            &&& w.root.children.len() == n + more.len()
            &&& w.filter_added == n + more.len()
            &&& w.filter matches Some(f) && f.hits == v.filter->0.hits + more && (f.finished
                <==> finished || v.filter->0.finished)
            &&& forall|k: int|
                0 <= k < n ==> #[trigger] w.root.children[k] == v.root.children[k]
            &&& forall|k: int|
                n <= k < n + more.len() ==> {
                    let c = #[trigger] w.root.children[k];
                    let h = more[k - n];
                    &&& c.start == h.start && c.end == h.end && c.kind == h.kind && c.end_exact
                        == h.end_exact
                    &&& c.label == (if h.label.len() > 0 {
                        h.label
                    } else {
                        decimal(k as nat)
                    })
                    &&& !c.expanded && c.children.len() == 0 && !c.is_index && !c.jsonl
                    &&& c.has_children ==> c.kind.is_container()
                }
            &&& w.rows == v.rows && w.focus == v.focus && w.scroll == v.scroll
        }),
{
    let w = hits_adopted(b, hits_received(v, more, finished));
    let hs = v.filter->0.hits;
    let n = hs.len() as int;
    assert forall|k: int| n <= k < n + more.len() implies ({
        let c = #[trigger] w.root.children[k];
        let h = more[k - n];
        &&& c.start == h.start && c.end == h.end && c.kind == h.kind && c.end_exact == h.end_exact
        &&& c.label == (if h.label.len() > 0 {
            h.label
        } else {
            decimal(k as nat)
        })
        &&& !c.expanded && c.children.len() == 0 && !c.is_index && !c.jsonl
        &&& c.has_children ==> c.kind.is_container()
    }) by {
        assert((hs + more)[k] == more[k - n]);
        assert(w.root.children[k] == hit_nodes(b, hs + more, n, n + more.len())[k - n]);
    }
}

// ---------------------------------------------------------------------------
// Siblings and parents
// ---------------------------------------------------------------------------
/// The sibling behind a node is the next child of its parent, and the one in front of it the
/// child before it, where there are such.
pub proof fn law_siblings_are_the_next_children(b: Seq<u8>, v: PaneV, p: Seq<usize>)
    requires
        node_wf(b, v.root),
        focus_path(v) == Some(p),
        p.len() > 0,
        reachable(v.root, p.drop_last()),
        ({
            let up = node_at(v.root, p.drop_last());
            up.kind.is_container() && up.has_children && up.expanded && p.last() < kids(
                b,
                up,
            ).len() <= usize::MAX
        }),
    ensures
        ({
            let all = kids(b, node_at(v.root, p.drop_last()));
            &&& sibling(b, v, true).1 == (if p.last() + 1 < all.len() {
                Some(p.drop_last().push((p.last() + 1) as usize))
            } else {
                None
            })
            &&& sibling(b, v, false).1 == (if p.last() > 0 {
                Some(p.drop_last().push((p.last() - 1) as usize))
            } else {
                None
            })
        }),
{
    let up = node_at(v.root, p.drop_last());
    lemma_node_at_wf(b, v.root, p.drop_last());
    lemma_scan_keeps_kids(b, up, p.last() + 1);
    lemma_scan_keeps_kids(b, up, p.last() - 1);
}

/// The root has no siblings.
pub proof fn law_root_has_no_siblings(b: Seq<u8>, v: PaneV, forward: bool)
    requires
        focus_path(v) matches Some(p) ==> p.len() == 0,
    ensures
        sibling(b, v, forward) == (v.root, None::<Seq<usize>>),
{
}

pub proof fn lemma_row_at(rows: Seq<RowV>, path: Seq<usize>, i: int)
    requires
        0 <= i,
    ensures
        match row_at(rows, path, i) {
            Some(k) => i <= k < rows.len() && rows[k].path == path && forall|j: int|
                i <= j < k ==> (#[trigger] rows[j]).path != path,
            None => forall|j: int| i <= j < rows.len() ==> (#[trigger] rows[j]).path != path,
        },
    decreases rows.len() - i,
{
    if i < rows.len() && rows[i].path != path {
        lemma_row_at(rows, path, i + 1);
    }
}

/// Going left on an open container closes it, and on anything else goes to the row of its
/// parent; on the root, which has none, it changes nothing.
pub proof fn law_left_closes_or_goes_up(v: PaneV, p: Seq<usize>)
    requires
        focus_path(v) == Some(p),
    ensures
        ({
            let n = node_at(v.root, p);
            let w = collapsed_or_parent(v);
            if n.expanded && n.kind.is_container() {
                w == PaneV { root: grafted(v.root, p, toggled(n)), ..v }
            } else {
                &&& w == PaneV { focus: w.focus, ..v }
                &&& p.len() == 0 ==> w.focus == v.focus
                &&& p.len() > 0 ==> forall|i: int|
                    0 <= i < v.rows.len() && (#[trigger] v.rows[i]).path == p.drop_last() ==> 0
                        <= w.focus < v.rows.len() && v.rows[w.focus].path == p.drop_last()
            }
        }),
{
    reveal(collapsed_or_parent);
    reveal(focus_toggled);
    if p.len() > 0 {
        lemma_row_at(v.rows, p.drop_last(), 0);
    }
}

// ---------------------------------------------------------------------------
// Bookmarks
// ---------------------------------------------------------------------------
/// Toggling adds the focused node to the bookmarks where it is not among them, behind the
/// others, and else takes it out; the other bookmarks stay as they are, in their order.
pub proof fn law_bookmark_toggles(v: PaneV, p: Seq<usize>)
    requires
        focus_path(v) == Some(p),
    ensures
        ({
            let w = bookmark_toggled(v).0;
            &&& !v.bookmarks.contains(p) ==> w == PaneV { bookmarks: v.bookmarks.push(p), ..v }
            &&& v.bookmarks.contains(p) ==> exists|i: int|
                0 <= i < v.bookmarks.len() && #[trigger] v.bookmarks[i] == p && w.bookmarks
                    == v.bookmarks.remove(i)
            &&& 0 <= v.mark_idx < v.bookmarks.len() ==> 0 <= w.mark_idx && (w.mark_idx
                < w.bookmarks.len() || w.bookmarks.len() == 0)
            &&& w == PaneV { bookmarks: w.bookmarks, mark_idx: w.mark_idx, ..v }
        }),
{
    reveal(bookmark_toggled);
    lemma_position(v.bookmarks, p, 0);
    if v.bookmarks.contains(p) {
        let k = choose|k: int| 0 <= k < v.bookmarks.len() && v.bookmarks[k] == p;
        assert(v.bookmarks[k] == p);
        let i = position(v.bookmarks, p, 0)->0;
        assert(v.bookmarks[i] == p);
    }
}

// ---------------------------------------------------------------------------
// The window
// ---------------------------------------------------------------------------
proof fn lemma_last_real(rows: Seq<RowV>, i: int)
    requires
        i < rows.len(),
    ensures
        0 <= last_real(rows, i),
        i >= 0 ==> last_real(rows, i) <= i,
        last_real(rows, i) > 0 ==> !rows[last_real(rows, i)].loading,
        forall|j: int|
            last_real(rows, i) < j <= i ==> (#[trigger] rows[j]).loading,
    decreases i,
{
    if i > 0 && rows[i].loading {
        lemma_last_real(rows, i - 1);
    }
}

/// The cursor stays where it is while there is a row there, and else comes to the last row
/// that is one; the window moves only as far as it must for the cursor to be in it.
pub proof fn law_cursor_stays_in_the_window(v: PaneV, h: int)
    requires
        v.rows.len() > 0,
        v.focus >= 0,
        v.scroll >= 0,
        h > 0,
    ensures
        ({
            let w = focus_settled(v, h);
            &&& 0 <= w.focus < v.rows.len()
            &&& w.focus > 0 && w.focus != v.focus ==> !v.rows[w.focus].loading
            &&& w.focus <= v.focus
            &&& forall|j: int|
                w.focus < j < v.rows.len() && j <= v.focus ==> (#[trigger] v.rows[j]).loading
            &&& w.scroll <= w.focus < w.scroll + h
            &&& v.scroll <= w.focus < v.scroll + h ==> w.scroll == v.scroll
            &&& w.focus < v.scroll ==> w.scroll == w.focus
            &&& w.focus >= v.scroll + h ==> w.scroll == w.focus - h + 1
            &&& w == PaneV { focus: w.focus, scroll: w.scroll, ..v }
        }),
{
    lemma_last_real(v.rows, v.rows.len() - 1);
}

} // verus!
