//! What a jump brings about: the next frame has its focus on the node, on screen.

use crate::pane::{
    capped, flat_to, jump_budget, jumped, last_real, lemma_pane_tree, pane_wf, path_sum, row_at,
    window_landed, PaneV,
};
use crate::rows::{fetch, flat, flat_children, lemma_flat_eager, RowV};
use crate::scanner::{addressable, after_next, lemma_next_child, next_child, MAX_DEPTH};
use crate::showing::{
    has_row, lemma_expand_to, lemma_no_placeholder, lemma_open_way_shows, lemma_rows_bounded,
    lemma_scanned_wf, most_rows, most_rows_from, open_way,
};
use crate::tree::{
    arrives, expanded_to, fresh_node, lemma_fresh_node_wf, lemma_push_child_wf,
    lemma_replace_child_wf, lemma_scanned_to_keeps, node_wf, scanned_to, NodeV,
};
use crate::unfolding::ahead;
use vstd::prelude::*;

verus! {

// ---------------------------------------------------------------------------
// Flattening again
// ---------------------------------------------------------------------------
proof fn lemma_most_rows_push(b: Seq<u8>, n: NodeV, m: NodeV, c: NodeV, i: int)
    requires
        0 <= i <= n.children.len(),
        m.children == n.children.push(c),
    ensures
        most_rows_from(b, m, i) == most_rows_from(b, n, i) + most_rows(b, c),
    decreases n.children.len() - i,
{
    if i < n.children.len() {
        lemma_most_rows_push(b, n, m, c, i + 1);
    } else {
        assert(m.children[i] == c);
        assert(most_rows_from(b, m, i + 1) == 0);
    }
}

proof fn lemma_most_rows_update(b: Seq<u8>, n: NodeV, m: NodeV, at: int, c: NodeV, i: int)
    requires
        0 <= i,
        0 <= at < n.children.len(),
        m.children == n.children.update(at, c),
        most_rows(b, c) == most_rows(b, n.children[at]),
    ensures
        most_rows_from(b, m, i) == most_rows_from(b, n, i),
    decreases n.children.len() - i,
{
    if i < n.children.len() {
        lemma_most_rows_update(b, n, m, at, c, i + 1);
    }
}

/// A scan makes rows of children that were ahead, and no more.
proof fn lemma_scanned_most_rows(b: Seq<u8>, n: NodeV, i: int)
    requires
        node_wf(b, n),
    ensures
        most_rows(b, scanned_to(b, n, i)) == most_rows(b, n),
    decreases i + 1 - n.children.len(),
{
    let m = scanned_to(b, n, i);
    if n.children.len() <= i && n.cursor is Some {
        let c = n.cursor->0;
        lemma_next_child(b, c.level);
        match next_child(b, c.level) {
            Some(ch) => {
                let k = fresh_node(b, ch);
                let n1 = NodeV {
                    children: n.children.push(k),
                    cursor: Some(after_next(b, c)),
                    ..n
                };
                lemma_fresh_node_wf(b, c.level);
                lemma_push_child_wf(b, n, k, after_next(b, c));
                lemma_scanned_most_rows(b, n1, i);
                lemma_most_rows_push(b, n, n1, k, 0);
                assert(most_rows_from(b, k, 0) == 0);
                assert(most_rows(b, k) == 1);
                assert(ahead(b, n) == seq![ch] + ahead(b, n1));
            },
            None => {
                lemma_most_rows_kept(b, n, m, 0);
            },
        }
    } else {
        lemma_most_rows_kept(b, n, m, 0);
    }
}

proof fn lemma_most_rows_kept(b: Seq<u8>, n: NodeV, m: NodeV, i: int)
    requires
        0 <= i,
        m.children == n.children,
    ensures
        most_rows_from(b, m, i) == most_rows_from(b, n, i),
    decreases n.children.len() - i,
{
    if i < n.children.len() {
        lemma_most_rows_kept(b, n, m, i + 1);
    }
}

/// Whether `m` is the node `n` with more of it scanned: what was open is, and no more rows
/// come of it.
spec fn drawn_from(b: Seq<u8>, n: NodeV, m: NodeV) -> bool {
    &&& node_wf(b, m)
    &&& m.jsonl == n.jsonl
    &&& m.kind == n.kind
    &&& m.expanded == n.expanded
    &&& most_rows(b, m) == most_rows(b, n)
    &&& forall|p: Seq<usize>| open_way(n, p) ==> #[trigger] open_way(m, p)
}

proof fn lemma_flat_draws(
    b: Seq<u8>,
    n: NodeV,
    depth: int,
    budget: int,
    at: Seq<usize>,
    have: int,
)
    requires
        addressable(b),
        node_wf(b, n),
    ensures
        drawn_from(b, n, flat(b, n, depth, budget, at, have, None).node),
    decreases MAX_DEPTH - depth, 1int, 0int,
{
    reveal_with_fuel(flat, 1);
    reveal_with_fuel(flat_children, 1);
    if have < budget && depth < MAX_DEPTH && n.expanded && n.kind.is_container() {
        lemma_flat_children_draw(b, n, depth, budget, at, 0, have + 1);
    }
}

proof fn lemma_flat_children_draw(
    b: Seq<u8>,
    n: NodeV,
    depth: int,
    budget: int,
    at: Seq<usize>,
    i: int,
    have: int,
)
    requires
        addressable(b),
        node_wf(b, n),
        0 <= i,
    ensures
        drawn_from(b, n, flat_children(b, n, depth, budget, at, i, have, None).node),
    decreases MAX_DEPTH - depth, 0int, budget - i,
{
    reveal_with_fuel(flat, 1);
    reveal_with_fuel(flat_children, 1);
    if have < budget && i < budget && depth < MAX_DEPTH {
        let (m, r, left) = fetch(b, n, i, None);
        lemma_scanned_to_keeps(b, n, i);
        lemma_scanned_wf(b, n, i);
        lemma_scanned_most_rows(b, n, i);
        assert forall|p: Seq<usize>| open_way(n, p) implies #[trigger] open_way(m, p) by {
            if p.len() > 0 {
                assert(m.children.take(n.children.len() as int)[p[0] as int]
                    == m.children[p[0] as int]);
            }
        }
        if i < m.children.len() {
            let c = m.children[i];
            let to = at.push(i as usize);
            let f = flat(b, c, depth + 1, budget, to, have, None);
            lemma_flat_draws(b, c, depth + 1, budget, to, have);
            let m1 = NodeV { children: m.children.update(i, f.node), ..m };
            lemma_replace_child_wf(b, m, i, f.node);
            lemma_most_rows_update(b, m, m1, i, f.node, 0);
            assert forall|p: Seq<usize>| open_way(m, p) implies #[trigger] open_way(m1, p) by {
                if p.len() > 0 && p[0] == i {
                    assert(open_way(f.node, p.skip(1)));
                }
            }
            if !f.cut_short {
                lemma_flat_eager(b, c, depth + 1, budget, to, have);
                lemma_flat_children_draw(b, m1, depth, budget, at, i + 1, have + f.rows.len());
            }
        }
    }
}

// ---------------------------------------------------------------------------
// Finding the row
// ---------------------------------------------------------------------------
proof fn lemma_row_at(rows: Seq<RowV>, path: Seq<usize>, i: int, k: int)
    requires
        0 <= i <= k < rows.len(),
        rows[k].path == path,
    ensures
        row_at(rows, path, i) matches Some(j) && i <= j <= k && rows[j].path == path,
    decreases k - i,
{
    if rows[i].path != path {
        lemma_row_at(rows, path, i + 1, k);
    }
}

proof fn lemma_last_real(rows: Seq<RowV>, k: int, j: int)
    requires
        0 <= k <= j < rows.len(),
        !rows[k].loading,
    ensures
        k <= last_real(rows, j) <= j,
    decreases j,
{
    if j > 0 && rows[j].loading {
        lemma_last_real(rows, k, j - 1);
    }
}

/// The row of a node whose way is open is found, in however many rounds.
proof fn lemma_flat_to_finds(b: Seq<u8>, n: NodeV, path: Seq<usize>, budget: int)
    requires
        addressable(b),
        node_wf(b, n),
        open_way(n, path),
        path.len() <= MAX_DEPTH,
        0 < budget,
        most_rows(b, n) < usize::MAX,
    ensures
        has_row(flat_to(b, n, path, budget).rows, path),
    decreases usize::MAX - budget,
{
    let f = flat(b, n, 0, budget, Seq::empty(), 0, None);
    lemma_rows_bounded(b, n, 0, budget, Seq::empty(), 0);
    if f.rows.len() < budget {
        lemma_open_way_shows(b, n, 0, budget, Seq::empty(), 0, path);
        assert(Seq::<usize>::empty() + path =~= path);
    } else if row_at(f.rows, path, 0) is Some {
        lemma_row_at_is_there(f.rows, path, 0);
        lemma_no_placeholder(b, n, 0, budget, Seq::empty(), 0);
    } else {
        lemma_flat_draws(b, n, 0, budget, Seq::empty(), 0);
        lemma_flat_to_finds(b, f.node, path, capped(budget * 2));
    }
}

proof fn lemma_row_at_is_there(rows: Seq<RowV>, path: Seq<usize>, i: int)
    requires
        0 <= i,
        row_at(rows, path, i) is Some,
    ensures
        i <= row_at(rows, path, i)->0 < rows.len(),
        rows[row_at(rows, path, i)->0].path == path,
    decreases rows.len() - i,
{
    if i < rows.len() && rows[i].path != path {
        lemma_row_at_is_there(rows, path, i + 1);
    }
}

proof fn lemma_path_sum(p: Seq<usize>)
    ensures
        path_sum(p) >= 0,
    decreases p.len(),
{
    if p.len() > 0 {
        lemma_path_sum(p.drop_last());
    }
}

// ---------------------------------------------------------------------------
// Laws
// ---------------------------------------------------------------------------
/// A jump to a node that is there lands on it: once the window is flattened, the focus is
/// on the node's row, and that row is on screen.
pub proof fn law_jump_lands(b: Seq<u8>, v: PaneV, path: Seq<usize>, h: int)
    requires
        addressable(b),
        pane_wf(b, v),
        arrives(b, v.root, path),
        path.len() <= MAX_DEPTH,
        most_rows(b, expanded_to(b, v.root, path)) < usize::MAX,
        h > 0,
    ensures
        ({
            let w = window_landed(b, jumped(b, v, path), h);
            &&& 0 <= w.focus < w.rows.len()
            &&& w.rows[w.focus].path == path
            &&& w.scroll <= w.focus < w.scroll + h
        }),
{
    reveal(jumped);
    lemma_pane_tree(b, v);
    lemma_expand_to(b, v.root, path);
    lemma_path_sum(path);
    let e = expanded_to(b, v.root, path);
    let f = flat_to(b, e, path, jump_budget(path, h));
    lemma_flat_to_finds(b, e, path, jump_budget(path, h));
    let k = choose|k: int|
        0 <= k < f.rows.len() && (#[trigger] f.rows[k]).path == path && !f.rows[k].loading;
    lemma_row_at(f.rows, path, 0, k);
    lemma_last_real(f.rows, k, f.rows.len() - 1);
}

} // verus!
