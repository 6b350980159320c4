//! What opening the way to a node brings about: every node above it is open, and its row
//! is among those of the tree.

use crate::rows::{fetch, flat, flat_children, lemma_flat_eager, node_row, RowV};
use crate::scanner::{addressable, after_next, lemma_next_child, next_child, MAX_DEPTH};
use crate::tree::{
    arrives, expanded_to, fresh_node, lemma_fresh_node_wf, lemma_push_child_wf,
    lemma_replace_child_wf, lemma_scanned_closed, lemma_scanned_to_keeps, lemma_toggled_wf,
    node_at, node_wf, opened, reachable, scanned_to, NodeV,
};
use crate::unfolding::{ahead, lemma_scan, scannable};
use vstd::prelude::*;

verus! {

/// Whether every node above the one at `path` is open.
pub open spec fn open_way(n: NodeV, path: Seq<usize>) -> bool
    decreases path.len(),
{
    path.len() == 0 || {
        &&& n.expanded && n.kind.is_container()
        &&& path[0] < n.children.len()
        &&& open_way(n.children[path[0] as int], path.skip(1))
    }
}

pub proof fn lemma_scanned_wf(b: Seq<u8>, n: NodeV, i: int)
    requires
        node_wf(b, n),
    ensures
        node_wf(b, scanned_to(b, n, i)),
    decreases i + 1 - n.children.len(),
{
    if n.children.len() <= i && n.cursor is Some {
        let c = n.cursor->0;
        lemma_next_child(b, c.level);
        match next_child(b, c.level) {
            Some(ch) => {
                let n1 = NodeV {
                    children: n.children.push(fresh_node(b, ch)),
                    cursor: Some(after_next(b, c)),
                    ..n
                };
                lemma_fresh_node_wf(b, c.level);
                lemma_push_child_wf(b, n, fresh_node(b, ch), after_next(b, c));
                lemma_scanned_wf(b, n1, i);
            },
            None => {
                assert(scanned_to(b, n, i).children == n.children);
            },
        }
    } else {
        assert(scanned_to(b, n, i).children == n.children);
    }
}

pub proof fn lemma_expand_to(b: Seq<u8>, n: NodeV, path: Seq<usize>)
    requires
        node_wf(b, n),
        arrives(b, n, path),
        path.len() <= MAX_DEPTH,
    ensures
        ({
            let e = expanded_to(b, n, path);
            &&& node_wf(b, e)
            &&& e.jsonl == n.jsonl
            &&& open_way(e, path)
            &&& reachable(e, path)
            &&& node_at(e, path).expanded == (reachable(n, path) && node_at(n, path).expanded)
        }),
    decreases path.len(),
{
    if path.len() > 0 {
        let i = path[0] as int;
        let o = opened(n);
        let m = scanned_to(b, o, i);
        lemma_scanned_to_keeps(b, o, i);
        lemma_scanned_closed(b, o, i);
        lemma_toggled_wf(b, n);
        lemma_scanned_wf(b, o, i);
        let c = m.children[i];
        if i < n.children.len() {
            assert(m.children.take(n.children.len() as int)[i] == m.children[i]);
        }
        lemma_expand_to(b, c, path.skip(1));
        lemma_replace_child_wf(b, m, i, expanded_to(b, c, path.skip(1)));
    }
}

/// Whether one of the rows is that of the node at `path`.
pub open spec fn has_row(rows: Seq<RowV>, path: Seq<usize>) -> bool {
    exists|k: int| 0 <= k < rows.len() && (#[trigger] rows[k]).path == path && !rows[k].loading
}

pub proof fn lemma_has_row_join(x: Seq<RowV>, y: Seq<RowV>, path: Seq<usize>)
    requires
        has_row(x, path) || has_row(y, path),
    ensures
        has_row(x + y, path),
{
    let z = x + y;
    if has_row(x, path) {
        let k = choose|k: int|
            0 <= k < x.len() && (#[trigger] x[k]).path == path && !x[k].loading;
        assert(z[k] == x[k]);
    } else {
        let k = choose|k: int|
            0 <= k < y.len() && (#[trigger] y[k]).path == path && !y[k].loading;
        assert(z[x.len() + k] == y[k]);
    }
}

/// Without a deadline there is no placeholder.
pub proof fn lemma_no_placeholder(
    b: Seq<u8>,
    n: NodeV,
    depth: int,
    budget: int,
    at: Seq<usize>,
    have: int,
)
    ensures
        forall|k: int|
            0 <= k < flat(b, n, depth, budget, at, have, None).rows.len() ==> !(#[trigger] flat(
                b,
                n,
                depth,
                budget,
                at,
                have,
                None,
            ).rows[k]).loading,
    decreases MAX_DEPTH - depth, 1int, 0int,
{
    reveal_with_fuel(flat, 1);
    reveal_with_fuel(flat_children, 1);
    if have < budget && depth < MAX_DEPTH && n.expanded && n.kind.is_container() {
        lemma_no_placeholder_below(b, n, depth, budget, at, 0, have + 1);
    }
}

proof fn lemma_no_placeholder_below(
    b: Seq<u8>,
    n: NodeV,
    depth: int,
    budget: int,
    at: Seq<usize>,
    i: int,
    have: int,
)
    ensures
        forall|k: int|
            0 <= k < flat_children(b, n, depth, budget, at, i, have, None).rows.len() ==> !(
            #[trigger] flat_children(b, n, depth, budget, at, i, have, None).rows[k]).loading,
    decreases MAX_DEPTH - depth, 0int, budget - i,
{
    reveal_with_fuel(flat, 1);
    reveal_with_fuel(flat_children, 1);
    if have < budget && i < budget && depth < MAX_DEPTH {
        let (m, r, left) = fetch(b, n, i, None);
        if i < m.children.len() {
            let c = m.children[i];
            let to = at.push(i as usize);
            let f = flat(b, c, depth + 1, budget, to, have, None);
            lemma_flat_eager(b, c, depth + 1, budget, to, have);
            lemma_no_placeholder(b, c, depth + 1, budget, to, have);
            let m1 = NodeV { children: m.children.update(i, f.node), ..m };
            lemma_no_placeholder_below(b, m1, depth, budget, at, i + 1, have + f.rows.len());
        }
    }
}

/// A node whose way is open has a row, where the budget is not used up.
pub proof fn lemma_open_way_shows(
    b: Seq<u8>,
    n: NodeV,
    depth: int,
    budget: int,
    at: Seq<usize>,
    have: int,
    path: Seq<usize>,
)
    requires
        open_way(n, path),
        0 <= have,
        depth + path.len() <= MAX_DEPTH,
        have + flat(b, n, depth, budget, at, have, None).rows.len() < budget,
    ensures
        has_row(flat(b, n, depth, budget, at, have, None).rows, at + path),
    decreases MAX_DEPTH - depth, 1int, 0int,
{
    reveal_with_fuel(flat, 1);
    reveal_with_fuel(flat_children, 1);
    let row = seq![node_row(b, n, depth, at)];
    let f = flat(b, n, depth, budget, at, have, None);
    if path.len() == 0 {
        assert(at + path =~= at);
        assert(f.rows[0] == row[0]);
    } else {
        let rest = flat_children(b, n, depth, budget, at, 0, have + 1, None);
        lemma_open_way_below(b, n, depth, budget, at, 0, have + 1, path);
        lemma_has_row_join(row, rest.rows, at + path);
    }
}

proof fn lemma_open_way_below(
    b: Seq<u8>,
    n: NodeV,
    depth: int,
    budget: int,
    at: Seq<usize>,
    i: int,
    have: int,
    path: Seq<usize>,
)
    requires
        path.len() > 0,
        0 <= i <= path[0] < n.children.len(),
        i <= have,
        open_way(n.children[path[0] as int], path.skip(1)),
        depth + path.len() <= MAX_DEPTH,
        have + flat_children(b, n, depth, budget, at, i, have, None).rows.len() < budget,
    ensures
        has_row(flat_children(b, n, depth, budget, at, i, have, None).rows, at + path),
    decreases MAX_DEPTH - depth, 0int, budget - i,
{
    reveal_with_fuel(flat, 1);
    reveal_with_fuel(flat_children, 1);
    let (m, r, left) = fetch(b, n, i, None);
    assert(m == n);
    let c = n.children[i];
    let to = at.push(i as usize);
    let f = flat(b, c, depth + 1, budget, to, have, None);
    lemma_flat_eager(b, c, depth + 1, budget, to, have);
    let m1 = NodeV { children: m.children.update(i, f.node), ..m };
    let rest = flat_children(b, m1, depth, budget, at, i + 1, have + f.rows.len(), None);
    if i == path[0] {
        lemma_open_way_shows(b, c, depth + 1, budget, to, have, path.skip(1));
        assert(to + path.skip(1) =~= at + path);
    } else {
        lemma_open_way_below(b, m1, depth, budget, at, i + 1, have + f.rows.len(), path);
    }
    lemma_has_row_join(f.rows, rest.rows, at + path);
}

/// At most as many rows as a tree can have while nothing more is opened in it: one for
/// each node, and one for each child that an open node has still ahead.
pub open spec fn most_rows(b: Seq<u8>, n: NodeV) -> nat
    decreases n, n.children.len() + 1,
{
    1 + most_rows_from(b, n, 0) + ahead(b, n).len()
}

pub open spec fn most_rows_from(b: Seq<u8>, n: NodeV, i: int) -> nat
    decreases n, n.children.len() - i,
{
    if 0 <= i < n.children.len() {
        most_rows(b, n.children[i]) + most_rows_from(b, n, i + 1)
    } else {
        0
    }
}

proof fn lemma_most_rows_same(b: Seq<u8>, n: NodeV, m: NodeV, i: int)
    requires
        0 <= i,
        n.children.len() == m.children.len(),
        forall|k: int| i <= k < n.children.len() ==> n.children[k] == #[trigger] m.children[k],
    ensures
        most_rows_from(b, n, i) == most_rows_from(b, m, i),
    decreases n.children.len() - i,
{
    if i < n.children.len() {
        lemma_most_rows_same(b, n, m, i + 1);
    }
}

pub proof fn lemma_rows_bounded(
    b: Seq<u8>,
    n: NodeV,
    depth: int,
    budget: int,
    at: Seq<usize>,
    have: int,
)
    requires
        addressable(b),
        node_wf(b, n),
    ensures
        flat(b, n, depth, budget, at, have, None).rows.len() <= most_rows(b, n),
    decreases MAX_DEPTH - depth, 1int, 0int,
{
    reveal_with_fuel(flat, 1);
    reveal_with_fuel(flat_children, 1);
    if have < budget && depth < MAX_DEPTH && n.expanded && n.kind.is_container() {
        lemma_child_rows_bounded(b, n, depth, budget, at, 0, have + 1);
    }
}

proof fn lemma_child_rows_bounded(
    b: Seq<u8>,
    n: NodeV,
    depth: int,
    budget: int,
    at: Seq<usize>,
    i: int,
    have: int,
)
    requires
        addressable(b),
        0 <= i <= n.children.len(),
        n.cursor is None || scannable(b, n),
        forall|k: int| i <= k < n.children.len() ==> node_wf(b, #[trigger] n.children[k]),
    ensures
        flat_children(b, n, depth, budget, at, i, have, None).rows.len() <= most_rows_from(b, n, i)
            + ahead(b, n).len(),
    decreases MAX_DEPTH - depth, 0int, budget - i,
{
    reveal_with_fuel(flat, 1);
    reveal_with_fuel(flat_children, 1);
    let (m, r, left) = fetch(b, n, i, None);
    if have < budget && i < budget && depth < MAX_DEPTH && i < m.children.len() {
        if i == n.children.len() {
            lemma_scan(b, n, i);
            assert(m.children[i] == fresh_node(b, ahead(b, n)[0]));
        }
        let c = m.children[i];
        let to = at.push(i as usize);
        let f = flat(b, c, depth + 1, budget, to, have, None);
        let m1 = NodeV { children: m.children.update(i, f.node), ..m };
        lemma_flat_eager(b, c, depth + 1, budget, to, have);
        if i < n.children.len() {
            lemma_rows_bounded(b, c, depth + 1, budget, to, have);
            lemma_most_rows_same(b, n, m1, i + 1);
        }
        lemma_child_rows_bounded(b, m1, depth, budget, at, i + 1, have + f.rows.len());
    }
}

/// Every node above one whose way is open is open.
proof fn lemma_open_way_is_open(n: NodeV, path: Seq<usize>, k: int)
    requires
        open_way(n, path),
        0 <= k < path.len(),
    ensures
        reachable(n, path.take(k)),
        node_at(n, path.take(k)).expanded,
    decreases path.len(),
{
    if k > 0 {
        lemma_open_way_is_open(n.children[path[0] as int], path.skip(1), k - 1);
        assert(path.take(k).skip(1) =~= path.skip(1).take(k - 1));
    } else {
        assert(path.take(0) =~= Seq::empty());
    }
}

// ---------------------------------------------------------------------------
// Laws
// ---------------------------------------------------------------------------
/// Opening the way to a node that is there opens every node above it and leaves the node
/// itself as it was, closed where it had not been scanned; and a flattening with a large
/// enough budget has its row.
pub proof fn law_expand_to_shows_the_node(b: Seq<u8>, n: NodeV, path: Seq<usize>, budget: int)
    requires
        addressable(b),
        node_wf(b, n),
        arrives(b, n, path),
        path.len() <= MAX_DEPTH,
    ensures
        ({
            let e = expanded_to(b, n, path);
            &&& reachable(e, path)
            &&& forall|k: int|
                0 <= k < path.len() ==> reachable(e, path.take(k)) && (#[trigger] node_at(
                    e,
                    path.take(k),
                )).expanded
            &&& node_at(e, path).expanded == (reachable(n, path) && node_at(n, path).expanded)
            &&& budget > most_rows(b, e) ==> has_row(
                flat(b, e, 0, budget, Seq::empty(), 0, None).rows,
                path,
            )
        }),
{
    lemma_expand_to(b, n, path);
    let e = expanded_to(b, n, path);
    assert forall|k: int| 0 <= k < path.len() implies reachable(e, path.take(k)) && (
    #[trigger] node_at(e, path.take(k))).expanded by {
        lemma_open_way_is_open(e, path, k);
    }
    if budget > most_rows(b, e) {
        law_a_large_budget_is_not_used_up(b, e, budget);
        lemma_open_way_shows(b, e, 0, budget, Seq::empty(), 0, path);
        assert(Seq::<usize>::empty() + path =~= path);
    }
}

/// A flattening in one go is not ended by a budget larger than the rows that the tree
/// can have.
pub proof fn law_a_large_budget_is_not_used_up(b: Seq<u8>, n: NodeV, budget: int)
    requires
        addressable(b),
        node_wf(b, n),
        budget > most_rows(b, n),
    ensures
        flat(b, n, 0, budget, Seq::empty(), 0, None).rows.len() < budget,
{
    lemma_rows_bounded(b, n, 0, budget, Seq::empty(), 0);
}

} // verus!
