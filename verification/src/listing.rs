//! Which nodes have a row, and in what order the rows stand.

use crate::finding::{comes_before, parts_at};
use crate::reaching::kids;
use crate::rows::{
    fetch, flat, flat_children, lemma_child_rows_lead, lemma_fetch_keeps, lemma_flat_eager, node_row,
    RowV,
};
use crate::scanner::{addressable, MAX_DEPTH};
use crate::showing::{has_row, lemma_has_row_join, open_way};
use crate::tree::{fresh_node, node_wf, NodeV};
use crate::unfolding::{ahead, fresh_nodes, lemma_scan, scannable};
use vstd::prelude::*;

verus! {

/// Whether rows stand in the order of the document, with none behind one that waits for more.
pub open spec fn in_order(rows: Seq<RowV>) -> bool {
    forall|i: int, j: int|
        0 <= i < j < rows.len() ==> {
            &&& !(#[trigger] rows[i]).loading
            &&& (#[trigger] rows[j]).loading || comes_before(rows[i].path, rows[j].path)
        }
}

/// Whether a row is that of a node below `path` in a tree `n` whose way to it is open.
pub open spec fn shown_below(n: NodeV, path: Seq<usize>, r: RowV) -> bool {
    &&& path.len() <= r.path.len()
    &&& r.path.take(path.len() as int) == path
    &&& open_way(n, r.path.skip(path.len() as int))
}

/// Whether a row is that of a node below a child of `n`, one from number `i` on.
spec fn shown_from(n: NodeV, path: Seq<usize>, i: int, r: RowV) -> bool {
    let at = path.len() as int;
    &&& at < r.path.len()
    &&& r.path.take(at) == path
    &&& i <= r.path[at] < n.children.len()
    &&& open_way(n.children[r.path[at] as int], r.path.skip(at + 1))
}

/// Only nodes whose way is open have a row, that is those all of whose ancestors are expanded
/// containers, and none has two: the rows stand in the order of the document, a node in front
/// of what is below it. A row that waits for more is the last.
pub proof fn law_rows_are_in_order(
    b: Seq<u8>,
    n: NodeV,
    depth: int,
    budget: int,
    path: Seq<usize>,
    have: int,
    patience: Option<nat>,
)
    requires
        0 <= have,
        budget <= usize::MAX,
    ensures
        ({
            let f = flat(b, n, depth, budget, path, have, patience);
            &&& in_order(f.rows)
            &&& forall|k: int| 0 <= k < f.rows.len() ==> (#[trigger] f.rows[k]).loading
                || shown_below(f.node, path, f.rows[k])
            &&& !f.cut_short ==> forall|k: int|
                0 <= k < f.rows.len() ==> !(#[trigger] f.rows[k]).loading
        }),
    decreases MAX_DEPTH - depth, 1int, 0int,
{
    reveal_with_fuel(flat, 1);
    reveal_with_fuel(flat_children, 1);
    let f = flat(b, n, depth, budget, path, have, patience);
    if have < budget {
        let row = node_row(b, n, depth, path);
        let open = depth < MAX_DEPTH && n.expanded && n.kind.is_container();
        assert(path.take(path.len() as int) =~= path);
        assert(f.rows[0] == row);
        if open {
            let g = flat_children(b, n, depth, budget, path, 0, have + 1, patience);
            lemma_child_rows_lead(b, n, depth, budget, path, 0, have + 1, patience);
            lemma_children_in_order(b, n, depth, budget, path, 0, have + 1, patience);
            assert forall|k: int| 0 <= k < f.rows.len() implies (#[trigger] f.rows[k]).loading
                || shown_below(f.node, path, f.rows[k]) by {
                if k > 0 {
                    let r = g.rows[k - 1];
                    assert(f.rows[k] == r);
                    if !r.loading {
                        assert(shown_from(g.node, path, 0, r));
                        let rest = r.path.skip(path.len() as int);
                        assert(rest.skip(1) =~= r.path.skip(path.len() as int + 1));
                    }
                }
            }
            assert forall|i: int, j: int| 0 <= i < j < f.rows.len() implies {
                &&& !(#[trigger] f.rows[i]).loading
                &&& (#[trigger] f.rows[j]).loading || comes_before(f.rows[i].path, f.rows[j].path)
            } by {
                assert(f.rows[j] == g.rows[j - 1]);
                if i > 0 {
                    assert(f.rows[i] == g.rows[i - 1]);
                } else if !f.rows[j].loading {
                    assert(shown_from(g.node, path, 0, g.rows[j - 1]));
                    assert(parts_at(path, f.rows[j].path, path.len() as int));
                }
            }
            if !f.cut_short {
                assert forall|k: int| 0 <= k < f.rows.len() implies !(#[trigger] f.rows[k]).loading by {
                    if k > 0 {
                        assert(f.rows[k] == g.rows[k - 1]);
                    }
                }
            }
        }
    }
}

proof fn lemma_children_in_order(
    b: Seq<u8>,
    n: NodeV,
    depth: int,
    budget: int,
    path: Seq<usize>,
    i: int,
    have: int,
    patience: Option<nat>,
)
    requires
        0 <= i,
        0 <= have,
        budget <= usize::MAX,
    ensures
        ({
            let g = flat_children(b, n, depth, budget, path, i, have, patience);
            &&& in_order(g.rows)
            &&& forall|k: int| 0 <= k < g.rows.len() ==> (#[trigger] g.rows[k]).loading
                || shown_from(g.node, path, i, g.rows[k])
            &&& !g.cut_short ==> forall|k: int|
                0 <= k < g.rows.len() ==> !(#[trigger] g.rows[k]).loading
        }),
    decreases MAX_DEPTH - depth, 0int, budget - i,
{
    reveal_with_fuel(flat, 1);
    reveal_with_fuel(flat_children, 1);
    let g = flat_children(b, n, depth, budget, path, i, have, patience);
    if have < budget && i < budget && depth < MAX_DEPTH {
        let (m, r, left) = fetch(b, n, i, patience);
        lemma_fetch_keeps(b, n, i, patience);
        if r is Ready {
            let p = path.push(i as usize);
            let c = m.children[i];
            let f = flat(b, c, depth + 1, budget, p, have, left);
            law_rows_are_in_order(b, c, depth + 1, budget, p, have, left);
            let m1 = NodeV { children: m.children.update(i, f.node), ..m };
            let h = flat_children(
                b,
                m1,
                depth,
                budget,
                path,
                i + 1,
                have + f.rows.len(),
                f.patience,
            );
            if !f.cut_short {
                lemma_child_rows_lead(
                    b,
                    m1,
                    depth,
                    budget,
                    path,
                    i + 1,
                    have + f.rows.len(),
                    f.patience,
                );
                lemma_children_in_order(
                    b,
                    m1,
                    depth,
                    budget,
                    path,
                    i + 1,
                    have + f.rows.len(),
                    f.patience,
                );
            }
            assert(g.node.children[i] == f.node);
            assert forall|k: int| 0 <= k < f.rows.len() && !(#[trigger] f.rows[k]).loading implies shown_from(
                g.node,
                path,
                i,
                f.rows[k],
            ) by {
                lemma_shown_up(g.node, path, i, f.rows[k]);
            }
            assert forall|k: int| 0 <= k < g.rows.len() implies (#[trigger] g.rows[k]).loading
                || shown_from(g.node, path, i, g.rows[k]) by {
                if k < f.rows.len() {
                    assert(g.rows[k] == f.rows[k]);
                } else {
                    assert(g.rows[k] == h.rows[k - f.rows.len()]);
                }
            }
            assert forall|x: int, y: int| 0 <= x < y < g.rows.len() implies {
                &&& !(#[trigger] g.rows[x]).loading
                &&& (#[trigger] g.rows[y]).loading || comes_before(g.rows[x].path, g.rows[y].path)
            } by {
                let l = f.rows.len() as int;
                if y < l {
                    assert(g.rows[x] == f.rows[x]);
                    assert(g.rows[y] == f.rows[y]);
                } else {
                    assert(!f.cut_short);
                    assert(g.rows[y] == h.rows[y - l]);
                    if x < l {
                        assert(g.rows[x] == f.rows[x]);
                        assert(shown_below(f.node, p, f.rows[x]));
                        if !g.rows[y].loading {
                            assert(shown_from(h.node, path, i + 1, h.rows[y - l]));
                            let at = path.len() as int;
                            assert(f.rows[x].path.take(at + 1)[at] == p[at]);
                            assert(f.rows[x].path.take(at) =~= f.rows[x].path.take(at + 1).take(at));
                            assert(p.take(at) =~= path);
                            assert(parts_at(g.rows[x].path, g.rows[y].path, at));
                        }
                    } else {
                        assert(g.rows[x] == h.rows[x - l]);
                    }
                }
            }
            if !g.cut_short {
                assert forall|k: int| 0 <= k < g.rows.len() implies !(#[trigger] g.rows[k]).loading by {
                    if k < f.rows.len() {
                        assert(g.rows[k] == f.rows[k]);
                    } else {
                        assert(g.rows[k] == h.rows[k - f.rows.len()]);
                    }
                }
            }
        }
    }
}

proof fn lemma_shown_up(n: NodeV, path: Seq<usize>, i: int, r: RowV)
    requires
        0 <= i < n.children.len(),
        i <= usize::MAX,
        shown_below(n.children[i], path.push(i as usize), r),
    ensures
        shown_from(n, path, i, r),
{
    let at = path.len() as int;
    let p = path.push(i as usize);
    assert(r.path.take(at + 1)[at] == p[at]);
    assert(r.path.take(at) =~= r.path.take(at + 1).take(at));
    assert(p.take(at) =~= path);
}

/// Whether every node above the one that `path` leads to is an open container, with the
/// children that are still to be scanned counted in.
pub open spec fn open_within(b: Seq<u8>, n: NodeV, path: Seq<usize>) -> bool
    decreases path.len(),
{
    path.len() == 0 || {
        &&& n.expanded && n.kind.is_container()
        &&& path[0] < kids(b, n).len()
        &&& open_within(b, kids(b, n)[path[0] as int], path.skip(1))
    }
}

/// Every node whose way is open has a row, where the budget is not used up: all the children
/// of an open node, scanned before or not, and all of theirs that are open in turn.
pub proof fn law_every_open_node_has_a_row(
    b: Seq<u8>,
    n: NodeV,
    depth: int,
    budget: int,
    at: Seq<usize>,
    have: int,
    path: Seq<usize>,
)
    requires
        addressable(b),
        node_wf(b, n) || path.len() == 0,
        open_within(b, n, path),
        0 <= have,
        depth + path.len() <= MAX_DEPTH,
        have + flat(b, n, depth, budget, at, have, None).rows.len() < budget,
    ensures
        has_row(flat(b, n, depth, budget, at, have, None).rows, at + path),
    decreases MAX_DEPTH - depth, 1int, 0int,
{
    reveal_with_fuel(flat, 1);
    reveal_with_fuel(flat_children, 1);
    let row = seq![node_row(b, n, depth, at)];
    let f = flat(b, n, depth, budget, at, have, None);
    if path.len() == 0 {
        assert(at + path =~= at);
        assert(f.rows[0] == row[0]);
    } else {
        let rest = flat_children(b, n, depth, budget, at, 0, have + 1, None);
        assert(kids(b, n) == n.children + fresh_nodes(b, ahead(b, n)));
        lemma_open_child_has_a_row(b, n, depth, budget, at, 0, have + 1, path);
        lemma_has_row_join(row, rest.rows, at + path);
    }
}

proof fn lemma_open_child_has_a_row(
    b: Seq<u8>,
    n: NodeV,
    depth: int,
    budget: int,
    at: Seq<usize>,
    i: int,
    have: int,
    path: Seq<usize>,
)
    requires
        addressable(b),
        path.len() > 0,
        n.cursor is None || scannable(b, n),
        forall|k: int| i <= k < n.children.len() ==> node_wf(b, #[trigger] n.children[k]),
        0 <= i <= n.children.len(),
        i <= path[0] < n.children.len() + ahead(b, n).len(),
        i <= have,
        open_within(
            b,
            (n.children + fresh_nodes(b, ahead(b, n)))[path[0] as int],
            path.skip(1),
        ),
        depth + path.len() <= MAX_DEPTH,
        have + flat_children(b, n, depth, budget, at, i, have, None).rows.len() < budget,
    ensures
        has_row(flat_children(b, n, depth, budget, at, i, have, None).rows, at + path),
    decreases MAX_DEPTH - depth, 0int, budget - i,
{
    reveal_with_fuel(flat, 1);
    reveal_with_fuel(flat_children, 1);
    let (m, r, left) = fetch(b, n, i, None);
    let all = n.children + fresh_nodes(b, ahead(b, n));
    if i == n.children.len() {
        assert(n.cursor is Some);
        lemma_scan(b, n, i);
        assert(m.children[i] == fresh_node(b, ahead(b, n)[0]));
        assert(m.children + fresh_nodes(b, ahead(b, m)) =~= all);
    }
    let c = m.children[i];
    assert(c == all[i]);
    let to = at.push(i as usize);
    let f = flat(b, c, depth + 1, budget, to, have, None);
    lemma_flat_eager(b, c, depth + 1, budget, to, have);
    let m1 = NodeV { children: m.children.update(i, f.node), ..m };
    let rest = flat_children(b, m1, depth, budget, at, i + 1, have + f.rows.len(), None);
    if i == path[0] {
        law_every_open_node_has_a_row(b, c, depth + 1, budget, to, have, path.skip(1));
        assert(to + path.skip(1) =~= at + path);
    } else {
        let now = m1.children + fresh_nodes(b, ahead(b, m1));
        assert(now[path[0] as int] == all[path[0] as int]);
        lemma_open_child_has_a_row(b, m1, depth, budget, at, i + 1, have + f.rows.len(), path);
    }
    lemma_has_row_join(f.rows, rest.rows, at + path);
}

} // verus!
