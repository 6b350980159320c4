//! The rows on screen: the expanded part of the tree, flattened.

use crate::scanner::{Kind, MAX_DEPTH};
use crate::tree::{
    fetched, fetched_after, grown, lemma_fetched_keeps, lemma_grown_child, lemma_grown_scanned,
    lemma_grown_self, lemma_grown_step, lemma_replace_child_wf, lemma_scanned_to_keeps, node_at,
    node_wf, preview_text, reachable, same_but_scanned, scanned_to, stepped, EnsureChild, FetchV,
    Node, NodeV,
};
use std::time::Instant;
use vstd::prelude::*;

verus! {

// ---------------------------------------------------------------------------
// Rows
// ---------------------------------------------------------------------------
/// A flattened, on-screen row plus the index path back to its node. Carries the
/// label, value and kind separately so that each segment can be colored.
pub struct Row {
    pub depth: usize,
    pub label: String,
    pub value: String,
    pub kind: Kind,
    pub is_index: bool,
    pub has_children: bool,
    pub expanded: bool,
    pub path: Vec<usize>,
    /// A synthetic, non-navigable placeholder shown while a huge value is being
    /// stepped over, at the spot where the next sibling will appear. Always the
    /// last row; focus is clamped above it.
    pub loading: bool,
}

/// A row as the contracts speak of it.
pub struct RowV {
    pub depth: int,
    pub label: Seq<char>,
    pub value: Seq<char>,
    pub kind: Kind,
    pub is_index: bool,
    pub has_children: bool,
    pub expanded: bool,
    pub path: Seq<usize>,
    pub loading: bool,
}

impl View for Row {
    type V = RowV;

    open spec fn view(&self) -> RowV {
        RowV {
            depth: self.depth as int,
            label: self.label@,
            value: self.value@,
            kind: self.kind,
            is_index: self.is_index,
            has_children: self.has_children,
            expanded: self.expanded,
            path: self.path@,
            loading: self.loading,
        }
    }
}

pub open spec fn row_views(rows: Seq<Row>) -> Seq<RowV> {
    Seq::new(rows.len(), |i: int| rows[i]@)
}

/// The row of a node.
pub open spec fn node_row(b: Seq<u8>, n: NodeV, depth: int, path: Seq<usize>) -> RowV {
    RowV {
        depth,
        label: n.label,
        value: preview_text(b, n),
        kind: n.kind,
        is_index: n.is_index,
        has_children: n.has_children,
        expanded: n.expanded,
        path,
        loading: false,
    }
}

/// The placeholder below a node whose next child is not there yet.
pub open spec fn loading_row(depth: int) -> RowV {
    RowV {
        depth,
        label: Seq::empty(),
        value: Seq::empty(),
        kind: Kind::Null,
        is_index: false,
        has_children: false,
        expanded: false,
        path: Seq::empty(),
        loading: true,
    }
}

/// What a flattening leaves: the node with the children it scanned, the rows,
/// whether a deadline cut it short, and the patience that is left.
pub struct FlatV {
    pub node: NodeV,
    pub rows: Seq<RowV>,
    pub cut_short: bool,
    pub patience: Option<nat>,
}

/// Bringing up child `i`: in one go, or with `patience` against a deadline.
pub open spec fn fetch(b: Seq<u8>, n: NodeV, i: int, patience: Option<nat>) -> (
    NodeV,
    FetchV,
    Option<nat>,
) {
    match patience {
        None => {
            let m = scanned_to(b, n, i);
            (m, if i < m.children.len() { FetchV::Ready } else { FetchV::Done }, None)
        },
        Some(p) => {
            let (m, r, left) = fetched(b, n, i, p);
            (m, r, Some(left))
        },
    }
}

/// The rows of the subtree at `n`, depth first, as far as `budget` allows where
/// `have` rows are there already.
#[verifier::opaque]
pub open spec fn flat(
    b: Seq<u8>,
    n: NodeV,
    depth: int,
    budget: int,
    path: Seq<usize>,
    have: int,
    patience: Option<nat>,
) -> FlatV
    decreases MAX_DEPTH - depth, 1int, 0int,
{
    if have >= budget {
        FlatV { node: n, rows: Seq::empty(), cut_short: false, patience }
    } else {
        let row = seq![node_row(b, n, depth, path)];
        if depth < MAX_DEPTH && n.expanded && n.kind.is_container() {
            prepend(row, flat_children(b, n, depth, budget, path, 0, have + 1, patience))
        } else {
            FlatV { node: n, rows: row, cut_short: false, patience }
        }
    }
}

/// The rows of the subtrees at the children of `n` from number `i` on.
#[verifier::opaque]
pub open spec fn flat_children(
    b: Seq<u8>,
    n: NodeV,
    depth: int,
    budget: int,
    path: Seq<usize>,
    i: int,
    have: int,
    patience: Option<nat>,
) -> FlatV
    decreases MAX_DEPTH - depth, 0int, budget - i,
{
    if have >= budget || i >= budget || depth >= MAX_DEPTH {
        FlatV { node: n, rows: Seq::empty(), cut_short: false, patience }
    } else {
        let (m, r, left) = fetch(b, n, i, patience);
        match r {
            FetchV::Done => FlatV {
                node: m,
                rows: Seq::empty(),
                cut_short: false,
                patience: left,
            },
            FetchV::Busy => FlatV {
                node: m,
                rows: seq![loading_row(depth + 1)],
                cut_short: true,
                patience: left,
            },
            FetchV::Ready => {
                let f = flat(
                    b,
                    m.children[i],
                    depth + 1,
                    budget,
                    path.push(i as usize),
                    have,
                    left,
                );
                let m1 = NodeV { children: m.children.update(i, f.node), ..m };
                if f.cut_short {
                    FlatV { node: m1, ..f }
                } else {
                    prepend(
                        f.rows,
                        flat_children(
                            b,
                            m1,
                            depth,
                            budget,
                            path,
                            i + 1,
                            have + f.rows.len(),
                            f.patience,
                        ),
                    )
                }
            },
        }
    }
}

pub open spec fn prepend(rows: Seq<RowV>, f: FlatV) -> FlatV {
    FlatV { rows: rows + f.rows, ..f }
}

/// No deadline, or a patience of `n`.
pub open spec fn patience_of(timed: bool, n: nat) -> Option<nat> {
    if timed {
        Some(n)
    } else {
        None
    }
}

/// [`flat`] with the patience given as what is used up and what is left.
pub open spec fn flat_after(
    b: Seq<u8>,
    n: NodeV,
    depth: int,
    budget: int,
    path: Seq<usize>,
    have: int,
    timed: bool,
    used: nat,
    left: nat,
) -> FlatV {
    flat(b, n, depth, budget, path, have, patience_of(timed, used + left))
}

/// [`fetch`] with the patience given as what is used up and what is left.
pub open spec fn fetch_after(
    b: Seq<u8>,
    n: NodeV,
    i: int,
    timed: bool,
    used: nat,
    left: nat,
) -> (NodeV, FetchV, Option<nat>) {
    fetch(b, n, i, patience_of(timed, used + left))
}

impl Node {
    /// Bring up child `i`, in one go where there is no deadline. The count handed
    /// back is how many times the clock was found short of the deadline.
    fn fetch_child(&mut self, b: &[u8], i: usize, deadline: Option<Instant>) -> (r: (
        EnsureChild,
        Ghost<nat>,
    ))
        requires
            old(self).wf(b@),
        ensures
            final(self).wf(b@),
            final(self).jsonl == old(self).jsonl,
            r.0 is Ready ==> i < final(self).children@.len(),
            fetch_ends(
                b@,
                old(self).model(b@),
                i as int,
                deadline is Some,
                r.1@,
                final(self).model(b@),
                r.0.model(),
            ),
    {
        let ghost n0 = self.model(b@);
        proof {
            reveal(fetch_ends);
        }
        match deadline {
            Some(dl) => {
                let r = self.ensure_child_until(b, i, dl);
                proof {
                    assert(fetched_after(b@, n0, i as int, r.1@, 0) == (
                        self.model(b@),
                        r.0.model(),
                        0nat,
                    ));
                    lemma_fetched_keeps(b@, n0, i as int, (r.1@ + 0) as nat);
                    assert forall|left: nat|
                        !(r.0 is Busy) || left == 0 implies #[trigger] fetch_after(
                        b@,
                        n0,
                        i as int,
                        true,
                        r.1@,
                        left,
                    ) == (self.model(b@), r.0.model(), patience_of(true, left)) by {
                        assert(fetched_after(b@, n0, i as int, r.1@, left) == (
                            self.model(b@),
                            r.0.model(),
                            left,
                        ));
                    }
                }
                r
            },
            None => {
                self.ensure_child(b, i);
                proof {
                    lemma_scanned_to_keeps(b@, n0, i as int);
                }
                if i < self.children.len() {
                    (EnsureChild::Ready, Ghost(0))
                } else {
                    (EnsureChild::Done, Ghost(0))
                }
            },
        }
    }
}

/// Fetching child `i` with the patience `used` ends in `m` and `r`, and with
/// more patience likewise where it did not run out.
#[verifier::opaque]
pub open spec fn fetch_ends(
    b: Seq<u8>,
    n: NodeV,
    i: int,
    timed: bool,
    used: nat,
    m: NodeV,
    r: FetchV,
) -> bool {
    forall|left: nat|
        !(r is Busy) || left == 0 ==> #[trigger] fetch_after(b, n, i, timed, used, left) == (
            m,
            r,
            patience_of(timed, left),
        )
}

/// What stays the same while one node's subtree is flattened.
pub struct WalkV {
    pub b: Seq<u8>,
    pub depth: int,
    pub budget: int,
    pub path: Seq<usize>,
    pub timed: bool,
}

/// Flattening `n` behind `have` rows with the patience `used` ends in `m` and
/// `rows`, and with more patience likewise where it was not cut short.
#[verifier::opaque]
pub open spec fn flat_ends(
    w: WalkV,
    n: NodeV,
    have: int,
    used: nat,
    m: NodeV,
    rows: Seq<RowV>,
    cut_short: bool,
) -> bool {
    forall|left: nat|
        !cut_short || left == 0 ==> #[trigger] flat_after(
            w.b,
            n,
            w.depth,
            w.budget,
            w.path,
            have,
            w.timed,
            used,
            left,
        ) == (FlatV { node: m, rows, cut_short, patience: patience_of(w.timed, left) })
}

/// Flattening `n` behind `have` rows comes, with the patience `used`, to child
/// `i` of `m` with `rows` behind it.
#[verifier::opaque]
spec fn flat_reaches(
    w: WalkV,
    n: NodeV,
    have: int,
    used: nat,
    m: NodeV,
    rows: Seq<RowV>,
    i: int,
) -> bool {
    forall|left: nat| #[trigger]
        flat_after(w.b, n, w.depth, w.budget, w.path, have, w.timed, used, left) == prepend(
            rows,
            flat_children(
                w.b,
                m,
                w.depth,
                w.budget,
                w.path,
                i,
                have + rows.len(),
                patience_of(w.timed, left),
            ),
        )
}

proof fn lemma_flat_start(w: WalkV, n: NodeV, have: int)
    requires
        have < w.budget,
        w.depth < MAX_DEPTH,
        n.expanded,
        n.kind.is_container(),
    ensures
        flat_reaches(w, n, have, 0, n, seq![node_row(w.b, n, w.depth, w.path)], 0),
{
    reveal(flat_reaches);
    reveal_with_fuel(flat, 1);
    reveal_with_fuel(flat_children, 1);
}

proof fn lemma_flat_leaf(w: WalkV, n: NodeV, have: int)
    requires
        have >= w.budget || !(w.depth < MAX_DEPTH && n.expanded && n.kind.is_container()),
    ensures
        have >= w.budget ==> flat_ends(w, n, have, 0, n, Seq::empty(), false),
        have < w.budget ==> flat_ends(
            w,
            n,
            have,
            0,
            n,
            seq![node_row(w.b, n, w.depth, w.path)],
            false,
        ),
{
    reveal(flat_ends);
    reveal_with_fuel(flat, 1);
}

/// The children end, or the budget is used up.
proof fn lemma_flat_end(w: WalkV, n: NodeV, have: int, used: nat, m: NodeV, rows: Seq<RowV>, i: int)
    requires
        flat_reaches(w, n, have, used, m, rows, i),
        have + rows.len() >= w.budget,
    ensures
        flat_ends(w, n, have, used, m, rows, false),
{
    reveal(flat_reaches);
    reveal(flat_ends);
    reveal_with_fuel(flat_children, 1);
    assert(rows + Seq::<RowV>::empty() =~= rows);
}

proof fn lemma_flat_fetch(
    w: WalkV,
    n: NodeV,
    have: int,
    used: nat,
    m: NodeV,
    rows: Seq<RowV>,
    i: int,
    polled: nat,
    m1: NodeV,
    r: FetchV,
)
    requires
        flat_reaches(w, n, have, used, m, rows, i),
        have + rows.len() < w.budget,
        i < w.budget,
        w.depth < MAX_DEPTH,
        fetch_ends(w.b, m, i, w.timed, polled, m1, r),
    ensures
        r is Done ==> flat_ends(w, n, have, used + polled, m1, rows, false),
        r is Busy ==> flat_ends(
            w,
            n,
            have,
            used + polled,
            m1,
            rows.push(loading_row(w.depth + 1)),
            true,
        ),
{
    reveal(flat_reaches);
    reveal(flat_ends);
    reveal(fetch_ends);
    reveal_with_fuel(flat_children, 1);
    assert(rows + Seq::<RowV>::empty() =~= rows);
    assert(rows + seq![loading_row(w.depth + 1)] =~= rows.push(loading_row(w.depth + 1)));
    assert forall|left: nat| !(r is Busy) || left == 0 implies flat_after(
        w.b,
        n,
        w.depth,
        w.budget,
        w.path,
        have,
        w.timed,
        used,
        polled + left,
    ) == #[trigger] flat_after(
        w.b,
        n,
        w.depth,
        w.budget,
        w.path,
        have,
        w.timed,
        used + polled,
        left,
    ) && fetch(w.b, m, i, patience_of(w.timed, polled + left)) == (
        m1,
        r,
        patience_of(w.timed, left),
    ) by {
        assert(fetch_after(w.b, m, i, w.timed, polled, left) == (
            m1,
            r,
            patience_of(w.timed, left),
        ));
    }
}

proof fn lemma_flat_children_step(
    w: WalkV,
    m: NodeV,
    i: int,
    have: int,
    patience: Option<nat>,
    m1: NodeV,
    left: Option<nat>,
    f: FlatV,
)
    requires
        have < w.budget,
        i < w.budget,
        w.depth < MAX_DEPTH,
        fetch(w.b, m, i, patience) == (m1, FetchV::Ready, left),
        flat(
            w.b,
            m1.children[i],
            w.depth + 1,
            w.budget,
            w.path.push(i as usize),
            have,
            left,
        ) == f,
    ensures
        ({
            let m2 = NodeV { children: m1.children.update(i, f.node), ..m1 };
            flat_children(w.b, m, w.depth, w.budget, w.path, i, have, patience) == if f.cut_short {
                FlatV { node: m2, ..f }
            } else {
                prepend(
                    f.rows,
                    flat_children(
                        w.b,
                        m2,
                        w.depth,
                        w.budget,
                        w.path,
                        i + 1,
                        have + f.rows.len(),
                        f.patience,
                    ),
                )
            }
        }),
{
    reveal_with_fuel(flat, 1);
    reveal_with_fuel(flat_children, 1);
}

proof fn lemma_flat_reaches_at(
    w: WalkV,
    n: NodeV,
    have: int,
    used: nat,
    m: NodeV,
    rows: Seq<RowV>,
    i: int,
    left: nat,
)
    requires
        flat_reaches(w, n, have, used, m, rows, i),
    ensures
        flat(w.b, n, w.depth, w.budget, w.path, have, patience_of(w.timed, used + left)) == prepend(
            rows,
            flat_children(
                w.b,
                m,
                w.depth,
                w.budget,
                w.path,
                i,
                have + rows.len(),
                patience_of(w.timed, left),
            ),
        ),
{
    reveal(flat_reaches);
    assert(flat_after(w.b, n, w.depth, w.budget, w.path, have, w.timed, used, left) == flat(
        w.b,
        n,
        w.depth,
        w.budget,
        w.path,
        have,
        patience_of(w.timed, used + left),
    ));
}

proof fn lemma_flat_ends_at(
    w: WalkV,
    n: NodeV,
    have: int,
    used: nat,
    m: NodeV,
    rows: Seq<RowV>,
    cut_short: bool,
    left: nat,
)
    requires
        flat_ends(w, n, have, used, m, rows, cut_short),
        !cut_short || left == 0,
    ensures
        flat(w.b, n, w.depth, w.budget, w.path, have, patience_of(w.timed, used + left)) == (FlatV {
            node: m,
            rows,
            cut_short,
            patience: patience_of(w.timed, left),
        }),
{
    reveal(flat_ends);
    assert(flat_after(w.b, n, w.depth, w.budget, w.path, have, w.timed, used, left) == flat(
        w.b,
        n,
        w.depth,
        w.budget,
        w.path,
        have,
        patience_of(w.timed, used + left),
    ));
}

proof fn lemma_fetch_ends_at(
    b: Seq<u8>,
    n: NodeV,
    i: int,
    timed: bool,
    used: nat,
    m: NodeV,
    r: FetchV,
    left: nat,
)
    requires
        fetch_ends(b, n, i, timed, used, m, r),
        !(r is Busy) || left == 0,
    ensures
        fetch(b, n, i, patience_of(timed, used + left)) == (m, r, patience_of(timed, left)),
{
    reveal(fetch_ends);
    assert(fetch_after(b, n, i, timed, used, left) == fetch(
        b,
        n,
        i,
        patience_of(timed, used + left),
    ));
}

proof fn lemma_flat_child_at(
    w: WalkV,
    n: NodeV,
    have: int,
    used: nat,
    m: NodeV,
    rows: Seq<RowV>,
    i: int,
    polled: nat,
    m1: NodeV,
    sub_used: nat,
    kid: NodeV,
    sub: Seq<RowV>,
    cut_short: bool,
    left: nat,
)
    requires
        flat_reaches(w, n, have, used, m, rows, i),
        have + rows.len() < w.budget,
        i < w.budget,
        w.depth < MAX_DEPTH,
        fetch_ends(w.b, m, i, w.timed, polled, m1, FetchV::Ready),
        flat_ends(
            WalkV { depth: w.depth + 1, path: w.path.push(i as usize), ..w },
            m1.children[i],
            have + rows.len(),
            sub_used,
            kid,
            sub,
            cut_short,
        ),
        !cut_short || left == 0,
    ensures
        ({
            let m2 = NodeV { children: m1.children.update(i, kid), ..m1 };
            let all = used + polled + sub_used;
            flat(w.b, n, w.depth, w.budget, w.path, have, patience_of(w.timed, all + left))
                == if cut_short {
                FlatV {
                    node: m2,
                    rows: rows + sub,
                    cut_short: true,
                    patience: patience_of(w.timed, left),
                }
            } else {
                prepend(
                    rows + sub,
                    flat_children(
                        w.b,
                        m2,
                        w.depth,
                        w.budget,
                        w.path,
                        i + 1,
                        have + (rows + sub).len(),
                        patience_of(w.timed, left),
                    ),
                )
            }
        }),
{
    let m2 = NodeV { children: m1.children.update(i, kid), ..m1 };
    let more = polled + sub_used + left;
    let f = FlatV { node: kid, rows: sub, cut_short, patience: patience_of(w.timed, left) };
    lemma_flat_reaches_at(w, n, have, used, m, rows, i, more);
    lemma_fetch_ends_at(w.b, m, i, w.timed, polled, m1, FetchV::Ready, sub_used + left);
    lemma_flat_ends_at(
        WalkV { depth: w.depth + 1, path: w.path.push(i as usize), ..w },
        m1.children[i],
        have + rows.len(),
        sub_used,
        kid,
        sub,
        cut_short,
        left,
    );
    lemma_flat_children_step(
        w,
        m,
        i,
        have + rows.len(),
        patience_of(w.timed, more),
        m1,
        patience_of(w.timed, sub_used + left),
        f,
    );
    let rest = flat_children(
        w.b,
        m2,
        w.depth,
        w.budget,
        w.path,
        i + 1,
        have + (rows + sub).len(),
        patience_of(w.timed, left),
    );
    assert(rows + (sub + rest.rows) =~= (rows + sub) + rest.rows);
    assert(used + more == used + polled + sub_used + left);
}

/// One child is behind us, or was cut short.
proof fn lemma_flat_child(
    w: WalkV,
    n: NodeV,
    have: int,
    used: nat,
    m: NodeV,
    rows: Seq<RowV>,
    i: int,
    polled: nat,
    m1: NodeV,
    sub_used: nat,
    kid: NodeV,
    sub: Seq<RowV>,
    cut_short: bool,
)
    requires
        flat_reaches(w, n, have, used, m, rows, i),
        have + rows.len() < w.budget,
        i < w.budget,
        w.depth < MAX_DEPTH,
        fetch_ends(w.b, m, i, w.timed, polled, m1, FetchV::Ready),
        flat_ends(
            WalkV { depth: w.depth + 1, path: w.path.push(i as usize), ..w },
            m1.children[i],
            have + rows.len(),
            sub_used,
            kid,
            sub,
            cut_short,
        ),
    ensures
        ({
            let m2 = NodeV { children: m1.children.update(i, kid), ..m1 };
            let all = used + polled + sub_used;
            if cut_short {
                flat_ends(w, n, have, all, m2, rows + sub, true)
            } else {
                flat_reaches(w, n, have, all, m2, rows + sub, i + 1)
            }
        }),
{
    reveal(flat_reaches);
    reveal(flat_ends);
    let all = used + polled + sub_used;
    assert forall|left: nat| !cut_short || left == 0 implies #[trigger] flat_after(
        w.b,
        n,
        w.depth,
        w.budget,
        w.path,
        have,
        w.timed,
        all,
        left,
    ) == if cut_short {
        FlatV {
            node: NodeV { children: m1.children.update(i, kid), ..m1 },
            rows: rows + sub,
            cut_short: true,
            patience: patience_of(w.timed, left),
        }
    } else {
        prepend(
            rows + sub,
            flat_children(
                w.b,
                NodeV { children: m1.children.update(i, kid), ..m1 },
                w.depth,
                w.budget,
                w.path,
                i + 1,
                have + (rows + sub).len(),
                patience_of(w.timed, left),
            ),
        )
    } by {
        lemma_flat_child_at(
            w,
            n,
            have,
            used,
            m,
            rows,
            i,
            polled,
            m1,
            sub_used,
            kid,
            sub,
            cut_short,
            left,
        );
    }
}

/// The walk behind [`flatten`]. The count handed back is how many times the
/// clock was found short of the deadline; it determines the outcome.
fn flatten_counted(
    node: &mut Node,
    b: &[u8],
    depth: usize,
    budget: usize,
    out: &mut Vec<Row>,
    path: &mut Vec<usize>,
    deadline: Option<Instant>,
    incomplete: &mut bool,
) -> (used: Ghost<nat>)
    requires
        old(node).wf(b@),
        !*old(incomplete),
    ensures
        final(node).wf(b@),
        final(node).jsonl == old(node).jsonl,
        final(path)@ == old(path)@,
        old(out)@.len() < budget ==> old(out)@.len() < final(out)@.len() <= budget,
        old(out)@.len() >= budget ==> old(out)@.len() == final(out)@.len(),
        row_views(final(out)@) == row_views(old(out)@) + row_views(final(out)@).skip(
            old(out)@.len() as int,
        ),
        flat_ends(
            WalkV {
                b: b@,
                depth: depth as int,
                budget: budget as int,
                path: old(path)@,
                timed: deadline is Some,
            },
            old(node).model(b@),
            old(out)@.len() as int,
            used@,
            final(node).model(b@),
            row_views(final(out)@).skip(old(out)@.len() as int),
            *final(incomplete),
        ),
    decreases
            if depth < MAX_DEPTH {
                MAX_DEPTH - depth
            } else {
                0
            },
{
    let ghost n0 = node.model(b@);
    let ghost out0 = row_views(out@);
    let ghost have0 = out@.len() as int;
    let ghost w = WalkV {
        b: b@,
        depth: depth as int,
        budget: budget as int,
        path: path@,
        timed: deadline is Some,
    };
    if out.len() >= budget {
        proof {
            assert(out0.skip(have0) =~= Seq::empty());
            assert(out0 =~= out0 + Seq::empty());
            lemma_flat_leaf(w, n0, have0);
        }
        return Ghost(0);
    }
    out.push(
        Row {
            depth,
            label: node.label.clone(),
            value: node.preview(b),
            kind: node.kind,
            is_index: node.is_index,
            has_children: node.has_children,
            expanded: node.expanded,
            path: path.clone(),
            loading: false,
        },
    );
    let ghost mut rows: Seq<RowV> = seq![node_row(b@, n0, depth as int, w.path)];
    proof {
        assert(row_views(out@) =~= out0 + rows);
        assert((out0 + rows).skip(have0) =~= rows);
    }
    if !(depth < MAX_DEPTH && node.expanded && node.is_container()) {
        proof {
            lemma_flat_leaf(w, n0, have0);
        }
        return Ghost(0);
    }
    let mut i: usize = 0;
    let ghost mut polls: nat = 0;
    proof {
        lemma_flat_start(w, n0, have0);
    }
    while out.len() < budget
        invariant
            n0 == old(node).model(b@),
            out0 == row_views(old(out)@),
            have0 == old(out)@.len(),
            w == (WalkV {
                b: b@,
                depth: depth as int,
                budget: budget as int,
                path: old(path)@,
                timed: deadline is Some,
            }),
            node.wf(b@),
            node.jsonl == n0.jsonl,
            depth < MAX_DEPTH,
            path@ == w.path,
            i < out@.len() <= budget,
            have0 < out@.len(),
            !*incomplete,
            row_views(out@) == out0 + rows,
            out@.len() == have0 + rows.len(),
            flat_reaches(w, n0, have0, polls, node.model(b@), rows, i as int),
        decreases budget - out@.len(),
    {
        let ghost n = node.model(b@);
        let (fetched, polled) = node.fetch_child(b, i, deadline);
        let ghost m = node.model(b@);
        proof {
            lemma_flat_fetch(
                w,
                n0,
                have0,
                polls,
                n,
                rows,
                i as int,
                polled@,
                m,
                fetched.model(),
            );
        }
        match fetched {
            EnsureChild::Ready => {},
            EnsureChild::Done => {
                // level fully enumerated
                assert((out0 + rows).skip(have0) =~= rows);
                return Ghost(polls + polled@);
            },
            EnsureChild::Busy => {
                // A skip in flight: paint now, resume next frame. The placeholder
                // stands at the spot the next child will fill, indented to the
                // child level.
                *incomplete = true;
                let ghost out1 = out@;
                out.push(
                    Row {
                        depth: depth + 1,
                        label: String::new(),
                        value: String::new(),
                        kind: Kind::Null,
                        is_index: false,
                        has_children: false,
                        expanded: false,
                        path: Vec::new(),
                        loading: true,
                    },
                );
                proof {
                    let r = loading_row(depth + 1);
                    let last = out@.last()@;
                    assert(last.label =~= r.label && last.value =~= r.value && last.path =~= r.path);
                    assert(row_views(out@) =~= row_views(out1).push(r));
                    assert(row_views(out@) =~= out0 + rows.push(r));
                    assert((out0 + rows.push(r)).skip(have0) =~= rows.push(r));
                }
                return Ghost(polls + polled@);
            },
        }
        path.push(i);
        let ghost out1 = row_views(out@);
        assert(!m.children[i as int].jsonl && node_wf(b@, m.children[i as int]));
        let used = flatten_counted(
            &mut node.children[i],
            b,
            depth + 1,
            budget,
            out,
            path,
            deadline,
            incomplete,
        );
        path.pop();
        proof {
            let m2 = node.model(b@);
            let kid = m2.children[i as int];
            let sub = row_views(out@).skip(out1.len() as int);
            assert(path@ =~= w.path);
            assert(m2.children =~= m.children.update(i as int, kid));
            lemma_replace_child_wf(b@, m, i as int, kid);
            assert(row_views(out@) =~= out0 + (rows + sub));
            assert((out0 + (rows + sub)).skip(have0) =~= rows + sub);
            lemma_flat_child(
                w,
                n0,
                have0,
                polls,
                n,
                rows,
                i as int,
                polled@,
                m,
                used@,
                kid,
                sub,
                *incomplete,
            );
            polls = polls + polled@ + used@;
            rows = rows + sub;
        }
        if *incomplete {
            return Ghost(polls);
        }
        i += 1;
    }
    proof {
        assert((out0 + rows).skip(have0) =~= rows);
        lemma_flat_end(w, n0, have0, polls, node.model(b@), rows, i as int);
    }
    Ghost(polls)
}

/// Windowed flatten: walk the expanded tree depth first, scanning children on
/// demand, and stop once `budget` rows exist. With a deadline it is also
/// cooperative: if reaching the next row means skipping a huge value past the
/// frame's time budget, it sets `*incomplete` and returns early, so that the
/// caller can paint what is flattened and resume next frame (the skip keeps its
/// place on the cursor). Without a deadline it drains eagerly, as jumps need,
/// which must reach a target row now.
///
/// With a deadline the outcome depends on the clock, but only through how often
/// it was found short of the deadline before it was found past it.
pub fn flatten(
    node: &mut Node,
    b: &[u8],
    depth: usize,
    budget: usize,
    out: &mut Vec<Row>,
    path: &mut Vec<usize>,
    deadline: Option<Instant>,
    incomplete: &mut bool,
)
    requires
        old(node).wf(b@),
    ensures
        final(node).wf(b@),
        final(node).jsonl == old(node).jsonl,
        final(path)@ == old(path)@,
        *old(incomplete) ==> *final(node) == *old(node) && *final(out) == *old(out),
        *old(incomplete) ==> *final(incomplete),
        !*old(incomplete) ==> exists|patience: Option<nat>|
            {
                &&& patience is Some <==> deadline is Some
                &&& flat_outcome(
                    #[trigger] flat(
                        b@,
                        old(node).model(b@),
                        depth as int,
                        budget as int,
                        old(path)@,
                        old(out)@.len() as int,
                        patience,
                    ),
                    row_views(old(out)@),
                    final(node).model(b@),
                    row_views(final(out)@),
                    *final(incomplete),
                )
            },
        deadline is None ==> *final(incomplete) == *old(incomplete),
{
    if *incomplete {
        return;
    }
    let ghost n0 = node.model(b@);
    let ghost have = out@.len() as int;
    let used = flatten_counted(node, b, depth, budget, out, path, deadline, incomplete);
    proof {
        let timed = deadline is Some;
        let w = WalkV {
            b: b@,
            depth: depth as int,
            budget: budget as int,
            path: old(path)@,
            timed,
        };
        lemma_flat_ends_at(
            w,
            n0,
            have,
            used@,
            node.model(b@),
            row_views(out@).skip(have),
            *incomplete,
            0,
        );
        lemma_flat_eager(b@, n0, depth as int, budget as int, old(path)@, have);
        assert(flat_outcome(
            flat(
                b@,
                n0,
                depth as int,
                budget as int,
                old(path)@,
                have,
                patience_of(timed, used@ + 0),
            ),
            row_views(old(out)@),
            node.model(b@),
            row_views(out@),
            *incomplete,
        ));
    }
}

/// What a flattening `f` makes of the rows that were there before.
pub open spec fn flat_outcome(
    f: FlatV,
    before: Seq<RowV>,
    node: NodeV,
    rows: Seq<RowV>,
    incomplete: bool,
) -> bool {
    &&& node == f.node
    &&& rows == before + f.rows
    &&& incomplete == f.cut_short
}

pub proof fn lemma_flat_eager(
    b: Seq<u8>,
    n: NodeV,
    depth: int,
    budget: int,
    path: Seq<usize>,
    have: int,
)
    ensures
        !flat(b, n, depth, budget, path, have, None).cut_short,
        flat(b, n, depth, budget, path, have, None).patience is None,
        have < budget ==> flat(b, n, depth, budget, path, have, None).rows.len() >= 1,
    decreases MAX_DEPTH - depth, 1int, 0int,
{
    reveal_with_fuel(flat, 1);
    reveal_with_fuel(flat_children, 1);
    if have < budget && depth < MAX_DEPTH && n.expanded && n.kind.is_container() {
        lemma_flat_children_eager(b, n, depth, budget, path, 0, have + 1);
    }
}

proof fn lemma_flat_children_eager(
    b: Seq<u8>,
    n: NodeV,
    depth: int,
    budget: int,
    path: Seq<usize>,
    i: int,
    have: int,
)
    ensures
        !flat_children(b, n, depth, budget, path, i, have, None).cut_short,
        flat_children(b, n, depth, budget, path, i, have, None).patience is None,
    decreases MAX_DEPTH - depth, 0int, budget - i,
{
    reveal_with_fuel(flat, 1);
    reveal_with_fuel(flat_children, 1);
    if have < budget && i < budget && depth < MAX_DEPTH {
        let m = scanned_to(b, n, i);
        if i < m.children.len() {
            let f = flat(b, m.children[i], depth + 1, budget, path.push(i as usize), have, None);
            lemma_flat_eager(b, m.children[i], depth + 1, budget, path.push(i as usize), have);
            let m1 = NodeV { children: m.children.update(i, f.node), ..m };
            lemma_flat_children_eager(
                b,
                m1,
                depth,
                budget,
                path,
                i + 1,
                have + f.rows.len(),
            );
        }
    }
}

// ---------------------------------------------------------------------------
// Laws
// ---------------------------------------------------------------------------
/// A window never holds more rows than its budget, and at least the node's own
/// row where there is room for one.
pub proof fn law_rows_within_budget(
    b: Seq<u8>,
    n: NodeV,
    depth: int,
    budget: int,
    path: Seq<usize>,
    have: int,
    patience: Option<nat>,
)
    ensures
        ({
            let f = flat(b, n, depth, budget, path, have, patience);
            if have < budget {
                0 < f.rows.len() <= budget - have
            } else {
                f.rows.len() == 0
            }
        }),
    decreases MAX_DEPTH - depth, 1int, 0int,
{
    reveal_with_fuel(flat, 1);
    reveal_with_fuel(flat_children, 1);
    if have < budget && depth < MAX_DEPTH && n.expanded && n.kind.is_container() {
        lemma_child_rows_within_budget(b, n, depth, budget, path, 0, have + 1, patience);
    }
}

proof fn lemma_child_rows_within_budget(
    b: Seq<u8>,
    n: NodeV,
    depth: int,
    budget: int,
    path: Seq<usize>,
    i: int,
    have: int,
    patience: Option<nat>,
)
    requires
        have <= budget,
    ensures
        flat_children(b, n, depth, budget, path, i, have, patience).rows.len() <= budget - have,
    decreases MAX_DEPTH - depth, 0int, budget - i,
{
    reveal_with_fuel(flat, 1);
    reveal_with_fuel(flat_children, 1);
    if have < budget && i < budget && depth < MAX_DEPTH {
        let (m, r, left) = fetch(b, n, i, patience);
        if r is Ready {
            let p = path.push(i as usize);
            let f = flat(b, m.children[i], depth + 1, budget, p, have, left);
            law_rows_within_budget(b, m.children[i], depth + 1, budget, p, have, left);
            if !f.cut_short {
                let m1 = NodeV { children: m.children.update(i, f.node), ..m };
                lemma_child_rows_within_budget(
                    b,
                    m1,
                    depth,
                    budget,
                    path,
                    i + 1,
                    have + f.rows.len(),
                    f.patience,
                );
            }
        }
    }
}

/// A smaller window shows the first rows of a larger one; and where it is not
/// full, the larger one shows nothing more.
pub proof fn law_window_is_prefix(
    b: Seq<u8>,
    n: NodeV,
    depth: int,
    budget: int,
    larger: int,
    path: Seq<usize>,
    have: int,
)
    requires
        0 <= have <= budget <= larger,
    ensures
        ({
            let f = flat(b, n, depth, budget, path, have, None);
            let g = flat(b, n, depth, larger, path, have, None);
            &&& f.rows.len() <= g.rows.len()
            &&& f.rows == g.rows.take(f.rows.len() as int)
            &&& have + f.rows.len() < budget ==> f == g
            &&& f.rows.len() == budget - have || f.rows.len() == g.rows.len()
        }),
    decreases MAX_DEPTH - depth, 1int, 0int,
{
    reveal_with_fuel(flat, 1);
    reveal_with_fuel(flat_children, 1);
    let f = flat(b, n, depth, budget, path, have, None);
    let g = flat(b, n, depth, larger, path, have, None);
    if have < budget {
        if depth < MAX_DEPTH && n.expanded && n.kind.is_container() {
            lemma_child_window_is_prefix(b, n, depth, budget, larger, path, 0, have + 1);
            lemma_child_rows_within_budget(b, n, depth, budget, path, 0, have + 1, None);
        }
        assert(f.rows =~= g.rows.take(f.rows.len() as int));
    } else {
        assert(f.rows =~= g.rows.take(0));
    }
}

proof fn lemma_child_window_is_prefix(
    b: Seq<u8>,
    n: NodeV,
    depth: int,
    budget: int,
    larger: int,
    path: Seq<usize>,
    i: int,
    have: int,
)
    requires
        0 <= i < have <= budget <= larger,
    ensures
        ({
            let f = flat_children(b, n, depth, budget, path, i, have, None);
            let g = flat_children(b, n, depth, larger, path, i, have, None);
            &&& f.rows.len() <= g.rows.len()
            &&& f.rows == g.rows.take(f.rows.len() as int)
            &&& have + f.rows.len() < budget ==> f == g
            &&& f.rows.len() == budget - have || f.rows.len() == g.rows.len()
        }),
    decreases MAX_DEPTH - depth, 0int, budget - i,
{
    reveal_with_fuel(flat, 1);
    reveal_with_fuel(flat_children, 1);
    let f = flat_children(b, n, depth, budget, path, i, have, None);
    let g = flat_children(b, n, depth, larger, path, i, have, None);
    if have < budget && depth < MAX_DEPTH {
        let m = scanned_to(b, n, i);
        if i < m.children.len() {
            let c = m.children[i];
            let p = path.push(i as usize);
            let fc = flat(b, c, depth + 1, budget, p, have, None);
            let gc = flat(b, c, depth + 1, larger, p, have, None);
            law_window_is_prefix(b, c, depth + 1, budget, larger, p, have);
            law_rows_within_budget(b, c, depth + 1, budget, p, have, None);
            lemma_flat_eager(b, c, depth + 1, budget, p, have);
            lemma_flat_eager(b, c, depth + 1, larger, p, have);
            let m1 = NodeV { children: m.children.update(i, fc.node), ..m };
            let have1 = have + fc.rows.len();
            if have1 < budget {
                lemma_child_window_is_prefix(b, m1, depth, budget, larger, path, i + 1, have1);
            } else {
                let rest = flat_children(b, m1, depth, budget, path, i + 1, have1, None);
                assert(rest.rows =~= Seq::empty());
                assert(f.rows =~= fc.rows);
            }
            assert(f.rows =~= g.rows.take(f.rows.len() as int));
        } else {
            assert(f.rows =~= g.rows.take(0));
        }
    } else {
        assert(f.rows =~= g.rows.take(0));
    }
}

/// Whether a row below `path` is that of its node in the tree `n`, which is at `path`
/// and `depth` levels in. The placeholder leads nowhere.
pub open spec fn row_leads(b: Seq<u8>, n: NodeV, depth: int, path: Seq<usize>, r: RowV) -> bool {
    if r.loading {
        r == loading_row(r.depth) && r.depth > depth
    } else {
        let rest = r.path.skip(path.len() as int);
        &&& path.len() <= r.path.len()
        &&& r.path.take(path.len() as int) == path
        &&& reachable(n, rest)
        &&& r == node_row(b, node_at(n, rest), depth + rest.len(), r.path)
    }
}

/// The node with its rows taken is the node, but for what was scanned below it.
pub open spec fn same_outside(n: NodeV, m: NodeV) -> bool {
    m == (NodeV { done: m.done, children: m.children, cursor: m.cursor, ..n })
}

/// Every row is that of the node its path leads to, in the tree as the flattening
/// leaves it.
pub proof fn law_rows_lead_to_nodes(
    b: Seq<u8>,
    n: NodeV,
    depth: int,
    budget: int,
    path: Seq<usize>,
    have: int,
    patience: Option<nat>,
)
    requires
        0 <= have,
        budget <= usize::MAX,
    ensures
        ({
            let f = flat(b, n, depth, budget, path, have, patience);
            &&& same_outside(n, f.node)
            &&& forall|i: int| 0 <= i < f.rows.len() ==> row_leads(
                b,
                f.node,
                depth,
                path,
                #[trigger] f.rows[i],
            )
        }),
    decreases MAX_DEPTH - depth, 1int, 0int,
{
    reveal_with_fuel(flat, 1);
    reveal_with_fuel(flat_children, 1);
    let f = flat(b, n, depth, budget, path, have, patience);
    if have < budget {
        let row = node_row(b, n, depth, path);
        let open = depth < MAX_DEPTH && n.expanded && n.kind.is_container();
        if open {
            lemma_child_rows_lead(b, n, depth, budget, path, 0, have + 1, patience);
        }
        assert forall|i: int| 0 <= i < f.rows.len() implies row_leads(
            b,
            f.node,
            depth,
            path,
            #[trigger] f.rows[i],
        ) by {
            if i == 0 {
                assert(f.rows[0] == row);
                assert(path.take(path.len() as int) =~= path);
                assert(path.skip(path.len() as int) =~= Seq::<usize>::empty());
            } else {
                let g = flat_children(b, n, depth, budget, path, 0, have + 1, patience);
                assert(f.rows[i] == g.rows[i - 1]);
            }
        }
    }
}

pub proof fn lemma_fetch_keeps(b: Seq<u8>, n: NodeV, i: int, patience: Option<nat>)
    ensures
        same_but_scanned(n, fetch(b, n, i, patience).0),
        fetch(b, n, i, patience).1 is Ready ==> i < fetch(b, n, i, patience).0.children.len(),
{
    match patience {
        None => lemma_scanned_to_keeps(b, n, i),
        Some(p) => lemma_fetched_keeps(b, n, i, p),
    }
}

pub proof fn lemma_child_rows_lead(
    b: Seq<u8>,
    n: NodeV,
    depth: int,
    budget: int,
    path: Seq<usize>,
    i: int,
    have: int,
    patience: Option<nat>,
)
    requires
        0 <= i,
        0 <= have,
        budget <= usize::MAX,
    ensures
        ({
            let g = flat_children(b, n, depth, budget, path, i, have, patience);
            &&& same_outside(n, g.node)
            &&& n.children.len() <= g.node.children.len()
            &&& forall|k: int|
                0 <= k < i && k < n.children.len() ==> #[trigger] g.node.children[k]
                    == n.children[k]
            &&& forall|k: int| 0 <= k < g.rows.len() ==> row_leads(
                b,
                g.node,
                depth,
                path,
                #[trigger] g.rows[k],
            )
        }),
    decreases MAX_DEPTH - depth, 0int, budget - i,
{
    reveal_with_fuel(flat, 1);
    reveal_with_fuel(flat_children, 1);
    let g = flat_children(b, n, depth, budget, path, i, have, patience);
    if have < budget && i < budget && depth < MAX_DEPTH {
        let (m, r, left) = fetch(b, n, i, patience);
        lemma_fetch_keeps(b, n, i, patience);
        assert forall|k: int| 0 <= k < n.children.len() implies #[trigger] m.children[k]
            == n.children[k] by {
            assert(m.children.take(n.children.len() as int)[k] == m.children[k]);
        }
        if r is Ready {
            let p = path.push(i as usize);
            let c = m.children[i];
            let f = flat(b, c, depth + 1, budget, p, have, left);
            law_rows_lead_to_nodes(b, c, depth + 1, budget, p, have, left);
            let m1 = NodeV { children: m.children.update(i, f.node), ..m };
            if !f.cut_short {
                lemma_child_rows_lead(
                    b,
                    m1,
                    depth,
                    budget,
                    path,
                    i + 1,
                    have + f.rows.len(),
                    f.patience,
                );
            }
            assert(g.node.children[i] == f.node);
            assert forall|k: int| 0 <= k < g.rows.len() implies row_leads(
                b,
                g.node,
                depth,
                path,
                #[trigger] g.rows[k],
            ) by {
                if k < f.rows.len() {
                    let row = f.rows[k];
                    assert(g.rows[k] == row);
                    assert(row_leads(b, f.node, depth + 1, p, row));
                    lemma_row_leads_up(b, g.node, depth, path, i, f.node, row);
                } else {
                    let h = flat_children(
                        b,
                        m1,
                        depth,
                        budget,
                        path,
                        i + 1,
                        have + f.rows.len(),
                        f.patience,
                    );
                    assert(g.rows[k] == h.rows[k - f.rows.len()]);
                }
            }
        }
    }
}

proof fn lemma_row_leads_up(
    b: Seq<u8>,
    n: NodeV,
    depth: int,
    path: Seq<usize>,
    i: int,
    c: NodeV,
    r: RowV,
)
    requires
        0 <= i < n.children.len(),
        i <= usize::MAX,
        n.children[i] == c,
        row_leads(b, c, depth + 1, path.push(i as usize), r),
    ensures
        row_leads(b, n, depth, path, r),
{
    if !r.loading {
        let p = path.push(i as usize);
        let rest = r.path.skip(path.len() as int);
        assert(r.path.take(p.len() as int) == p);
        assert(r.path.take(path.len() as int) =~= r.path.take(p.len() as int).take(
            path.len() as int,
        ));
        assert(p.take(path.len() as int) =~= path);
        assert(rest[0] == r.path.take(p.len() as int)[path.len() as int]);
        assert(rest.skip(1) =~= r.path.skip(p.len() as int));
    }
}

/// Flattening loses nothing of the tree.
pub proof fn law_flatten_keeps_tree(
    b: Seq<u8>,
    n: NodeV,
    depth: int,
    budget: int,
    path: Seq<usize>,
    have: int,
    patience: Option<nat>,
)
    ensures
        grown(n, flat(b, n, depth, budget, path, have, patience).node),
    decreases MAX_DEPTH - depth, 1int, 0int,
{
    reveal_with_fuel(flat, 1);
    reveal_with_fuel(flat_children, 1);
    lemma_grown_self(n);
    if have < budget && depth < MAX_DEPTH && n.expanded && n.kind.is_container() {
        lemma_flatten_children_keeps_tree(b, n, depth, budget, path, 0, have + 1, patience);
    }
}

proof fn lemma_flatten_children_keeps_tree(
    b: Seq<u8>,
    n: NodeV,
    depth: int,
    budget: int,
    path: Seq<usize>,
    i: int,
    have: int,
    patience: Option<nat>,
)
    requires
        0 <= i,
    ensures
        grown(n, flat_children(b, n, depth, budget, path, i, have, patience).node),
    decreases MAX_DEPTH - depth, 0int, budget - i,
{
    reveal_with_fuel(flat, 1);
    reveal_with_fuel(flat_children, 1);
    lemma_grown_self(n);
    if have < budget && i < budget && depth < MAX_DEPTH {
        let (m, r, left) = fetch(b, n, i, patience);
        lemma_fetch_keeps(b, n, i, patience);
        lemma_grown_scanned(n, m);
        if r is Ready {
            let p = path.push(i as usize);
            let f = flat(b, m.children[i], depth + 1, budget, p, have, left);
            law_flatten_keeps_tree(b, m.children[i], depth + 1, budget, p, have, left);
            lemma_grown_child(m, i, f.node);
            let m1 = NodeV { children: m.children.update(i, f.node), ..m };
            lemma_grown_step(n, m, m1);
            if !f.cut_short {
                lemma_flatten_children_keeps_tree(
                    b,
                    m1,
                    depth,
                    budget,
                    path,
                    i + 1,
                    have + f.rows.len(),
                    f.patience,
                );
                lemma_grown_step(
                    n,
                    m1,
                    flat_children(
                        b,
                        m1,
                        depth,
                        budget,
                        path,
                        i + 1,
                        have + f.rows.len(),
                        f.patience,
                    ).node,
                );
            }
        }
    }
}

} // verus!
