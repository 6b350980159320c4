//! Where a `goto` path leads: which node it comes to, told by the labels and numbers of
//! the document's own values.

use crate::paths::{
    child_by_key, child_by_segment, climbed, key_hits, key_test, lemma_grafted_wf,
    lemma_node_at_wf, lemma_reachable_prefix, lemma_reachable_push, resolved, resolved_climbing,
    GOTO_SCAN_CAP, KeyTest, SegV,
};
use crate::reopening::{all_children, blank};
use crate::search::{glob_regex, regex_error, regex_matches};
use crate::showing::lemma_scanned_wf;
use crate::tree::{
    grafted, lemma_scanned_to_keeps, lemma_toggled_wf, node_at, node_wf, opened, reachable,
    scanned_to, NodeV,
};
use crate::unfolding::{ahead, fresh_nodes, lemma_scan, to_scan};
use vstd::prelude::*;

verus! {

/// The children that a node has, those that are still to be scanned behind the others.
pub open spec fn kids(b: Seq<u8>, n: NodeV) -> Seq<NodeV> {
    opened(n).children + fresh_nodes(b, ahead(b, opened(n)))
}

/// Whether a label is what a key asks for: the same text, or for a key with `*` or `?` in
/// it, a text that matches it as a whole.
pub open spec fn label_fits(key: Seq<char>, label: Seq<char>) -> bool {
    if forall|i: int| 0 <= i < key.len() ==> (#[trigger] key[i]) != '*' && key[i] != '?' {
        label == key
    } else {
        let src = seq!['^'] + glob_regex(key) + seq!['$'];
        regex_error(src) is None && regex_matches(src, label)
    }
}

/// Whether number `i` is what a segment names among those nodes: the node with that number,
/// or the first node, of so many as are looked at, whose label fits the key.
pub open spec fn named(ks: Seq<NodeV>, seg: SegV, i: int) -> bool {
    &&& 0 <= i < ks.len()
    &&& match seg {
        SegV::Index(j) => i == j,
        SegV::Key(key) => {
            &&& i < 100_000
            &&& label_fits(key, ks[i].label)
            &&& forall|j: int| 0 <= j < i ==> !label_fits(key, (#[trigger] ks[j]).label)
        },
    }
}

/// Whether the steps go down from a node to where the segments lead: as many as there are
/// segments, each to the child that its segment names.
pub open spec fn goes(b: Seq<u8>, n: NodeV, segs: Seq<SegV>, steps: Seq<usize>) -> bool
    decreases segs.len(),
{
    &&& steps.len() == segs.len()
    &&& segs.len() > 0 ==> {
        let ks = kids(b, n);
        &&& named(ks, segs[0], steps[0] as int)
        &&& goes(b, ks[steps[0] as int], segs.skip(1), steps.skip(1))
    }
}

/// Whether the segments lead anywhere from a node.
pub open spec fn leads_on(b: Seq<u8>, n: NodeV, segs: Seq<SegV>) -> bool {
    exists|steps: Seq<usize>| goes(b, n, segs, steps)
}

proof fn lemma_key_test(k: Seq<char>, label: Seq<char>)
    ensures
        label_fits(k, label) <==> (key_test(k) matches Some(t) && key_hits(t, label)),
{
    reveal_strlit("^");
    reveal_strlit("$");
    assert("^"@ =~= seq!['^']);
    assert("$"@ =~= seq!['$']);
    if forall|i: int| 0 <= i < k.len() ==> (#[trigger] k[i]) != '*' && k[i] != '?' {
        assert(!k.contains('*') && !k.contains('?'));
    } else {
        let i = choose|i: int| 0 <= i < k.len() && ((#[trigger] k[i]) == '*' || k[i] == '?');
        assert(k.contains(k[i]));
    }
}

/// A scan shows more of the same children.
pub proof fn lemma_scan_keeps_kids(b: Seq<u8>, n: NodeV, i: int)
    requires
        node_wf(b, n),
        n.kind.is_container(),
        n.has_children,
        n.expanded,
    ensures
        ({
            let m = scanned_to(b, n, i);
            &&& node_wf(b, m)
            &&& m.expanded && m.has_children && m.kind == n.kind
            &&& m.label == n.label && m.jsonl == n.jsonl
            &&& kids(b, m) == kids(b, n)
            &&& n.children.len() <= m.children.len() <= kids(b, n).len()
            &&& i < m.children.len() <==> i < kids(b, n).len()
            &&& forall|j: int| 0 <= j < m.children.len() ==> #[trigger] m.children[j] == kids(b, n)[j]
        }),
{
    let m = scanned_to(b, n, i);
    lemma_scanned_wf(b, n, i);
    lemma_scanned_to_keeps(b, n, i);
    if n.cursor is Some {
        lemma_scan(b, n, i);
        let a = ahead(b, n);
        let j = to_scan(b, n, i);
        assert(kids(b, m) =~= kids(b, n));
    } else {
        assert(ahead(b, n) == Seq::<crate::scanner::ChildV>::empty());
        assert(ahead(b, m) == Seq::<crate::scanner::ChildV>::empty());
        assert(m.children == n.children);
    }
}

proof fn lemma_child_by_key(b: Seq<u8>, n: NodeV, t: KeyTest, i: int)
    requires
        node_wf(b, n),
        n.kind.is_container(),
        n.has_children,
        n.expanded,
        0 <= i,
        forall|j: int| 0 <= j < i && j < kids(b, n).len() ==> !key_hits(t, (#[trigger] kids(b, n)[j]).label),
    ensures
        ({
            let (m, found) = child_by_key(b, n, t, i);
            let ks = kids(b, n);
            &&& node_wf(b, m)
            &&& m.label == n.label && m.jsonl == n.jsonl
            &&& kids(b, m) == ks
            &&& n.children.len() <= m.children.len()
            &&& forall|j: int| 0 <= j < m.children.len() ==> j < ks.len() && #[trigger] m.children[j] == ks[j]
            &&& match found {
                Some(k) => {
                    &&& 0 <= k < m.children.len()
                    &&& k < ks.len() && k < 100_000
                    &&& key_hits(t, ks[k].label)
                    &&& forall|j: int| 0 <= j < k ==> !key_hits(t, (#[trigger] ks[j]).label)
                },
                None => forall|j: int|
                    0 <= j < ks.len() && j < 100_000 ==> !key_hits(t, (#[trigger] ks[j]).label),
            }
        }),
    decreases GOTO_SCAN_CAP - i,
{
    let ks = kids(b, n);
    if i < GOTO_SCAN_CAP {
        let m = scanned_to(b, n, i);
        lemma_scan_keeps_kids(b, n, i);
        if i < m.children.len() && !key_hits(t, m.children[i].label) {
            lemma_child_by_key(b, m, t, i + 1);
        }
    } else {
        assert(opened(n) == n);
    }
}

/// A segment finds the child that it names, and nothing else.
proof fn lemma_child_by_segment(b: Seq<u8>, n: NodeV, seg: SegV)
    requires
        node_wf(b, n),
    ensures
        ({
            let (m, found) = child_by_segment(b, n, seg);
            let ks = kids(b, n);
            &&& node_wf(b, m)
            &&& m.label == n.label && m.jsonl == n.jsonl
            &&& kids(b, m) == ks
            &&& n.children.len() <= m.children.len()
            &&& forall|j: int| 0 <= j < m.children.len() ==> j < ks.len() && #[trigger] m.children[j] == ks[j]
            &&& forall|j: int| 0 <= j < n.children.len() ==> m.children[j] == #[trigger] n.children[j]
            &&& match found {
                Some(k) => 0 <= k < m.children.len() && k <= usize::MAX && named(ks, seg, k)
                    && forall|j: int| #[trigger] named(ks, seg, j) ==> j == k,
                None => forall|j: int| !#[trigger] named(ks, seg, j),
            }
        }),
{
    let ks = kids(b, n);
    let (m, found) = child_by_segment(b, n, seg);
    if n.kind.is_container() && n.has_children {
        let o = opened(n);
        lemma_toggled_wf(b, n);
        assert(o.children == n.children);
        assert(opened(o) == o);
        assert(kids(b, o) == ks);
        match seg {
            SegV::Index(i) => {
                lemma_scan_keeps_kids(b, o, i as int);
            },
            SegV::Key(key) => {
                assert forall|label: Seq<char>| #[trigger]
                    label_fits(key, label) <==> (key_test(key) matches Some(t) && key_hits(
                        t,
                        label,
                    )) by {
                    lemma_key_test(key, label);
                }
                if let Some(t) = key_test(key) {
                    lemma_child_by_key(b, o, t, 0);
                    if let Some(k) = found {
                        assert forall|j: int| #[trigger] named(ks, seg, j) implies j == k by {
                            if j < k {
                                assert(!key_hits(t, ks[j].label));
                            } else if k < j {
                                assert(!label_fits(key, ks[k].label));
                            }
                        }
                        assert(named(ks, seg, k));
                    }
                } else {
                    lemma_scan_keeps_kids(b, o, -1);
                    assert(scanned_to(b, o, -1) == o);
                }
            },
        }
        assert forall|j: int| 0 <= j < n.children.len() implies m.children[j] == #[trigger] n.children[j] by {
            assert(ks[j] == o.children[j]);
        }
    } else {
        assert(opened(n) == n);
        assert(n.children.len() == 0 && n.cursor is None);
        assert(ks =~= Seq::empty());
    }
}

/// Two ways down by the same segments are one.
proof fn lemma_one_way(b: Seq<u8>, n: NodeV, segs: Seq<SegV>, x: Seq<usize>, y: Seq<usize>)
    requires
        goes(b, n, segs, x),
        goes(b, n, segs, y),
    ensures
        x == y,
    decreases segs.len(),
{
    if segs.len() > 0 {
        let ks = kids(b, n);
        if x[0] != y[0] {
            let (i, j) = if x[0] < y[0] {
                (x[0] as int, y[0] as int)
            } else {
                (y[0] as int, x[0] as int)
            };
            assert(named(ks, segs[0], i) && named(ks, segs[0], j));
            if let SegV::Key(key) = segs[0] {
                assert(!label_fits(key, ks[i].label));
            }
        }
        lemma_one_way(b, ks[x[0] as int], segs.skip(1), x.skip(1), y.skip(1));
        assert(x =~= seq![x[0]] + x.skip(1));
        assert(y =~= seq![y[0]] + y.skip(1));
    } else {
        assert(x =~= y);
    }
}

/// A node in whose place one with the same children is put leads on as before, and so does
/// every node above it.
proof fn lemma_graft_goes(
    b: Seq<u8>,
    n: NodeV,
    at: Seq<usize>,
    m: NodeV,
    segs: Seq<SegV>,
    steps: Seq<usize>,
)
    requires
        node_wf(b, n),
        reachable(n, at),
        kids(b, m) == kids(b, node_at(n, at)),
        m.label == node_at(n, at).label,
    ensures
        goes(b, grafted(n, at, m), segs, steps) == goes(b, n, segs, steps),
    decreases at.len(),
{
    if at.len() > 0 {
        let i = at[0] as int;
        let g = grafted(n, at, m);
        let c = grafted(n.children[i], at.skip(1), m);
        let ks = kids(b, n);
        assert(n.children.len() > 0);
        assert(opened(g).children =~= opened(n).children.update(i, c));
        assert(opened(g).cursor == opened(n).cursor);
        assert(kids(b, g) =~= ks.update(i, c));
        assert(ks[i] == n.children[i]);
        assert(c.label == n.children[i].label) by {
            reveal_with_fuel(grafted, 2);
            reveal_with_fuel(node_at, 2);
        }
        assert forall|seg: SegV, j: int| #[trigger] named(kids(b, g), seg, j) == named(ks, seg, j) by {
            assert forall|k: int| 0 <= k < ks.len() implies (#[trigger] kids(b, g)[k]).label == ks[k].label by {}
            if let SegV::Key(key) = seg {
                if named(ks, seg, j) {
                    assert forall|k: int| 0 <= k < j implies !label_fits(key, (#[trigger] kids(b, g)[k]).label) by {
                        assert(!label_fits(key, ks[k].label));
                    }
                }
                if named(kids(b, g), seg, j) {
                    assert forall|k: int| 0 <= k < j implies !label_fits(key, (#[trigger] ks[k]).label) by {
                        assert(!label_fits(key, kids(b, g)[k].label));
                    }
                }
            }
        }
        if segs.len() > 0 && steps.len() == segs.len() && steps[0] == i {
            lemma_graft_goes(b, n.children[i], at.skip(1), m, segs.skip(1), steps.skip(1));
        }
    }
}

/// And so does every other node of the tree.
proof fn lemma_graft_elsewhere(
    b: Seq<u8>,
    n: NodeV,
    at: Seq<usize>,
    m: NodeV,
    q: Seq<usize>,
    segs: Seq<SegV>,
    steps: Seq<usize>,
)
    requires
        node_wf(b, n),
        reachable(n, at),
        reachable(n, q),
        kids(b, m) == kids(b, node_at(n, at)),
        m.label == node_at(n, at).label,
        node_at(n, at).children.len() <= m.children.len(),
        forall|j: int|
            0 <= j < node_at(n, at).children.len() ==> m.children[j] == #[trigger] node_at(
                n,
                at,
            ).children[j],
    ensures
        reachable(grafted(n, at, m), q),
        goes(b, node_at(grafted(n, at, m), q), segs, steps) == goes(b, node_at(n, q), segs, steps),
    decreases q.len(),
{
    if q.len() == 0 {
        lemma_graft_goes(b, n, at, m, segs, steps);
    } else if at.len() == 0 {
        assert(m.children[q[0] as int] == n.children[q[0] as int]);
    } else if q[0] == at[0] {
        lemma_graft_elsewhere(
            b,
            n.children[at[0] as int],
            at.skip(1),
            m,
            q.skip(1),
            segs,
            steps,
        );
    }
}

/// Whether every node of the tree `n` leads on in the tree `m` as it did.
#[verifier::opaque]
spec fn same_ways(b: Seq<u8>, n: NodeV, m: NodeV) -> bool {
    &&& forall|q: Seq<usize>| #[trigger] reachable(n, q) ==> reachable(m, q)
    &&& forall|q: Seq<usize>, gs: Seq<SegV>, steps: Seq<usize>|
        reachable(n, q) ==> #[trigger] goes(b, node_at(m, q), gs, steps) == goes(
            b,
            node_at(n, q),
            gs,
            steps,
        )
}

proof fn lemma_same_ways_step(b: Seq<u8>, n: NodeV, m: NodeV, l: NodeV)
    requires
        same_ways(b, n, m),
        same_ways(b, m, l),
    ensures
        same_ways(b, n, l),
{
    reveal(same_ways);
    assert forall|q: Seq<usize>, gs: Seq<SegV>, steps: Seq<usize>|
        reachable(n, q) implies #[trigger] goes(b, node_at(l, q), gs, steps) == goes(
        b,
        node_at(n, q),
        gs,
        steps,
    ) by {
        assert(reachable(m, q));
        assert(goes(b, node_at(m, q), gs, steps) == goes(b, node_at(n, q), gs, steps));
    }
}

proof fn lemma_same_ways(b: Seq<u8>, n: NodeV, m: NodeV, q: Seq<usize>, segs: Seq<SegV>)
    requires
        same_ways(b, n, m),
        reachable(n, q),
    ensures
        reachable(m, q),
        leads_on(b, node_at(m, q), segs) == leads_on(b, node_at(n, q), segs),
        forall|steps: Seq<usize>| #[trigger]
            goes(b, node_at(m, q), segs, steps) == goes(b, node_at(n, q), segs, steps),
{
    reveal(same_ways);
    if leads_on(b, node_at(m, q), segs) {
        let steps = choose|steps: Seq<usize>| goes(b, node_at(m, q), segs, steps);
        assert(goes(b, node_at(n, q), segs, steps));
    }
    if leads_on(b, node_at(n, q), segs) {
        let steps = choose|steps: Seq<usize>| goes(b, node_at(n, q), segs, steps);
        assert(goes(b, node_at(m, q), segs, steps));
    }
}

proof fn lemma_graft_same_ways(b: Seq<u8>, n: NodeV, at: Seq<usize>, m: NodeV)
    requires
        node_wf(b, n),
        reachable(n, at),
        kids(b, m) == kids(b, node_at(n, at)),
        m.label == node_at(n, at).label,
        node_at(n, at).children.len() <= m.children.len(),
        forall|j: int|
            0 <= j < node_at(n, at).children.len() ==> m.children[j] == #[trigger] node_at(
                n,
                at,
            ).children[j],
    ensures
        same_ways(b, n, grafted(n, at, m)),
{
    reveal(same_ways);
    let g = grafted(n, at, m);
    assert forall|q: Seq<usize>| #[trigger] reachable(n, q) implies reachable(g, q) by {
        lemma_graft_elsewhere(b, n, at, m, q, Seq::empty(), at);
    }
    assert forall|q: Seq<usize>, gs: Seq<SegV>, steps: Seq<usize>|
        reachable(n, q) implies #[trigger] goes(b, node_at(g, q), gs, steps) == goes(
        b,
        node_at(n, q),
        gs,
        steps,
    ) by {
        lemma_graft_elsewhere(b, n, at, m, q, gs, steps);
    }
}

/// Resolving segments finds the steps that go down by them, and leaves what any node
/// leads to as it was.
proof fn lemma_resolved(b: Seq<u8>, root: NodeV, at: Seq<usize>, segs: Seq<SegV>)
    requires
        node_wf(b, root),
        reachable(root, at),
    ensures
        ({
            let (m, found) = resolved(b, root, at, segs);
            &&& node_wf(b, m)
            &&& match found {
                Some(to) => to.len() == at.len() + segs.len() && to.take(at.len() as int) == at
                    && goes(b, node_at(root, at), segs, to.skip(at.len() as int)),
                None => !leads_on(b, node_at(root, at), segs),
            }
            &&& same_ways(b, root, m)
        }),
    decreases segs.len(),
{
    let n = node_at(root, at);
    lemma_node_at_wf(b, root, at);
    if segs.len() == 0 {
        assert(same_ways(b, root, root)) by {
            reveal(same_ways);
        }
        assert(at.take(at.len() as int) =~= at);
        assert(at.skip(at.len() as int) =~= Seq::<usize>::empty());
    } else {
        let (c, found) = child_by_segment(b, n, segs[0]);
        let ks = kids(b, n);
        lemma_child_by_segment(b, n, segs[0]);
        let root1 = grafted(root, at, c);
        lemma_grafted_wf(b, root, at, c);
        lemma_graft_same_ways(b, root, at, c);
        match found {
            None => {
                if leads_on(b, n, segs) {
                    let steps = choose|steps: Seq<usize>| goes(b, n, segs, steps);
                    assert(named(ks, segs[0], steps[0] as int));
                }
            },
            Some(i) => {
                let x = i as usize;
                let to = at.push(x);
                lemma_reachable_push(root1, at, x);
                assert(node_at(root1, to) == ks[i]);
                lemma_resolved(b, root1, to, segs.skip(1));
                let (m, found1) = resolved(b, root1, to, segs.skip(1));
                match found1 {
                    Some(end) => {
                        let steps = end.skip(at.len() as int);
                        assert(end.take(to.len() as int)[at.len() as int] == x);
                        assert(steps[0] == x);
                        assert(steps.skip(1) =~= end.skip(to.len() as int));
                        assert(end.take(at.len() as int) =~= end.take(to.len() as int).take(
                            at.len() as int,
                        ));
                        assert(to.take(at.len() as int) =~= at);
                        assert(goes(b, n, segs, steps));
                    },
                    None => {
                        if leads_on(b, n, segs) {
                            let steps = choose|steps: Seq<usize>| goes(b, n, segs, steps);
                            assert(named(ks, segs[0], steps[0] as int));
                            assert(goes(b, ks[i], segs.skip(1), steps.skip(1)));
                        }
                    },
                }
                lemma_same_ways_step(b, root, root1, m);
            },
        }
    }
}

/// Whether `to` is the way down from the node at the first `j` steps of `focus`, and no node
/// further along leads on.
pub open spec fn lead_at(
    b: Seq<u8>,
    root: NodeV,
    focus: Seq<usize>,
    high: int,
    low: int,
    segs: Seq<SegV>,
    to: Seq<usize>,
    j: int,
) -> bool {
    &&& low <= j <= high
    &&& to.len() == j + segs.len()
    &&& to.take(j) == focus.take(j)
    &&& goes(b, node_at(root, focus.take(j)), segs, to.skip(j))
    &&& forall|i: int|
        j < i <= high ==> !leads_on(b, node_at(root, #[trigger] focus.take(i)), segs)
}

/// What comes of trying the nodes at `focus`, cut down to `high` steps and fewer, but no
/// fewer than `low`: the way down from the lowest node from which the segments lead on.
pub open spec fn lowest_lead(
    b: Seq<u8>,
    root: NodeV,
    focus: Seq<usize>,
    high: int,
    low: int,
    segs: Seq<SegV>,
    r: Option<Seq<usize>>,
) -> bool {
    match r {
        Some(to) => exists|j: int| #[trigger] lead_at(b, root, focus, high, low, segs, to, j),
        None => forall|i: int|
            low <= i <= high ==> !leads_on(b, node_at(root, #[trigger] focus.take(i)), segs),
    }
}

/// What is tried in a tree where every node leads on as it did comes to the same.
proof fn lemma_lead_carries(
    b: Seq<u8>,
    root: NodeV,
    m: NodeV,
    focus: Seq<usize>,
    high: int,
    low: int,
    segs: Seq<SegV>,
    r: Option<Seq<usize>>,
)
    requires
        same_ways(b, root, m),
        reachable(root, focus),
        0 <= low,
        high <= focus.len(),
        lowest_lead(b, m, focus, high, low, segs, r),
    ensures
        lowest_lead(b, root, focus, high, low, segs, r),
{
    assert forall|i: int| 0 <= i <= focus.len() implies leads_on(
        b,
        node_at(m, #[trigger] focus.take(i)),
        segs,
    ) == leads_on(b, node_at(root, focus.take(i)), segs) by {
        lemma_reachable_prefix(root, focus, i);
        lemma_same_ways(b, root, m, focus.take(i), segs);
    }
    if let Some(to) = r {
        let j = choose|j: int| #[trigger] lead_at(b, m, focus, high, low, segs, to, j);
        lemma_reachable_prefix(root, focus, j);
        lemma_same_ways(b, root, m, focus.take(j), segs);
        assert(lead_at(b, root, focus, high, low, segs, to, j));
    }
}

proof fn lemma_climbed(
    b: Seq<u8>,
    root: NodeV,
    focus: Seq<usize>,
    high: int,
    low: int,
    segs: Seq<SegV>,
)
    requires
        node_wf(b, root),
        reachable(root, focus),
        0 <= low,
        high <= focus.len(),
    ensures
        lowest_lead(b, root, focus, high, low, segs, climbed(b, root, focus, high, low, segs).1),
    decreases high + 1 - low,
{
    if high >= low {
        lemma_reachable_prefix(root, focus, high);
        lemma_resolved(b, root, focus.take(high), segs);
        let (m, found) = resolved(b, root, focus.take(high), segs);
        if found is None {
            lemma_same_ways(b, root, m, focus, segs);
            lemma_climbed(b, m, focus, high - 1, low, segs);
            let r = climbed(b, m, focus, high - 1, low, segs).1;
            lemma_lead_carries(b, root, m, focus, high - 1, low, segs, r);
            if let Some(to) = r {
                let j = choose|j: int| #[trigger] lead_at(b, root, focus, high - 1, low, segs, to, j);
                assert forall|i: int| j < i <= high implies !leads_on(
                    b,
                    node_at(root, #[trigger] focus.take(i)),
                    segs,
                ) by {
                    assert(i <= high - 1 || i == high);
                }
                assert(lead_at(b, root, focus, high, low, segs, to, j));
            }
        } else {
            assert(lead_at(b, root, focus, high, low, segs, found->0, high));
        }
    }
}

// ---------------------------------------------------------------------------
// Laws
// ---------------------------------------------------------------------------
/// A path is resolved below a node exactly where each of its segments names a child there,
/// one below the other, and to the children that they name.
pub proof fn law_resolving_finds_what_is_named(
    b: Seq<u8>,
    root: NodeV,
    at: Seq<usize>,
    segs: Seq<SegV>,
    steps: Seq<usize>,
)
    requires
        node_wf(b, root),
        reachable(root, at),
    ensures
        resolved(b, root, at, segs).1 == Some(at + steps) <==> goes(
            b,
            node_at(root, at),
            segs,
            steps,
        ),
        resolved(b, root, at, segs).1 is None <==> !leads_on(b, node_at(root, at), segs),
{
    lemma_resolved(b, root, at, segs);
    if let Some(to) = resolved(b, root, at, segs).1 {
        let s = to.skip(at.len() as int);
        assert(to =~= at + s);
        assert((at + steps).skip(at.len() as int) =~= steps);
        if goes(b, node_at(root, at), segs, steps) {
            lemma_one_way(b, node_at(root, at), segs, s, steps);
        }
    }
}

/// A relative path that climbs `n` levels is resolved below the node exactly `n` steps above
/// the cursor, where its segments lead on from there: the result begins with the cursor's
/// path less its last `n` steps and goes on to the children that the segments name.
pub proof fn law_relative_path_starts_above_the_cursor(
    b: Seq<u8>,
    root: NodeV,
    focus: Seq<usize>,
    n: int,
    segs: Seq<SegV>,
    steps: Seq<usize>,
)
    requires
        node_wf(b, root),
        reachable(root, focus),
        0 <= n <= focus.len(),
        goes(b, node_at(root, focus.take(focus.len() - n)), segs, steps),
    ensures
        resolved_climbing(b, root, focus, Some(n), segs).1 == Some(
            focus.take(focus.len() - n) + steps,
        ),
{
    reveal(resolved_climbing);
    let q = focus.take(focus.len() - n);
    lemma_reachable_prefix(root, focus, focus.len() - n);
    law_resolving_finds_what_is_named(b, root, q, segs, steps);
}

/// With no segments a relative path comes to the node that it climbs to: the cursor, its
/// parent, and so on.
pub proof fn law_climbing_alone(b: Seq<u8>, root: NodeV, focus: Seq<usize>, n: int)
    requires
        0 <= n <= focus.len(),
    ensures
        resolved_climbing(b, root, focus, Some(n), Seq::empty()).1 == Some(
            focus.take(focus.len() - n),
        ),
        n == 0 ==> resolved_climbing(b, root, focus, Some(n), Seq::empty()).1 == Some(focus),
        n == 1 ==> resolved_climbing(b, root, focus, Some(n), Seq::empty()).1 == Some(
            focus.drop_last(),
        ),
{
    reveal(resolved_climbing);
    assert(focus.take(focus.len() as int) =~= focus);
    if n == 1 {
        assert(focus.take(focus.len() - 1) =~= focus.drop_last());
    }
}

/// Where a relative path leads to: it is tried at the node that it climbs to, the root if it
/// climbs further, and then at each node above that, the nearest first.
pub proof fn law_relative_path(
    b: Seq<u8>,
    root: NodeV,
    focus: Seq<usize>,
    n: int,
    segs: Seq<SegV>,
)
    requires
        node_wf(b, root),
        reachable(root, focus),
        0 <= n,
    ensures
        n <= focus.len() ==> lowest_lead(
            b,
            root,
            focus,
            focus.len() - n,
            0,
            segs,
            resolved_climbing(b, root, focus, Some(n), segs).1,
        ),
        n > focus.len() ==> lowest_lead(
            b,
            root,
            focus,
            0,
            0,
            segs,
            resolved_climbing(b, root, focus, Some(n), segs).1,
        ),
{
    reveal(resolved_climbing);
    lemma_climbed(
        b,
        root,
        focus,
        if n <= focus.len() {
            focus.len() - n
        } else {
            0
        },
        0,
        segs,
    );
}

/// Where an absolute path leads to: down from the root where its segments lead on from
/// there, and else it is tried at the cursor and at each node above it.
pub proof fn law_absolute_path(b: Seq<u8>, root: NodeV, focus: Seq<usize>, segs: Seq<SegV>)
    requires
        node_wf(b, root),
        reachable(root, focus),
    ensures
        forall|steps: Seq<usize>|
            #![trigger goes(b, root, segs, steps)]
            goes(b, root, segs, steps) ==> resolved_climbing(b, root, focus, None, segs).1 == Some(
                steps,
            ),
        !leads_on(b, root, segs) ==> lowest_lead(
            b,
            root,
            focus,
            focus.len() as int,
            1,
            segs,
            resolved_climbing(b, root, focus, None, segs).1,
        ),
{
    reveal(resolved_climbing);
    let none = Seq::<usize>::empty();
    lemma_resolved(b, root, none, segs);
    let (m, found) = resolved(b, root, none, segs);
    assert forall|steps: Seq<usize>|
        #![trigger goes(b, root, segs, steps)]
        goes(b, root, segs, steps) implies resolved_climbing(b, root, focus, None, segs).1 == Some(
        steps,
    ) by {
        law_resolving_finds_what_is_named(b, root, none, segs, steps);
        assert(none + steps =~= steps);
    }
    if !leads_on(b, root, segs) {
        if let Some(to) = found {
            assert(goes(b, root, segs, to.skip(0)));
        }
        lemma_same_ways(b, root, m, focus, segs);
        lemma_climbed(b, m, focus, focus.len() as int, 1, segs);
        let r = climbed(b, m, focus, focus.len() as int, 1, segs).1;
        lemma_lead_carries(b, root, m, focus, focus.len() as int, 1, segs, r);
    }
}

/// The children that a path's segments are held against are those of the document.
pub proof fn law_kids_are_the_children(b: Seq<u8>, n: NodeV)
    requires
        blank(n),
        n.kind.is_container(),
        n.has_children,
    ensures
        kids(b, n) == fresh_nodes(b, all_children(b, n)),
{
    assert(kids(b, n) =~= fresh_nodes(b, all_children(b, n)));
}

} // verus!
