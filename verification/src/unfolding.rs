//! What a tree holds once it is opened: all of the document.

use crate::json::{
    doc_bytes, doc_kind, doc_ok, item_child, item_children, items_bytes, law_array_children,
    law_empty_container, law_object_children, law_value_end, member_child, member_children,
    members_bytes, stands, structural, Doc,
};
use crate::scanner::{
    addressable, after_child, after_next, children_from, delimiter_byte, empty_container,
    lemma_next_child, level_of, level_wf, next_child, ws_end, ChildV, LevelV,
};
use crate::text::decimal;
use crate::tree::{
    document_root, fresh_cursor, fresh_node, lemma_scanned_to_keeps, opened, same_but_scanned,
    scanned_to, NodeV,
};
use vstd::prelude::*;

verus! {

// ---------------------------------------------------------------------------
// Scanning
// ---------------------------------------------------------------------------
/// The nodes of children that have just been scanned.
pub open spec fn fresh_nodes(b: Seq<u8>, cs: Seq<ChildV>) -> Seq<NodeV> {
    Seq::new(cs.len(), |i: int| fresh_node(b, cs[i]))
}

/// The children that are still ahead of a node's cursor.
pub open spec fn ahead(b: Seq<u8>, n: NodeV) -> Seq<ChildV> {
    match n.cursor {
        Some(c) => children_from(b, c.level),
        None => Seq::empty(),
    }
}

/// A node whose children can be scanned.
pub open spec fn scannable(b: Seq<u8>, n: NodeV) -> bool {
    n.cursor matches Some(c) && level_wf(b, c.level) && c.level.index == n.children.len()
}

/// How many children a scan up to number `i` adds.
pub open spec fn to_scan(b: Seq<u8>, n: NodeV, i: int) -> int {
    let want = i + 1 - n.children.len();
    if want <= 0 {
        0
    } else if want <= ahead(b, n).len() {
        want
    } else {
        ahead(b, n).len() as int
    }
}

/// A scan adds the next of the children that are ahead.
pub proof fn lemma_scan(b: Seq<u8>, n: NodeV, i: int)
    requires
        addressable(b),
        scannable(b, n),
    ensures
        ({
            let m = scanned_to(b, n, i);
            let j = to_scan(b, n, i);
            &&& scannable(b, m)
            &&& same_but_scanned(n, m)
            &&& m.children == n.children + fresh_nodes(b, ahead(b, n).take(j))
            &&& ahead(b, m) == ahead(b, n).skip(j)
        }),
    decreases i + 1 - n.children.len(),
{
    let m = scanned_to(b, n, i);
    let rest = ahead(b, n);
    let j = to_scan(b, n, i);
    lemma_scanned_to_keeps(b, n, i);
    if n.children.len() <= i {
        let c = n.cursor->0;
        lemma_next_child(b, c.level);
        match next_child(b, c.level) {
            None => {
                assert(rest.len() == 0);
                assert(m.children =~= n.children + fresh_nodes(b, rest.take(0)));
                assert(next_child(b, after_child(b, c.level)) is None);
                assert(rest.skip(0) =~= rest);
            },
            Some(ch) => {
                let n1 = NodeV {
                    children: n.children.push(fresh_node(b, ch)),
                    cursor: Some(after_next(b, c)),
                    ..n
                };
                assert(rest == seq![ch] + ahead(b, n1));
                lemma_scan(b, n1, i);
                let k = to_scan(b, n1, i);
                assert(j == k + 1);
                assert(rest.take(j) =~= seq![ch] + ahead(b, n1).take(k));
                assert(fresh_nodes(b, rest.take(j)) =~= seq![fresh_node(b, ch)] + fresh_nodes(
                    b,
                    ahead(b, n1).take(k),
                ));
                assert(m.children =~= n.children + fresh_nodes(b, rest.take(j)));
                assert(ahead(b, n1).skip(k) =~= rest.skip(j));
            },
        }
    } else {
        assert(m.children =~= n.children + fresh_nodes(b, rest.take(0)));
        assert(rest.skip(0) =~= rest);
    }
}

// ---------------------------------------------------------------------------
// The whole tree
// ---------------------------------------------------------------------------
/// A node with child after child asked for, from number `i` on, until there is none.
pub open spec fn scanned_out(b: Seq<u8>, n: NodeV, i: int) -> NodeV
    decreases usize::MAX - i,
{
    let m = scanned_to(b, n, i);
    if i >= m.children.len() || i >= usize::MAX {
        m
    } else {
        scanned_out(b, m, i + 1)
    }
}

/// A tree with every container opened and all of its children asked for, down to
/// `levels` levels.
pub open spec fn unfolded(b: Seq<u8>, n: NodeV, levels: nat) -> NodeV
    decreases levels,
{
    if levels == 0 || !n.kind.is_container() || !n.has_children {
        n
    } else {
        let m = scanned_out(b, opened(n), 0);
        NodeV {
            children: Seq::new(
                m.children.len(),
                |i: int| unfolded(b, m.children[i], (levels - 1) as nat),
            ),
            ..m
        }
    }
}

/// Asking for child after child gives all of those that are ahead.
proof fn lemma_scan_out(b: Seq<u8>, n: NodeV, i: int)
    requires
        addressable(b),
        scannable(b, n),
        0 <= i <= n.children.len() + ahead(b, n).len() <= usize::MAX,
    ensures
        scanned_out(b, n, i).children == n.children + fresh_nodes(b, ahead(b, n)),
        same_but_scanned(n, scanned_out(b, n, i)),
    decreases usize::MAX - i,
{
    let m = scanned_to(b, n, i);
    let rest = ahead(b, n);
    let j = to_scan(b, n, i);
    lemma_scan(b, n, i);
    if i >= m.children.len() || i >= usize::MAX {
        assert(rest.take(j) =~= rest);
    } else {
        lemma_scan_out(b, m, i + 1);
        assert(rest.take(j) + rest.skip(j) =~= rest);
        let all = scanned_out(b, m, i + 1);
        assert(fresh_nodes(b, rest) =~= fresh_nodes(b, rest.take(j)) + fresh_nodes(
            b,
            rest.skip(j),
        ));
        assert(all.children =~= n.children + fresh_nodes(b, rest));
        assert(all.children.take(n.children.len() as int) =~= n.children);
    }
}

/// Whether a node holds the value `d` that stands at `p`: a scalar its range, a
/// container all of its children, in order, under their labels.
pub open spec fn holds_doc(b: Seq<u8>, n: NodeV, p: int, d: Doc) -> bool
    decreases d,
{
    &&& n.start == p
    &&& n.kind == doc_kind(d)
    &&& stands(b, p, doc_bytes(d))
    &&& match d {
        Doc::List(items, _) => {
            &&& n.children.len() == items.len()
            &&& forall|k: int|
                0 <= k < items.len() ==> {
                    let c = #[trigger] n.children[k];
                    &&& c.label == decimal(k as nat)
                    &&& c.is_index
                    &&& c.end == c.start + doc_bytes(items[k].value).len()
                    &&& holds_doc(b, c, item_child(d, p, k).start, items[k].value)
                }
        },
        Doc::Record(members, _) => {
            &&& n.children.len() == members.len()
            &&& forall|k: int|
                0 <= k < members.len() ==> {
                    let c = #[trigger] n.children[k];
                    &&& c.label == member_child(d, p, k).label
                    &&& !c.is_index
                    &&& c.end == c.start + doc_bytes(members[k].value).len()
                    &&& holds_doc(b, c, member_child(d, p, k).start, members[k].value)
                }
        },
        _ => n.children.len() == 0,
    }
}

/// A node of which nothing is scanned, whether it is open or not.
spec fn untouched(n: NodeV) -> bool {
    &&& n.children.len() == 0
    &&& !n.jsonl
    &&& !n.done
    &&& n.cursor is None || n.cursor == Some(fresh_cursor(n))
    &&& n.expanded ==> n.cursor is Some
}

proof fn lemma_item_shorter(d: Doc, k: int, j: int)
    requires
        d is List,
        0 <= j <= k < d->List_0.len(),
    ensures
        doc_bytes(d->List_0[k].value).len() <= items_bytes(d, j).len(),
        items_bytes(d, 0).len() + 2 <= doc_bytes(d).len(),
    decreases k - j,
{
    if j < k {
        lemma_item_shorter(d, k, j + 1);
    }
}

proof fn lemma_member_shorter(d: Doc, k: int, j: int)
    requires
        d is Record,
        0 <= j <= k < d->Record_0.len(),
    ensures
        doc_bytes(d->Record_0[k].value).len() <= members_bytes(d, j).len(),
        members_bytes(d, 0).len() + 2 <= doc_bytes(d).len(),
    decreases k - j,
{
    if j < k {
        lemma_member_shorter(d, k, j + 1);
    }
}

proof fn lemma_unfolded(b: Seq<u8>, n: NodeV, p: int, d: Doc, levels: nat)
    requires
        addressable(b),
        doc_ok(d),
        stands(b, p, doc_bytes(d)),
        p + doc_bytes(d).len() <= n.end <= b.len(),
        untouched(n),
        n.start == p,
        n.kind == doc_kind(d),
        n.has_children == (n.kind.is_container() && !empty_container(b, p, n.end)),
        levels >= doc_bytes(d).len(),
    ensures
        holds_doc(b, unfolded(b, n, levels), p, d),
        unfolded(b, n, levels).label == n.label,
        unfolded(b, n, levels).is_index == n.is_index,
        unfolded(b, n, levels).start == n.start,
        unfolded(b, n, levels).end == n.end,
    decreases d,
{
    let u = unfolded(b, n, levels);
    match d {
        Doc::List(items, _) => {
            law_array_children(b, p, d, n.end);
            law_empty_container(b, p, d, n.end);
            let cs = item_children(d, p, 0);
            lemma_opened_level(b, n, cs, levels);
            assert forall|k: int| 0 <= k < items.len() implies ({
                let c = #[trigger] u.children[k];
                &&& c.label == decimal(k as nat)
                &&& c.is_index
                &&& c.end == c.start + doc_bytes(items[k].value).len()
                &&& holds_doc(b, c, item_child(d, p, k).start, items[k].value)
            }) by {
                let ch = item_child(d, p, k);
                assert(cs[k] == ch);
                let f = fresh_node(b, ch);
                lemma_item_shorter(d, k, 0);
                assert(doc_ok(items[k].value));
                lemma_child_in(b, p, d, n.end, k);
                lemma_unfolded(b, f, ch.start, items[k].value, (levels - 1) as nat);
            }
        },
        Doc::Record(members, _) => {
            law_object_children(b, p, d, n.end);
            law_empty_container(b, p, d, n.end);
            let cs = member_children(d, p, 0);
            lemma_opened_level(b, n, cs, levels);
            assert forall|k: int| 0 <= k < members.len() implies ({
                let c = #[trigger] u.children[k];
                &&& c.label == member_child(d, p, k).label
                &&& !c.is_index
                &&& c.end == c.start + doc_bytes(members[k].value).len()
                &&& holds_doc(b, c, member_child(d, p, k).start, members[k].value)
            }) by {
                let ch = member_child(d, p, k);
                assert(cs[k] == ch);
                let f = fresh_node(b, ch);
                lemma_member_shorter(d, k, 0);
                assert(doc_ok(members[k].value));
                lemma_child_in(b, p, d, n.end, k);
                lemma_unfolded(b, f, ch.start, members[k].value, (levels - 1) as nat);
            }
        },
        Doc::Bare(s) => {
            lemma_bare_kind(d);
        },
        Doc::Text(s) => {},
    }
}

/// A value of the grammar that is no container has no kind of one.
proof fn lemma_bare_kind(d: Doc)
    requires
        doc_ok(d),
        d is Bare,
    ensures
        !doc_kind(d).is_container(),
{
    let s = d->Bare_0;
    assert(!structural(s[0]));
}

/// A value stands where it is found, inside of what holds it.
proof fn lemma_child_in(b: Seq<u8>, p: int, d: Doc, end: int, k: int)
    requires
        addressable(b),
        doc_ok(d),
        stands(b, p, doc_bytes(d)),
        p + doc_bytes(d).len() <= end <= b.len(),
        d is List && 0 <= k < d->List_0.len() || d is Record && 0 <= k < d->Record_0.len(),
    ensures
        ({
            let (ch, v) = if d is List {
                (item_child(d, p, k), d->List_0[k].value)
            } else {
                (member_child(d, p, k), d->Record_0[k].value)
            };
            stands(b, ch.start, doc_bytes(v)) && ch.end <= b.len()
        }),
{
    if d is List {
        law_array_children(b, p, d, end);
        assert(item_children(d, p, 0)[k] == item_child(d, p, k));
    } else {
        law_object_children(b, p, d, end);
        assert(member_children(d, p, 0)[k] == member_child(d, p, k));
    }
}

/// One level of a tree, opened.
proof fn lemma_opened_level(b: Seq<u8>, n: NodeV, cs: Seq<ChildV>, levels: nat)
    requires
        addressable(b),
        untouched(n),
        n.kind.is_container(),
        0 <= n.start <= n.end <= b.len(),
        levels > 0,
        cs == children_from(b, level_of(n.start, n.end, n.kind is Array)),
        n.has_children == (cs.len() > 0),
    ensures
        ({
            let u = unfolded(b, n, levels);
            &&& u.children.len() == cs.len()
            &&& forall|k: int|
                0 <= k < cs.len() ==> #[trigger] u.children[k] == unfolded(
                    b,
                    fresh_node(b, cs[k]),
                    (levels - 1) as nat,
                )
            &&& u == (NodeV { expanded: u.expanded, done: u.done, children: u.children, cursor: u.cursor, ..n })
        }),
{
    let o = opened(n);
    if n.has_children {
        assert(o.cursor == Some(fresh_cursor(n)));
        lemma_children_bound(b, o.cursor->0.level);
        lemma_scan_out(b, o, 0);
        let m = scanned_out(b, o, 0);
        assert(m.children =~= fresh_nodes(b, cs));
    }
}

pub proof fn lemma_children_bound(b: Seq<u8>, s: LevelV)
    requires
        0 <= s.index <= usize::MAX,
    ensures
        s.index + children_from(b, s).len() <= usize::MAX,
    decreases usize::MAX - s.index,
{
    if next_child(b, s) is Some && s.index < usize::MAX {
        lemma_children_bound(b, after_child(b, s));
    }
}

/// The lazy tree is the document: opening every container of a well-formed document and
/// asking for all of its children gives its whole tree, every value in its place, under
/// its label, from its first byte on.
pub proof fn law_unfolded_tree_is_the_document(b: Seq<u8>, name: Seq<char>, p: int, d: Doc)
    requires
        addressable(b),
        doc_ok(d),
        stands(b, p, doc_bytes(d)),
        ws_end(b, 0, b.len() as int) == p,
        d is Bare && p + doc_bytes(d).len() < b.len() ==> delimiter_byte(
            b[p + doc_bytes(d).len()],
        ),
    ensures
        holds_doc(b, unfolded(b, document_root(b, name, false), b.len()), p, d),
{
    let n = document_root(b, name, false);
    law_value_end(b, p, d, b.len() as int);
    if d is Bare {
        lemma_bare_kind(d);
    }
    lemma_unfolded(b, n, p, d, b.len());
}

} // verus!
