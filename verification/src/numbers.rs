//! The numbers directly below a node, one after another, as the texts they are
//! written in.

use crate::pane::{at_result_root, focus_node, rows_point, Pane, PaneV};
use crate::scanner::{children_from, lemma_next_child, ChildV, Cursor, Kind};
use crate::text::{float_text, from_utf8, is_float_text, trim, trimmed};
use crate::tree::{fresh_cursor, node_wf, value_range, Node, NodeV};
use vstd::prelude::*;
use vstd::utf8::*;

verus! {

/// Where a value lies, and what kind of value it is.
pub struct SpanV {
    pub start: int,
    pub end: int,
    pub kind: Kind,
}

/// Where children lie.
pub open spec fn spans(cs: Seq<ChildV>) -> Seq<SpanV> {
    Seq::new(cs.len(), |i: int| SpanV { start: cs[i].start, end: cs[i].end, kind: cs[i].kind })
}

/// Where the nodes that a node has been given lie.
pub open spec fn node_spans(ns: Seq<NodeV>) -> Seq<SpanV> {
    Seq::new(ns.len(), |i: int| SpanV { start: ns[i].start, end: ns[i].end, kind: ns[i].kind })
}

/// The text of a number, where a value is one that reads as such.
pub open spec fn number_text(b: Seq<u8>, s: SpanV) -> Option<Seq<char>> {
    let bytes = b.subrange(s.start, s.end);
    if s.kind is Number && valid_utf8(bytes) && float_text(trimmed(decode_utf8(bytes))) {
        Some(trimmed(decode_utf8(bytes)))
    } else {
        None
    }
}

/// The texts of the numbers among those values.
pub open spec fn number_texts(b: Seq<u8>, ss: Seq<SpanV>) -> Seq<Seq<char>>
    decreases ss.len(),
{
    if ss.len() == 0 {
        Seq::empty()
    } else {
        let rest = number_texts(b, ss.skip(1));
        match number_text(b, ss[0]) {
            Some(t) => seq![t] + rest,
            None => rest,
        }
    }
}

/// A walk over the direct children of a node: the same streaming pass that counts
/// them, with nothing kept of it but how many there were.
pub struct NumberWalk {
    cursor: Option<Cursor>,
    given: Vec<(usize, usize, Kind)>,
    at: usize,
    total: usize,
}

impl NumberWalk {
    /// The values that are still ahead.
    pub closed spec fn ahead(&self, b: Seq<u8>) -> Seq<SpanV> {
        match self.cursor {
            Some(c) => spans(children_from(b, c.model(b).level)),
            None => Seq::new(
                (self.given@.len() - self.at) as nat,
                |i: int|
                    SpanV {
                        start: self.given@[self.at + i].0 as int,
                        end: self.given@[self.at + i].1 as int,
                        kind: self.given@[self.at + i].2,
                    },
            ),
        }
    }

    /// How many values have been walked over, numbers or not.
    pub closed spec fn walked(&self) -> int {
        self.total as int
    }

    pub closed spec fn wf(&self, b: Seq<u8>) -> bool {
        &&& match self.cursor {
            Some(c) => c.wf(b) && c.model(b).level.index == self.total,
            None => self.total == self.at,
        }
        &&& self.at <= self.given@.len()
        &&& forall|i: int|
            0 <= i < self.given@.len() ==> value_range(
                b,
                (#[trigger] self.given@[i]).0 as int,
                self.given@[i].1 as int,
                self.given@[i].2,
            )
    }

    /// A walk over the children of a node. `None` for a scalar.
    pub fn over(node: &Node, b: &[u8]) -> (r: Option<NumberWalk>)
        requires
            node.wf(b@),
        ensures
            r is Some <==> node.kind.is_container(),
            r matches Some(w) ==> w.wf(b@) && w.walked() == 0 && w.ahead(b@) == spans(
                children_from(b@, fresh_cursor(node.model(b@)).level),
            ),
    {
        if !node.is_container() {
            return None;
        }
        let cur = node.make_cursor();
        assert(cur.model(b@) == fresh_cursor(node.model(b@)));
        Some(NumberWalk { cursor: Some(cur), given: Vec::new(), at: 0, total: 0 })
    }

    /// A walk over the children that a node has been given.
    pub fn over_given(node: &Node, b: &[u8]) -> (r: NumberWalk)
        requires
            node.wf(b@),
        ensures
            r.wf(b@),
            r.walked() == 0,
            r.ahead(b@) == node_spans(node.model(b@).children),
    {
        let mut given: Vec<(usize, usize, Kind)> = Vec::new();
        let mut i: usize = 0;
        while i < node.children.len()
            invariant
                node.wf(b@),
                i <= node.children@.len(),
                given@.len() == i,
                forall|k: int|
                    0 <= k < i ==> #[trigger] given@[k] == (
                        node.children@[k].start,
                        node.children@[k].end,
                        node.children@[k].kind,
                    ) && value_range(b@, given@[k].0 as int, given@[k].1 as int, given@[k].2),
            decreases node.children@.len() - i,
        {
            let c = &node.children[i];
            assert(node.model(b@).children[i as int] == c.model(b@));
            assert(node_wf(b@, c.model(b@)));
            given.push((c.start, c.end, c.kind));
            i += 1;
        }
        let r = NumberWalk { cursor: None, given, at: 0, total: 0 };
        assert forall|k: int| 0 <= k < node.children@.len() implies (#[trigger] node_spans(
            node.model(b@).children,
        )[k]) == (SpanV {
            start: node.children@[k].start as int,
            end: node.children@[k].end as int,
            kind: node.children@[k].kind,
        }) by {
            assert(node.model(b@).children[k] == node.children@[k].model(b@));
        }
        assert(r.ahead(b@) =~= node_spans(node.model(b@).children));
        r
    }

    /// How many values have been walked over (so the caller can say "12 of 20
    /// numeric").
    pub fn total(&self) -> (r: usize)
        ensures
            r == self.walked(),
    {
        self.total
    }

    /// The next value that is ahead, if there is one.
    fn advance(&mut self, b: &[u8]) -> (r: Option<(usize, usize, Kind)>)
        requires
            old(self).wf(b@),
        ensures
            final(self).wf(b@),
            match r {
                Some(s) => {
                    let all = old(self).ahead(b@);
                    &&& all.len() > 0
                    &&& all[0] == (SpanV { start: s.0 as int, end: s.1 as int, kind: s.2 })
                    &&& value_range(b@, s.0 as int, s.1 as int, s.2)
                    &&& final(self).ahead(b@) == all.skip(1)
                    &&& final(self).walked() == old(self).walked() + 1
                },
                None => {
                    &&& old(self).ahead(b@).len() == 0
                    &&& final(self).ahead(b@).len() == 0
                    &&& final(self).walked() == old(self).walked()
                },
            },
    {
        let ghost all = self.ahead(b@);
        match &mut self.cursor {
            Some(c) => {
                let ghost s = c.model(b@).level;
                proof {
                    lemma_next_child(b@, s);
                }
                match c.next(b) {
                    None => None,
                    Some(rc) => {
                        self.total = self.total + 1;
                        assert(self.ahead(b@) =~= all.skip(1));
                        Some((rc.start, rc.end, rc.kind))
                    },
                }
            },
            None => {
                if self.at < self.given.len() {
                    let s = self.given[self.at];
                    self.at = self.at + 1;
                    self.total = self.total + 1;
                    assert(self.ahead(b@) =~= all.skip(1));
                    Some(s)
                } else {
                    None
                }
            },
        }
    }

    /// The text of the next number, walking over what is none. Non-numbers are
    /// counted in the total but skipped.
    pub fn next(&mut self, b: &[u8]) -> (r: Option<String>)
        requires
            old(self).wf(b@),
        ensures
            final(self).wf(b@),
            final(self).walked() + final(self).ahead(b@).len() == old(self).walked() + old(
                self,
            ).ahead(b@).len(),
            ({
                let texts = number_texts(b@, old(self).ahead(b@));
                match r {
                    Some(t) => texts.len() > 0 && t@ == texts[0] && number_texts(
                        b@,
                        final(self).ahead(b@),
                    ) == texts.skip(1),
                    None => texts.len() == 0 && final(self).ahead(b@).len() == 0,
                }
            }),
    {
        let ghost texts = number_texts(b@, self.ahead(b@));
        let ghost size = self.walked() + self.ahead(b@).len();
        loop
            invariant
                self.wf(b@),
                texts == number_texts(b@, old(self).ahead(b@)),
                size == old(self).walked() + old(self).ahead(b@).len(),
                number_texts(b@, self.ahead(b@)) == texts,
                self.walked() + self.ahead(b@).len() == size,
            decreases self.ahead(b@).len(),
        {
            let ghost all = self.ahead(b@);
            match self.advance(b) {
                None => {
                    return None;
                },
                Some((start, end, kind)) => {
                    if matches!(kind, Kind::Number) {
                        if let Some(s) = from_utf8(vstd::slice::slice_subrange(b, start, end)) {
                            let t = trim(s.as_str());
                            if is_float_text(t.as_str()) {
                                assert(texts.skip(1) =~= number_texts(b@, all.skip(1)));
                                return Some(t);
                            }
                        }
                    }
                },
            }
        }
    }
}

/// The values that the focused node is summed up over: what a filter has selected,
/// on the root of its pane, and else the node's direct children. None where the
/// focus is on no container.
pub open spec fn summed(b: Seq<u8>, v: PaneV) -> Option<Seq<SpanV>> {
    match focus_node(v) {
        Some(n) if n.kind.is_container() => Some(
            if at_result_root(v) {
                node_spans(n.children)
            } else {
                spans(children_from(b, fresh_cursor(n).level))
            },
        ),
        _ => None,
    }
}

/// The walk over the numbers below the focused node.
pub fn walk_focus(v: &Pane, b: &[u8]) -> (r: Option<NumberWalk>)
    requires
        v.wf(b@),
        rows_point(v.model(b@)),
    ensures
        match summed(b@, v.model(b@)) {
            Some(all) => r matches Some(w) && w.wf(b@) && w.walked() == 0 && w.ahead(b@) == all,
            None => r is None,
        },
{
    match v.focused_node(b) {
        None => None,
        Some(node) => {
            if node.is_container() && v.at_result_root(b) {
                return Some(NumberWalk::over_given(node, b));
            }
            NumberWalk::over(node, b)
        },
    }
}

/// What is summed up lies below the node in focus, which is an array or an object: on the root
/// of a result pane one value for each that was selected, in their order, and elsewhere the
/// direct children that the node has in the document.
pub proof fn law_what_is_summed_up(b: Seq<u8>, v: PaneV)
    ensures
        summed(b, v) is Some <==> (focus_node(v) matches Some(n) && n.kind.is_container()),
        summed(b, v) matches Some(all) ==> {
            let n = focus_node(v)->0;
            let given = v.filter is Some && v.rows[v.focus].path.len() == 0;
            let cs = children_from(b, fresh_cursor(n).level);
            &&& given ==> all.len() == n.children.len() && forall|i: int|
                0 <= i < all.len() ==> (#[trigger] all[i]).start == n.children[i].start && all[i].end
                    == n.children[i].end && all[i].kind == n.children[i].kind
            &&& !given ==> all.len() == cs.len() && forall|i: int|
                0 <= i < all.len() ==> (#[trigger] all[i]).start == cs[i].start && all[i].end
                    == cs[i].end && all[i].kind == cs[i].kind
        },
{
    if summed(b, v) is Some {
        let p = v.rows[v.focus].path;
        assert(p.len() == 0 <==> p =~= Seq::<usize>::empty());
    }
}

} // verus!
