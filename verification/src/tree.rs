//! The lazy JSON tree model and path navigation.
//!
//! A [`Node`] is a byte range plus a resumable child [`Cursor`]: a collapsed
//! node costs O(1), and a huge level only enumerates as far as it is scrolled
//! ([`flatten`] windows the walk to a row budget, and yields when a single value
//! is too big to skip in one frame). On top of the tree sit the `goto` path
//! parser ([`parse_path`]/[`resolve_with_climb`]) and the helpers that carry
//! expansion state across a streaming re-parse.

pub use crate::paths::{
    join_path, parse_path, resolve_path, resolve_with_climb, ParsedPath, Seg,
};
pub use crate::rows::{flatten, Row};
use crate::paths::segment_views;
use crate::scanner::{
    addressable, after_child, after_next, after_step, children_from, container_empty, cursor_wf,
    decode_str, decoded, empty_container, extends, kind_of, lemma_next_child, lemma_skip_depth,
    lemma_skip_run, lemma_skip_run_resume, level_of, level_of_lines, level_wf, next_child,
    skip_run, skip_ws, step_result, tentative, value_kind, ws_end, ChildV, Cursor, CursorV, Kind,
    LevelV, MAX_DEPTH, RawChild, Step, StepV,
};
use crate::text::{
    between, chars_of, cut, join_strings, joined, string_of, text_from, text_of, texts,
};
use std::time::Instant;
use vstd::prelude::*;

verus! {

/// Trusted: `std::time::Instant`, a point in time that nothing is known of.
#[verifier::external_type_specification]
#[verifier::external_body]
pub struct ExInstant(Instant);

/// Trusted: whether `Instant::now` has come to `deadline`. The answer is the
/// clock's, so nothing is claimed of it.
#[verifier::external_body]
fn deadline_passed(deadline: Instant) -> (r: bool) {
    Instant::now() >= deadline
}

/// How many children to show in a collapsed container's inline preview.
pub const PREVIEW_ITEMS: usize = 5;

/// Max display width of a collapsed preview before it's truncated with `…`.
pub const PREVIEW_WIDTH: usize = 64;

/// Max display width of one scalar row.
pub const SCALAR_WIDTH: usize = 70;

/// Max display width of one value inside a preview, and of a table cell.
pub const BRIEF_WIDTH: usize = 24;

/// Bytes the inline preview will step over to reach the next sibling before
/// giving up with `…`: a preview is recomputed every frame and must never pay
/// for skipping a huge value.
pub const PREVIEW_SKIP_BUDGET: usize = 0x1_0000;

/// When decoding a scalar for display, only touch this many bytes. Always covers
/// the truncation width, even for 4-byte characters.
pub const PREVIEW_DECODE_BYTES: usize = 512;

/// Bytes a single resumable skip steps over before the frame deadline is looked
/// at again: small enough that the deadline is honoured to within a chunk, large
/// enough that the cost per chunk does not count.
pub const SKIP_CHUNK_BYTES: usize = 0x20_0000;

/// A lazily-expanding tree node. Children are scanned on demand from `cursor`
/// (resumable), so a collapsed node costs O(1) and a huge level only enumerates
/// as far as it's scrolled.
pub struct Node {
    pub label: String,
    pub start: usize,
    pub end: usize,
    /// False when `end` is provisional: a container whose closer hasn't been
    /// scanned yet (`end` is its parent's bound). Display and expansion work
    /// regardless (cursors stop at the real closer); whoever wants the raw range
    /// checks this and skips to the true closer first.
    pub end_exact: bool,
    pub kind: Kind,
    pub is_index: bool,
    /// Synthetic NDJSON root: children are the documents, enumerated by a
    /// `Cursor::lines` instead of a bracketed-container cursor.
    pub jsonl: bool,
    pub has_children: bool,
    pub expanded: bool,
    pub done: bool,
    pub children: Vec<Node>,
    pub cursor: Option<Box<Cursor>>,
}

/// A node as the contracts speak of it.
pub struct NodeV {
    pub label: Seq<char>,
    pub start: int,
    pub end: int,
    pub end_exact: bool,
    pub kind: Kind,
    pub is_index: bool,
    pub jsonl: bool,
    pub has_children: bool,
    pub expanded: bool,
    pub done: bool,
    /// The children scanned so far.
    pub children: Seq<NodeV>,
    pub cursor: Option<CursorV>,
}

/// A byte range of `b` that a value can take up. Only a string, or a container, that is
/// cut off behind a backslash reaches past the last byte.
pub open spec fn value_range(b: Seq<u8>, start: int, end: int, kind: Kind) -> bool {
    &&& addressable(b)
    &&& 0 <= start <= b.len()
    &&& start <= end
    &&& end <= b.len() || (kind is Str || kind.is_container()) && end == b.len() + 1
}

/// A node of a tree over the buffer `b`.
pub open spec fn node_wf(b: Seq<u8>, n: NodeV) -> bool
    decreases n,
{
    &&& value_range(b, n.start, n.end, n.kind)
    &&& n.kind.is_container() || !n.has_children
    &&& n.children.len() > 0 || n.cursor is Some ==> n.has_children
    &&& n.jsonl ==> n.kind is Array
    &&& match n.cursor {
        None => true,
        Some(c) => {
            &&& cursor_wf(b, c)
            &&& c.level.index == n.children.len()
            &&& c.level.lines == n.jsonl
        },
    }
    &&& forall|i: int|
        0 <= i < n.children.len() ==> !(#[trigger] n.children[i]).jsonl && node_wf(
            b,
            n.children[i],
        )
}

/// The cursor over all the children of a node.
pub open spec fn fresh_cursor(n: NodeV) -> CursorV {
    CursorV {
        level: if n.jsonl {
            level_of_lines(n.start, n.end)
        } else {
            level_of(n.start, n.end, n.kind is Array)
        },
        skipping: None,
    }
}

/// The node of a child that has just been scanned.
pub open spec fn fresh_node(b: Seq<u8>, c: ChildV) -> NodeV {
    NodeV {
        label: c.label,
        start: c.start,
        end: c.end,
        end_exact: c.end_exact,
        kind: c.kind,
        is_index: c.is_index,
        jsonl: false,
        has_children: c.kind.is_container() && !empty_container(b, c.start, c.end),
        expanded: false,
        done: false,
        children: Seq::empty(),
        cursor: None,
    }
}

/// A node with its expansion flipped. The first expansion sets up the cursor;
/// a collapse keeps the cursor and the children scanned so far.
pub open spec fn toggled(n: NodeV) -> NodeV {
    if !n.kind.is_container() || !n.has_children {
        n
    } else if !n.expanded && n.cursor is None && n.children.len() == 0 && !n.done {
        NodeV { expanded: true, cursor: Some(fresh_cursor(n)), ..n }
    } else {
        NodeV { expanded: !n.expanded, ..n }
    }
}

/// A node with its children scanned up to and including number `i`, as far as
/// there are so many.
pub open spec fn scanned_to(b: Seq<u8>, n: NodeV, i: int) -> NodeV
    decreases i + 1 - n.children.len(),
{
    if n.children.len() > i {
        n
    } else {
        match n.cursor {
            None => NodeV { done: true, ..n },
            Some(c) => match next_child(b, c.level) {
                None => NodeV { done: true, cursor: Some(after_next(b, c)), ..n },
                Some(ch) => scanned_to(
                    b,
                    NodeV {
                        children: n.children.push(fresh_node(b, ch)),
                        cursor: Some(after_next(b, c)),
                        ..n
                    },
                    i,
                ),
            },
        }
    }
}

/// What an attempt to bring a child up before a deadline came to.
pub enum FetchV {
    /// The child is there.
    Ready,
    /// The deadline was hit on the way over the previous child.
    Busy,
    /// The level ended before.
    Done,
}

/// The node after one step of its cursor.
pub open spec fn stepped(b: Seq<u8>, n: NodeV) -> NodeV {
    let c = n.cursor->0;
    let n1 = NodeV { cursor: Some(after_step(b, c, SKIP_CHUNK_BYTES as int)), ..n };
    match step_result(b, c, SKIP_CHUNK_BYTES as int) {
        StepV::Child(ch) => NodeV { children: n.children.push(fresh_node(b, ch)), ..n1 },
        StepV::Done => NodeV { done: true, ..n1 },
        StepV::Yield => n1,
    }
}

/// How many bytes the unfinished scan over the last child may still take.
pub open spec fn skip_left(n: NodeV) -> int {
    match n.cursor {
        Some(c) => match c.skipping {
            Some(k) => c.level.end + 1 - k.pos,
            None => 0,
        },
        None => 0,
    }
}

/// The attempt to scan up to child `i` in pieces, where the clock is found short
/// of the deadline `patience` times, and past it the next time: the node
/// afterwards, the outcome, and how much patience is left.
pub open spec fn fetched(b: Seq<u8>, n: NodeV, i: int, patience: nat) -> (NodeV, FetchV, nat)
    decreases i + 1 - n.children.len(), patience,
{
    if n.children.len() > i {
        (n, FetchV::Ready, patience)
    } else if n.cursor is None {
        (n, FetchV::Done, patience)
    } else {
        match step_result(b, n.cursor->0, SKIP_CHUNK_BYTES as int) {
            StepV::Child(_) => fetched(b, stepped(b, n), i, patience),
            StepV::Done => (stepped(b, n), FetchV::Done, patience),
            StepV::Yield => if patience == 0 {
                (stepped(b, n), FetchV::Busy, 0)
            } else {
                fetched(b, stepped(b, n), i, (patience - 1) as nat)
            },
        }
    }
}

/// The same attempt, with the patience given as what is used up and what is left.
pub open spec fn fetched_after(
    b: Seq<u8>,
    n: NodeV,
    i: int,
    used: nat,
    left: nat,
) -> (NodeV, FetchV, nat) {
    fetched(b, n, i, used + left)
}

/// A child of a level makes a node.
pub proof fn lemma_fresh_node_wf(b: Seq<u8>, s: LevelV)
    requires
        addressable(b),
        level_wf(b, s),
        next_child(b, s) is Some,
    ensures
        node_wf(b, fresh_node(b, next_child(b, s)->0)),
        node_wf(b, fresh_node(b, tentative(next_child(b, s)->0, s.end))),
{
    lemma_next_child(b, s);
}

proof fn lemma_stepped_wf(b: Seq<u8>, n: NodeV)
    requires
        node_wf(b, n),
        n.cursor is Some,
    ensures
        node_wf(b, stepped(b, n)),
        step_result(b, n.cursor->0, SKIP_CHUNK_BYTES as int) is Yield ==> 0 <= skip_left(
            stepped(b, n),
        ) < skip_left(n),
{
    let c = n.cursor->0;
    lemma_next_child(b, c.level);
    let n1 = stepped(b, n);
    if let Some(k) = c.skipping {
        lemma_skip_run(b, k, c.level.end, k.pos + SKIP_CHUNK_BYTES);
        lemma_skip_run_resume(b, k, c.level.end, k.pos + SKIP_CHUNK_BYTES);
        lemma_skip_depth(b, k, c.level.end, k.pos + SKIP_CHUNK_BYTES);
    }
    match step_result(b, c, SKIP_CHUNK_BYTES as int) {
        StepV::Child(ch) => {
            reveal_with_fuel(skip_run, 2);
            lemma_fresh_node_wf(b, c.level);
            lemma_push_child_wf(b, n, fresh_node(b, ch), n1.cursor->0);
        },
        StepV::Done => {
            assert(n1.children == n.children);
        },
        StepV::Yield => {
            assert(n1.children == n.children);
        },
    }
}

/// The node `n` with one more child, and its cursor behind that child.
pub proof fn lemma_push_child_wf(b: Seq<u8>, n: NodeV, c: NodeV, cursor: CursorV)
    requires
        node_wf(b, n),
        n.has_children,
        node_wf(b, c),
        !c.jsonl,
        cursor_wf(b, cursor),
        cursor.level.index == n.children.len() + 1,
        cursor.level.lines == n.jsonl,
    ensures
        node_wf(b, NodeV { children: n.children.push(c), cursor: Some(cursor), ..n }),
{
    let m = NodeV { children: n.children.push(c), cursor: Some(cursor), ..n };
    assert forall|i: int| 0 <= i < m.children.len() implies !(#[trigger] m.children[i]).jsonl
        && node_wf(b, m.children[i]) by {
        if i < n.children.len() {
            assert(m.children[i] == n.children[i]);
        }
    }
}

/// The node `n` with another child in the place of number `i`.
pub proof fn lemma_replace_child_wf(b: Seq<u8>, n: NodeV, i: int, c: NodeV)
    requires
        node_wf(b, n),
        node_wf(b, c),
        !c.jsonl,
        0 <= i < n.children.len(),
    ensures
        node_wf(b, NodeV { children: n.children.update(i, c), ..n }),
{
    let m = NodeV { children: n.children.update(i, c), ..n };
    assert forall|k: int| 0 <= k < m.children.len() implies !(#[trigger] m.children[k]).jsonl
        && node_wf(b, m.children[k]) by {
        if k != i {
            assert(m.children[k] == n.children[k]);
        }
    }
}

/// Scanning more children of a node changes nothing but what is scanned.
pub open spec fn same_but_scanned(n: NodeV, m: NodeV) -> bool {
    &&& m == (NodeV { done: m.done, children: m.children, cursor: m.cursor, ..n })
    &&& n.children.len() <= m.children.len()
    &&& m.children.take(n.children.len() as int) == n.children
    &&& n.cursor is None ==> m.cursor is None
}

pub proof fn lemma_scanned_to_keeps(b: Seq<u8>, n: NodeV, i: int)
    ensures
        same_but_scanned(n, scanned_to(b, n, i)),
    decreases i + 1 - n.children.len(),
{
    let m = scanned_to(b, n, i);
    assert(n.children.take(n.children.len() as int) =~= n.children);
    if n.children.len() <= i && n.cursor is Some {
        let c = n.cursor->0;
        if let Some(ch) = next_child(b, c.level) {
            let n1 = NodeV {
                children: n.children.push(fresh_node(b, ch)),
                cursor: Some(after_next(b, c)),
                ..n
            };
            lemma_scanned_to_keeps(b, n1, i);
            assert(m.children.take(n.children.len() as int) =~= m.children.take(
                n1.children.len() as int,
            ).take(n.children.len() as int));
            assert(n1.children.take(n.children.len() as int) =~= n.children);
        }
    }
}

pub proof fn lemma_fetched_keeps(b: Seq<u8>, n: NodeV, i: int, patience: nat)
    ensures
        same_but_scanned(n, fetched(b, n, i, patience).0),
        fetched(b, n, i, patience).1 is Ready ==> i < fetched(b, n, i, patience).0.children.len(),
    decreases i + 1 - n.children.len(), patience,
{
    let m = fetched(b, n, i, patience).0;
    assert(n.children.take(n.children.len() as int) =~= n.children);
    if n.children.len() <= i && n.cursor is Some {
        let n1 = stepped(b, n);
        match step_result(b, n.cursor->0, SKIP_CHUNK_BYTES as int) {
            StepV::Child(ch) => {
                lemma_fetched_keeps(b, n1, i, patience);
                assert(m.children.take(n.children.len() as int) =~= m.children.take(
                    n1.children.len() as int,
                ).take(n.children.len() as int));
                assert(n1.children.take(n.children.len() as int) =~= n.children);
            },
            StepV::Done => {},
            StepV::Yield => if patience > 0 {
                lemma_fetched_keeps(b, n1, i, (patience - 1) as nat);
            },
        }
    }
}

impl Node {
    /// This node over the buffer `b`.
    pub open spec fn model(&self, b: Seq<u8>) -> NodeV
        decreases self,
    {
        NodeV {
            label: self.label@,
            start: self.start as int,
            end: self.end as int,
            end_exact: self.end_exact,
            kind: self.kind,
            is_index: self.is_index,
            jsonl: self.jsonl,
            has_children: self.has_children,
            expanded: self.expanded,
            done: self.done,
            children: Seq::new(
                self.children@.len(),
                |i: int|
                    if 0 <= i < self.children@.len() {
                        self.children@[i].model(b)
                    } else {
                        arbitrary()
                    },
            ),
            cursor: match self.cursor {
                None => None,
                Some(c) => Some(c.model(b)),
            },
        }
    }

    pub open spec fn wf(&self, b: Seq<u8>) -> bool {
        node_wf(b, self.model(b))
    }

    pub fn is_container(&self) -> (r: bool)
        ensures
            r == self.kind.is_container(),
    {
        self.kind.is_container()
    }

    /// The right child cursor for this node: a line stream for the NDJSON root,
    /// otherwise a normal bracketed-container cursor.
    pub fn make_cursor(&self) -> (r: Cursor)
        requires
            self.start < usize::MAX,
        ensures
            forall|b: Seq<u8>| #[trigger] r.model(b) == fresh_cursor(self.model(b)),
    {
        if self.jsonl {
            Cursor::lines(self.start, self.end)
        } else {
            Cursor::new(self.start, self.end, matches!(self.kind, Kind::Array))
        }
    }

    fn from_raw(rc: RawChild, b: &[u8]) -> (r: Node)
        requires
            rc.start < usize::MAX,
        ensures
            r.model(b@) == fresh_node(b@, rc@),
    {
        // `container_empty` only reads just past the opener, so a provisional
        // (over-long) `end` is harmless here.
        let has = rc.kind.is_container() && !container_empty(b, rc.start, rc.end);
        let r = Node {
            label: rc.label,
            start: rc.start,
            end: rc.end,
            end_exact: rc.end_exact,
            kind: rc.kind,
            is_index: rc.is_index,
            jsonl: false,
            has_children: has,
            expanded: false,
            done: false,
            children: Vec::new(),
            cursor: None,
        };
        assert(r.model(b@).children =~= Seq::empty());
        r
    }

    pub fn toggle(&mut self)
        requires
            old(self).start < usize::MAX,
        ensures
            forall|b: Seq<u8>| #[trigger] final(self).model(b) == toggled(old(self).model(b)),
    {
        if !self.is_container() || !self.has_children {
            return;
        }
        self.expanded = !self.expanded;
        // Set up the child cursor on first expand only; collapse keeps the cursor
        // and already-scanned children so re-expand resumes instead of rescanning.
        if self.expanded && self.cursor.is_none() && self.children.len() == 0 && !self.done {
            self.cursor = Some(Box::new(self.make_cursor()));
        }
        proof {
            assert forall|b: Seq<u8>| #[trigger] self.model(b) == toggled(old(self).model(b)) by {
                assert(self.model(b).children =~= old(self).model(b).children);
            }
        }
    }

    /// Ensure `children[i]` exists, scanning more from the cursor if needed.
    /// Eager: an unfinished scan over the previous child is done in one go (used
    /// by jumps, goto and search, which must reach a specific node now).
    pub fn ensure_child(&mut self, b: &[u8], i: usize)
        requires
            old(self).wf(b@),
        ensures
            final(self).wf(b@),
            final(self).model(b@) == scanned_to(b@, old(self).model(b@), i as int),
    {
        let ghost n0 = self.model(b@);
        while self.children.len() <= i
            invariant_except_break
                scanned_to(b@, self.model(b@), i as int) == scanned_to(b@, n0, i as int),
            invariant
                self.wf(b@),
            ensures
                self.model(b@) == scanned_to(b@, n0, i as int),
            decreases i + 1 - self.children@.len(),
        {
            let ghost n = self.model(b@);
            proof {
                if let Some(c) = n.cursor {
                    lemma_next_child(b@, c.level);
                    if next_child(b@, c.level) is Some {
                        lemma_fresh_node_wf(b@, c.level);
                        lemma_push_child_wf(
                            b@,
                            n,
                            fresh_node(b@, next_child(b@, c.level)->0),
                            after_next(b@, c),
                        );
                    }
                }
            }
            let nx = match &mut self.cursor {
                Some(c) => c.next(b),
                None => None,
            };
            match nx {
                Some(rc) => {
                    let kid = Node::from_raw(rc, b);
                    self.children.push(kid);
                    assert(self.model(b@).children =~= n.children.push(kid.model(b@)));
                },
                None => {
                    self.done = true;
                    assert(self.model(b@).children =~= n.children);
                    break;
                },
            }
        }
    }

    /// Cooperative `ensure_child`: drive the cursor in resumable chunks until
    /// `children[i]` exists or `deadline` passes. Returns `Ready` (available),
    /// `Done` (level ended before `i`), or `Busy` (deadline hit mid skip; call
    /// again next frame, the cursor keeps its place). This is what lets a huge
    /// level (or a giant value standing between two on-screen rows) flatten a
    /// frame's worth at a time instead of blocking.
    ///
    /// The count handed back is how many times the clock was found short of the
    /// deadline; it determines the outcome.
    pub(crate) fn ensure_child_until(&mut self, b: &[u8], i: usize, deadline: Instant) -> (r: (
        EnsureChild,
        Ghost<nat>,
    ))
        requires
            old(self).wf(b@),
        ensures
            final(self).wf(b@),
            forall|more: nat|
                !(r.0 is Busy) || more == 0 ==> #[trigger] fetched_after(
                    b@,
                    old(self).model(b@),
                    i as int,
                    r.1@,
                    more,
                ) == (final(self).model(b@), r.0.model(), more),
    {
        let ghost n0 = self.model(b@);
        let ghost mut polls: nat = 0;
        while self.children.len() <= i
            invariant
                self.wf(b@),
                n0 == old(self).model(b@),
                forall|more: nat|
                    #[trigger] fetched_after(b@, n0, i as int, polls, more) == fetched(
                        b@,
                        self.model(b@),
                        i as int,
                        more,
                    ),
            decreases i + 1 - self.children@.len(), skip_left(self.model(b@)),
        {
            let ghost n = self.model(b@);
            proof {
                if let Some(c) = n.cursor {
                    lemma_next_child(b@, c.level);
                    lemma_stepped_wf(b@, n);
                }
            }
            let step = match &mut self.cursor {
                None => {
                    return (EnsureChild::Done, Ghost(polls));
                },
                Some(c) => c.step(b, SKIP_CHUNK_BYTES),
            };
            match step {
                Step::Child(rc) => {
                    let kid = Node::from_raw(rc, b);
                    self.children.push(kid);
                    assert(self.model(b@).children =~= stepped(b@, n).children);
                    assert(self.model(b@) == stepped(b@, n));
                },
                Step::Done => {
                    self.done = true;
                    assert(self.model(b@).children =~= n.children);
                    assert(self.model(b@) == stepped(b@, n));
                    return (EnsureChild::Done, Ghost(polls));
                },
                Step::Yield => {
                    assert(self.model(b@).children =~= n.children);
                    assert(self.model(b@) == stepped(b@, n));
                    // Out of frame time with the skip in flight, or time left to
                    // keep stepping the same skip.
                    if deadline_passed(deadline) {
                        return (EnsureChild::Busy, Ghost(polls));
                    }
                    proof {
                        let before = polls;
                        polls = polls + 1;
                        assert forall|more: nat|
                            #[trigger] fetched_after(b@, n0, i as int, polls, more) == fetched(
                                b@,
                                self.model(b@),
                                i as int,
                                more,
                            ) by {
                            assert(fetched_after(b@, n0, i as int, before, more + 1) == fetched(
                                b@,
                                n,
                                i as int,
                                more + 1,
                            ));
                        }
                    }
                },
            }
        }
        (EnsureChild::Ready, Ghost(polls))
    }
}

// ---------------------------------------------------------------------------
// Previews
// ---------------------------------------------------------------------------
pub open spec fn display_end(start: int, end: int) -> int {
    if end <= start + PREVIEW_DECODE_BYTES {
        end
    } else {
        start + PREVIEW_DECODE_BYTES
    }
}

/// Upper bound for a display decode: never touch more than `PREVIEW_DECODE_BYTES`
/// past `start`, so a giant string or number isn't fully decoded just to show a
/// truncated preview of it.
pub fn decode_cap(start: usize, end: usize) -> (r: usize)
    ensures
        r == display_end(start as int, end as int),
{
    if end <= start || end - start <= PREVIEW_DECODE_BYTES {
        end
    } else {
        start + PREVIEW_DECODE_BYTES
    }
}

/// The first `n` characters of `s`, with an ellipsis where more follow.
pub fn truncate(s: &str, n: usize) -> (r: String)
    ensures
        r@ == cut(s@, n as int),
{
    let cs = chars_of(s);
    if cs.len() <= n {
        s.to_owned()
    } else {
        let mut t = string_of(cs.as_slice(), 0, n);
        t.push('…');
        t
    }
}

/// A scalar shown in at most `width` characters: a string in quotes, anything
/// else as it is written.
pub open spec fn scalar_text(
    b: Seq<u8>,
    start: int,
    end: int,
    kind: Kind,
    width: int,
) -> Seq<char> {
    let e = display_end(start, end);
    if kind is Str {
        "\""@ + cut(decoded(b, start, e), width) + "\""@
    } else {
        cut(text_of(b.subrange(start, e)), width)
    }
}

fn scalar_string(b: &[u8], start: usize, end: usize, kind: Kind, width: usize) -> (r: String)
    requires
        value_range(b@, start as int, end as int, kind),
        !kind.is_container(),
    ensures
        r@ == scalar_text(b@, start as int, end as int, kind, width as int),
{
    let e: usize = decode_cap(start, end);
    if matches!(kind, Kind::Str) {
        between("\"", truncate(decode_str(b, start, e).as_str(), width).as_str(), "\"")
    } else {
        truncate(text_from(vstd::slice::slice_subrange(b, start, e)).as_str(), width)
    }
}

/// A value shown on one level: nested containers collapse to `{…}`/`[…]`.
pub open spec fn brief_text(b: Seq<u8>, start: int, end: int, kind: Kind) -> Seq<char> {
    match kind {
        Kind::Object => if empty_container(b, start, end) {
            "{}"@
        } else {
            "{…}"@
        },
        Kind::Array => if empty_container(b, start, end) {
            "[]"@
        } else {
            "[…]"@
        },
        _ => scalar_text(b, start, end, kind, BRIEF_WIDTH as int),
    }
}

/// A brief one-level rendering of the value in a byte range: what a parent's
/// preview and a table cell show. At most `PREVIEW_DECODE_BYTES` are decoded,
/// the text is truncated to `BRIEF_WIDTH`, and containers never descend.
pub fn brief_value(b: &[u8], start: usize, end: usize, kind: Kind) -> (r: String)
    requires
        value_range(b@, start as int, end as int, kind),
    ensures
        r@ == brief_text(b@, start as int, end as int, kind),
{
    match kind {
        Kind::Object => if container_empty(b, start, end) {
            "{}".to_owned()
        } else {
            "{…}".to_owned()
        },
        Kind::Array => if container_empty(b, start, end) {
            "[]".to_owned()
        } else {
            "[…]".to_owned()
        },
        _ => scalar_string(b, start, end, kind, BRIEF_WIDTH),
    }
}

/// [`brief_value`] of a scanned child.
fn brief(b: &[u8], rc: &RawChild) -> (r: String)
    requires
        value_range(b@, rc.start as int, rc.end as int, rc.kind),
    ensures
        r@ == brief_text(b@, rc@.start, rc@.end, rc@.kind),
{
    brief_value(b, rc.start, rc.end, rc.kind)
}

/// One child in its parent's preview: the value, behind its key in an object.
pub open spec fn preview_part(b: Seq<u8>, c: ChildV, arr: bool) -> Seq<char> {
    let v = brief_text(b, c.start, c.end, c.kind);
    if arr {
        v
    } else {
        c.label + ": "@ + v
    }
}

/// The parts of a preview that follow `parts`, and whether anything is left out:
/// more children than fit, or one behind a value too big to step over.
pub open spec fn preview_parts(
    b: Seq<u8>,
    c: CursorV,
    arr: bool,
    parts: Seq<Seq<char>>,
) -> (Seq<Seq<char>>, bool)
    decreases PREVIEW_ITEMS - parts.len(),
{
    let r = step_result(b, c, PREVIEW_SKIP_BUDGET as int);
    if parts.len() >= PREVIEW_ITEMS {
        (parts, !(r is Done))
    } else {
        match r {
            StepV::Child(ch) => preview_parts(
                b,
                after_step(b, c, PREVIEW_SKIP_BUDGET as int),
                arr,
                parts.push(preview_part(b, ch, arr)),
            ),
            StepV::Yield => (parts, true),
            StepV::Done => (parts, false),
        }
    }
}

/// A collapsed container on one line, e.g. `{ version: "0.3.2", deps: {…}, … }`.
pub open spec fn collapsed_text(b: Seq<u8>, n: NodeV) -> Seq<char> {
    let arr = n.kind is Array;
    let open = if arr { "["@ } else { "{"@ };
    let close = if arr { "]"@ } else { "}"@ };
    let (parts, more) = preview_parts(b, fresh_cursor(n), arr, Seq::empty());
    if parts.len() == 0 {
        open + close
    } else {
        let body = if more {
            joined(parts, ", "@) + ", …"@
        } else {
            joined(parts, ", "@)
        };
        cut(open + " "@ + body + " "@ + close, PREVIEW_WIDTH as int)
    }
}

/// The value text of a node's row.
pub open spec fn preview_text(b: Seq<u8>, n: NodeV) -> Seq<char> {
    if !n.kind.is_container() {
        scalar_text(b, n.start, n.end, n.kind, SCALAR_WIDTH as int)
    } else if !n.has_children {
        if n.kind is Array {
            "[]"@
        } else {
            "{}"@
        }
    } else if n.expanded {
        if n.kind is Array {
            "["@
        } else {
            "{"@
        }
    } else {
        collapsed_text(b, n)
    }
}

impl Node {
    /// The value text shown after the label. Collapsed containers get a real
    /// one-line preview of their first few children; expanded ones get the
    /// opening brace; scalars get their (truncated) literal.
    pub fn preview(&self, b: &[u8]) -> (r: String)
        requires
            self.wf(b@),
        ensures
            r@ == preview_text(b@, self.model(b@)),
    {
        match self.kind {
            Kind::Object | Kind::Array => {
                let arr = matches!(self.kind, Kind::Array);
                if !self.has_children {
                    if arr {
                        "[]".to_owned()
                    } else {
                        "{}".to_owned()
                    }
                } else if self.expanded {
                    if arr {
                        "[".to_owned()
                    } else {
                        "{".to_owned()
                    }
                } else {
                    self.collapsed_preview(b)
                }
            },
            _ => scalar_string(b, self.start, self.end, self.kind, SCALAR_WIDTH),
        }
    }

    /// Scan the first few children of a collapsed container and render them
    /// inline. Uses a fresh cursor, capped at `PREVIEW_ITEMS`, with a small budget
    /// per sibling: if reaching the next child would mean skipping a value bigger
    /// than `PREVIEW_SKIP_BUDGET`, it stops with `…` rather than blocking.
    fn collapsed_preview(&self, b: &[u8]) -> (r: String)
        requires
            self.wf(b@),
            self.kind.is_container(),
        ensures
            r@ == collapsed_text(b@, self.model(b@)),
    {
        let arr = matches!(self.kind, Kind::Array);
        let open = if arr {
            "["
        } else {
            "{"
        };
        let close = if arr {
            "]"
        } else {
            "}"
        };
        let mut cur = self.make_cursor();
        let mut parts: Vec<String> = Vec::new();
        let mut more = false;
        let ghost whole = preview_parts(b@, cur.model(b@), arr, Seq::empty());
        assert(texts(parts@) =~= Seq::<Seq<char>>::empty());
        loop
            invariant_except_break
                parts@.len() <= PREVIEW_ITEMS,
                cur.wf(b@),
                cur.model(b@).level.index == parts@.len(),
                whole == preview_parts(b@, cur.model(b@), arr, texts(parts@)),
                !more,
            ensures
                whole == (texts(parts@), more),
            decreases PREVIEW_ITEMS - parts@.len(),
        {
            proof {
                lemma_next_child(b@, cur.model(b@).level);
            }
            if parts.len() == PREVIEW_ITEMS {
                // A next child behind a big value counts as "more" without
                // paying for the skip.
                more = match cur.step(b, PREVIEW_SKIP_BUDGET) {
                    Step::Done => false,
                    _ => true,
                };
                break;
            }
            match cur.step(b, PREVIEW_SKIP_BUDGET) {
                Step::Child(rc) => {
                    let v = brief(b, &rc);
                    let ghost before = texts(parts@);
                    let part = if arr {
                        v
                    } else {
                        between(rc.label.as_str(), ": ", v.as_str())
                    };
                    parts.push(part);
                    assert(texts(parts@) =~= before.push(part@));
                },
                // The next sibling is behind a value too big to scan for a preview.
                Step::Yield => {
                    more = true;
                    break;
                },
                Step::Done => {
                    break;
                },
            }
        }
        if parts.len() == 0 {
            let mut s = open.to_owned();
            s.push_str(close);
            return s;
        }
        let mut body = join_strings(parts.as_slice(), ", ");
        if more {
            body.push_str(", …");
        }
        let mut s = between(open, " ", body.as_str());
        s.push_str(" ");
        s.push_str(close);
        truncate(s.as_str(), PREVIEW_WIDTH)
    }
}

/// Outcome of a cooperative child scan (see [`Node::ensure_child_until`]).
pub(crate) enum EnsureChild {
    /// `children[i]` is available.
    Ready,
    /// The deadline was hit mid-skip: repaint and resume next frame.
    Busy,
    /// The level ended before index `i`.
    Done,
}

impl EnsureChild {
    pub(crate) open spec fn model(self) -> FetchV {
        match self {
            EnsureChild::Ready => FetchV::Ready,
            EnsureChild::Busy => FetchV::Busy,
            EnsureChild::Done => FetchV::Done,
        }
    }
}

// ---------------------------------------------------------------------------
// Paths
// ---------------------------------------------------------------------------
/// Whether `path` leads through scanned children only.
pub open spec fn reachable(n: NodeV, path: Seq<usize>) -> bool
    decreases path.len(),
{
    path.len() == 0 || path[0] < n.children.len() && reachable(
        n.children[path[0] as int],
        path.skip(1),
    )
}

/// The node that `path` leads to.
pub open spec fn node_at(n: NodeV, path: Seq<usize>) -> NodeV
    decreases path.len(),
{
    if path.len() == 0 {
        n
    } else {
        node_at(n.children[path[0] as int], path.skip(1))
    }
}

/// The tree `n` with `c` in the place that `path` leads to.
pub open spec fn grafted(n: NodeV, path: Seq<usize>, c: NodeV) -> NodeV
    decreases path.len(),
{
    if path.len() == 0 {
        c
    } else {
        let i = path[0] as int;
        NodeV {
            children: n.children.update(i, grafted(n.children[i], path.skip(1), c)),
            ..n
        }
    }
}

pub fn get<'a>(n: &'a Node, path: &[usize]) -> (r: &'a Node)
    requires
        forall|b: Seq<u8>| #[trigger] reachable(n.model(b), path@),
    ensures
        forall|b: Seq<u8>| #[trigger] r.model(b) == node_at(n.model(b), path@),
{
    let mut at = n;
    let mut k: usize = 0;
    assert(path@.skip(0) =~= path@);
    while k < path.len()
        invariant
            k <= path@.len(),
            forall|b: Seq<u8>| reachable(#[trigger] at.model(b), path@.skip(k as int)),
            forall|b: Seq<u8>|
                node_at(#[trigger] at.model(b), path@.skip(k as int)) == node_at(n.model(b), path@),
        decreases path@.len() - k,
    {
        let ghost rest = path@.skip(k as int);
        let ghost before = at;
        proof {
            assert(rest.skip(1) =~= path@.skip(k + 1));
            assert(reachable(at.model(Seq::empty()), rest));
        }
        at = &at.children[path[k]];
        proof {
            assert forall|b: Seq<u8>| reachable(#[trigger] at.model(b), rest.skip(1)) && node_at(
                at.model(b),
                rest.skip(1),
            ) == node_at(n.model(b), path@) by {
                assert(reachable(before.model(b), rest));
                assert(before.model(b).children[rest[0] as int] == at.model(b));
            }
        }
        k += 1;
    }
    at
}

fn child_mut<'a>(n: &'a mut Node, i: usize) -> (r: &'a mut Node)
    requires
        i < old(n).children@.len(),
    ensures
        *r == old(n).children@[i as int],
        forall|b: Seq<u8>|
            {
                let m = #[trigger] final(n).model(b);
                let m0 = old(n).model(b);
                &&& m == (NodeV { children: m.children, ..m0 })
                &&& m.children =~= m0.children.update(i as int, final(r).model(b))
            },
{
    &mut n.children[i]
}

pub fn get_mut<'a>(n: &'a mut Node, path: &[usize]) -> (r: &'a mut Node)
    requires
        forall|b: Seq<u8>| #[trigger] reachable(old(n).model(b), path@),
    ensures
        forall|b: Seq<u8>| #[trigger] r.model(b) == node_at(old(n).model(b), path@),
        forall|b: Seq<u8>| #[trigger]
            final(n).model(b) == grafted(old(n).model(b), path@, final(r).model(b)),
    decreases path@.len(),
{
    if path.len() == 0 {
        n
    } else {
        let i: usize = path[0];
        let rest: &[usize] = vstd::slice::slice_subrange(path, 1, path.len());
        assert(rest@ =~= path@.skip(1));
        proof {
            assert(reachable(n.model(Seq::empty()), path@));
            assert forall|b: Seq<u8>| #[trigger] reachable(
                n.children@[i as int].model(b),
                rest@,
            ) by {
                assert(reachable(n.model(b), path@));
            }
        }
        get_mut(child_mut(n, i), rest)
    }
}

/// A container that can be expanded, expanded.
pub open spec fn opened(n: NodeV) -> NodeV {
    if n.kind.is_container() && n.has_children && !n.expanded {
        toggled(n)
    } else {
        n
    }
}

pub proof fn lemma_toggled_wf(b: Seq<u8>, n: NodeV)
    requires
        node_wf(b, n),
    ensures
        node_wf(b, toggled(n)),
        toggled(n).jsonl == n.jsonl,
{
    let m = toggled(n);
    assert(m.children == n.children);
}

/// The tree `n` with every node above the one at `path` expanded and scanned so
/// far that `path` leads somewhere.
pub open spec fn expanded_to(b: Seq<u8>, n: NodeV, path: Seq<usize>) -> NodeV
    decreases path.len(),
{
    if path.len() == 0 || path.len() > MAX_DEPTH {
        n
    } else {
        let i = path[0] as int;
        let m = scanned_to(b, opened(n), i);
        if i < m.children.len() {
            NodeV {
                children: m.children.update(i, expanded_to(b, m.children[i], path.skip(1))),
                ..m
            }
        } else {
            m
        }
    }
}

/// Expand every ancestor of `path` (scanning children up to each step) so the
/// target node becomes reachable in the flattened rows. The target itself is
/// left as-is: only the chain above it is opened.
pub fn expand_to(n: &mut Node, b: &[u8], path: &[usize])
    requires
        old(n).wf(b@),
    ensures
        final(n).wf(b@),
        final(n).jsonl == old(n).jsonl,
        final(n).model(b@) == expanded_to(b@, old(n).model(b@), path@),
    decreases path@.len(),
{
    // The recursion is as deep as the path is long; cap it so that a deep path
    // can't fault the stack.
    if path.len() == 0 || path.len() > MAX_DEPTH {
        return;
    }
    proof {
        lemma_toggled_wf(b@, n.model(b@));
    }
    if n.is_container() && n.has_children && !n.expanded {
        n.toggle();
    }
    let i: usize = path[0];
    let ghost n1 = n.model(b@);
    n.ensure_child(b, i);
    proof {
        lemma_scanned_to_keeps(b@, n1, i as int);
    }
    if i < n.children.len() {
        let ghost m = n.model(b@);
        let rest: &[usize] = vstd::slice::slice_subrange(path, 1, path.len());
        assert(rest@ =~= path@.skip(1));
        assert(!m.children[i as int].jsonl && node_wf(b@, m.children[i as int]));
        expand_to(&mut n.children[i], b, rest);
        proof {
            let kid = n.model(b@).children[i as int];
            assert(n.model(b@).children =~= m.children.update(i as int, kid));
            lemma_replace_child_wf(b@, m, i as int, kid);
        }
    }
}

/// Whether the document has a node at `path`, once every node above it is opened and
/// scanned so far.
pub open spec fn arrives(b: Seq<u8>, n: NodeV, path: Seq<usize>) -> bool
    decreases path.len(),
{
    path.len() == 0 || {
        let i = path[0] as int;
        let m = scanned_to(b, opened(n), i);
        i < m.children.len() && arrives(b, m.children[i], path.skip(1))
    }
}

/// The tree `n` with the node at `path` and every node above it expanded. Where there
/// is no such node nothing is: what had to be scanned to find out stays scanned.
pub open spec fn expanded_at(b: Seq<u8>, n: NodeV, path: Seq<usize>) -> NodeV
    decreases path.len(),
{
    if path.len() == 0 {
        opened(n)
    } else {
        let i = path[0] as int;
        let m = scanned_to(b, opened(n), i);
        let w = if i < m.children.len() {
            NodeV {
                children: m.children.update(i, expanded_at(b, m.children[i], path.skip(1))),
                ..m
            }
        } else {
            m
        };
        if arrives(b, n, path) {
            w
        } else {
            NodeV { expanded: n.expanded, ..w }
        }
    }
}

/// Re-expand the node at `path`, opening (and scanning) each ancestor as needed.
/// A no-op if the path isn't reachable yet (data hasn't arrived for it).
pub fn set_expanded(root: &mut Node, b: &[u8], path: &[usize])
    requires
        old(root).wf(b@),
    ensures
        final(root).wf(b@),
        final(root).jsonl == old(root).jsonl,
        final(root).model(b@) == expanded_at(b@, old(root).model(b@), path@),
{
    open_at(root, b, path);
}

/// Expand the node at `path` and every node above it, if it is there. Returns whether
/// it is.
fn open_at(root: &mut Node, b: &[u8], path: &[usize]) -> (r: bool)
    requires
        old(root).wf(b@),
    ensures
        final(root).wf(b@),
        final(root).jsonl == old(root).jsonl,
        final(root).model(b@) == expanded_at(b@, old(root).model(b@), path@),
        r == arrives(b@, old(root).model(b@), path@),
    decreases path@.len(),
{
    let ghost n0 = root.model(b@);
    proof {
        lemma_toggled_wf(b@, n0);
    }
    let was = root.expanded;
    if root.is_container() && root.has_children && !root.expanded {
        root.toggle();
    }
    if path.len() == 0 {
        return true;
    }
    let i: usize = path[0];
    let ghost n1 = root.model(b@);
    root.ensure_child(b, i);
    proof {
        lemma_scanned_to_keeps(b@, n1, i as int);
    }
    let mut found = false;
    if i < root.children.len() {
        let ghost m = root.model(b@);
        let rest: &[usize] = vstd::slice::slice_subrange(path, 1, path.len());
        assert(rest@ =~= path@.skip(1));
        assert(!m.children[i as int].jsonl && node_wf(b@, m.children[i as int]));
        found = open_at(&mut root.children[i], b, rest);
        proof {
            let kid = root.model(b@).children[i as int];
            assert(root.model(b@).children =~= m.children.update(i as int, kid));
            lemma_replace_child_wf(b@, m, i as int, kid);
        }
    }
    if !found {
        let ghost w = root.model(b@);
        root.expanded = was;
        proof {
            assert(root.model(b@).children =~= w.children);
        }
    }
    found
}

// ---------------------------------------------------------------------------
// Roots
// ---------------------------------------------------------------------------
/// A root, expanded where it has children.
pub open spec fn root_node(
    label: Seq<char>,
    start: int,
    end: int,
    end_exact: bool,
    kind: Kind,
    jsonl: bool,
    has_children: bool,
) -> NodeV {
    toggled(
        NodeV {
            label,
            start,
            end,
            end_exact,
            kind,
            is_index: false,
            jsonl,
            has_children,
            expanded: false,
            done: false,
            children: Seq::empty(),
            cursor: None,
        },
    )
}

/// The root of the document in `b`: its first value, an empty root where there
/// is none yet, or with `jsonl` an array of all its values.
pub open spec fn document_root(b: Seq<u8>, name: Seq<char>, jsonl: bool) -> NodeV {
    let first = ws_end(b, 0, b.len() as int);
    let len = b.len() as int;
    if jsonl {
        root_node(name, 0, len, false, Kind::Array, true, first < len)
    } else if first >= len {
        root_node(name, first, len, false, Kind::Null, false, false)
    } else {
        let kind = kind_of(b[first]);
        root_node(
            name,
            first,
            len,
            false,
            kind,
            false,
            kind.is_container() && !empty_container(b, first, len),
        )
    }
}

fn new_root(
    label: String,
    start: usize,
    end: usize,
    end_exact: bool,
    kind: Kind,
    jsonl: bool,
    has_children: bool,
    Ghost(b): Ghost<Seq<u8>>,
) -> (r: Node)
    requires
        value_range(b, start as int, end as int, kind),
        kind.is_container() || !has_children,
        jsonl ==> kind is Array,
    ensures
        r.wf(b),
        r.jsonl == jsonl,
        r.model(b) == root_node(
            label@,
            start as int,
            end as int,
            end_exact,
            kind,
            jsonl,
            has_children,
        ),
{
    let mut root = Node {
        label,
        start,
        end,
        end_exact,
        kind,
        is_index: false,
        jsonl,
        has_children,
        expanded: false,
        done: false,
        children: Vec::new(),
        cursor: None,
    };
    proof {
        assert(root.model(b).children =~= Seq::empty());
        lemma_toggled_wf(b, root.model(b));
    }
    root.toggle();
    root
}

/// Build the root node for a buffer, for a document that is complete and for one
/// that is still growing alike. The root is expanded when it has children.
pub fn make_root(b: &[u8], name: &str, jsonl: bool) -> (r: Node)
    requires
        addressable(b@),
    ensures
        r.wf(b@),
        r.jsonl == jsonl,
        r.model(b@) == document_root(b@, name@, jsonl),
{
    let first: usize = skip_ws(b, 0, b.len());
    if jsonl {
        // A synthetic array root spanning the whole buffer, with at least one
        // document if there's any non-whitespace.
        return new_root(
            name.to_owned(),
            0,
            b.len(),
            false,
            Kind::Array,
            true,
            first < b.len(),
            Ghost(b@),
        );
    }
    if first >= b.len() {
        // Empty or whitespace-only input, or a stream with no data yet: show an
        // empty root.
        return new_root(
            name.to_owned(),
            first,
            b.len(),
            false,
            Kind::Null,
            false,
            false,
            Ghost(b@),
        );
    }
    // The root spans to the end of the buffer; the scanner stops at the real closer.
    let kind = value_kind(b, first);
    let has = kind.is_container() && !container_empty(b, first, b.len());
    new_root(name.to_owned(), first, b.len(), false, kind, false, has, Ghost(b@))
}

/// Build a pane root over the byte range `[start, end)` of an existing node (the
/// focused node of the pane being split). Unlike `make_root` this is a real
/// bounded container, so its cursor stops at the node's own closer.
pub fn make_subroot(b: &[u8], label: String, start: usize, end: usize, kind: Kind) -> (r: Node)
    requires
        value_range(b@, start as int, end as int, kind),
    ensures
        r.wf(b@),
        !r.jsonl,
        r.model(b@) == root_node(
            label@,
            start as int,
            end as int,
            true,
            kind,
            false,
            kind.is_container() && !empty_container(b@, start as int, end as int),
        ),
{
    let has = kind.is_container() && !container_empty(b, start, end);
    new_root(label, start, end, true, kind, false, has, Ghost(b@))
}

pub open spec fn path_views(paths: Seq<Vec<usize>>) -> Seq<Seq<usize>> {
    Seq::new(paths.len(), |i: int| paths[i]@)
}

/// The paths of the expanded nodes in `n` that can be seen, parents before
/// children, where `path` leads to `n`.
pub open spec fn expanded_paths(n: NodeV, path: Seq<usize>) -> Seq<Seq<usize>>
    decreases n, n.children.len() + 1,
{
    if n.expanded {
        seq![path] + expanded_paths_from(n, path, 0)
    } else {
        Seq::empty()
    }
}

pub open spec fn expanded_paths_from(n: NodeV, path: Seq<usize>, i: int) -> Seq<Seq<usize>>
    decreases n, n.children.len() - i,
{
    if 0 <= i < n.children.len() {
        expanded_paths(n.children[i], path.push(i as usize)) + expanded_paths_from(n, path, i + 1)
    } else {
        Seq::empty()
    }
}

/// Collect the index paths of every expanded container in the tree, parents
/// before children. Used to carry expansion state across a streaming re-parse.
pub fn collect_expanded(node: &Node, path: &mut Vec<usize>, out: &mut Vec<Vec<usize>>)
    ensures
        final(path)@ == old(path)@,
        forall|b: Seq<u8>|
            path_views(final(out)@) == path_views(old(out)@) + #[trigger] expanded_paths(
                node.model(b),
                old(path)@,
            ),
    decreases node,
{
    let ghost out0 = path_views(out@);
    let ghost path0 = path@;
    if !node.expanded {
        assert(out0 + Seq::<Seq<usize>>::empty() =~= out0);
        return;
    }
    out.push(path.clone());
    assert(path_views(out@) =~= out0 + seq![path0]);
    let mut i: usize = 0;
    proof {
        assert forall|b: Seq<u8>|
            path_views(out@) + expanded_paths_from(#[trigger] node.model(b), path0, 0) == out0
                + expanded_paths(node.model(b), path0) by {
            assert(out0 + seq![path0] + expanded_paths_from(node.model(b), path0, 0) =~= out0 + (
            seq![path0] + expanded_paths_from(node.model(b), path0, 0)));
        }
    }
    while i < node.children.len()
        invariant
            i <= node.children@.len(),
            path@ == path0,
            forall|b: Seq<u8>|
                path_views(out@) + expanded_paths_from(#[trigger] node.model(b), path0, i as int)
                    == out0 + expanded_paths(node.model(b), path0),
        decreases node.children@.len() - i,
    {
        let ghost out1 = path_views(out@);
        path.push(i);
        collect_expanded(&node.children[i], path, out);
        path.pop();
        proof {
            assert(path@ =~= path0);
            assert forall|b: Seq<u8>|
                path_views(out@) + expanded_paths_from(#[trigger] node.model(b), path0, i + 1)
                    == out0 + expanded_paths(node.model(b), path0) by {
                let n = node.model(b);
                let sub = expanded_paths(node.children@[i as int].model(b), path0.push(i));
                assert(n.children[i as int] == node.children@[i as int].model(b));
                assert(path_views(out@) == out1 + sub);
                assert(out1 + sub + expanded_paths_from(n, path0, i + 1) =~= out1 + (sub
                    + expanded_paths_from(n, path0, i + 1)));
            }
        }
        i += 1;
    }
    proof {
        assert forall|b: Seq<u8>|
            path_views(out@) == out0 + #[trigger] expanded_paths(node.model(b), path0) by {
            let n = node.model(b);
            assert(path_views(out@) + expanded_paths_from(n, path0, i as int) =~= path_views(out@));
        }
    }
}

/// Count a container's direct children by scanning them (bounded only by the
/// data). `None` for a scalar. Backs the `c` key: "how big is this?" without
/// expanding a possibly-huge level.
pub fn count_children(node: &Node, b: &[u8]) -> (r: Option<usize>)
    requires
        node.wf(b@),
    ensures
        match r {
            Some(n) => node.kind.is_container() && n == children_from(
                b@,
                fresh_cursor(node.model(b@)).level,
            ).len(),
            None => !node.kind.is_container(),
        },
{
    if !node.jsonl && !node.is_container() {
        return None;
    }
    let mut cur = node.make_cursor();
    let ghost s0 = cur.model(b@).level;
    let mut n: usize = 0;
    loop
        invariant
            node.kind.is_container(),
            s0 == fresh_cursor(node.model(b@)).level,
            cur.wf(b@),
            cur.model(b@).level.index == n,
            n + children_from(b@, cur.model(b@).level).len() == children_from(b@, s0).len(),
        decreases usize::MAX - n,
    {
        let ghost s = cur.model(b@).level;
        proof {
            lemma_next_child(b@, s);
        }
        if cur.next(b).is_none() {
            return Some(n);
        }
        n += 1;
    }
}

/// The labels on the way down `path`, as far as it leads.
pub open spec fn crumbs(n: NodeV, path: Seq<usize>) -> Seq<(Seq<char>, bool)>
    decreases path.len(),
{
    if path.len() == 0 || path[0] >= n.children.len() {
        Seq::empty()
    } else {
        let c = n.children[path[0] as int];
        seq![(c.label, c.is_index)] + crumbs(c, path.skip(1))
    }
}

/// The label/is-index pairs from the root down to `path`, for the focus
/// breadcrumb and split-pane titles.
pub fn breadcrumb_segments(root: &Node, path: &[usize]) -> (out: Vec<(String, bool)>)
    ensures
        forall|b: Seq<u8>|
            segment_views(out@) == #[trigger] crumbs(root.model(b), path@),
{
    let mut out: Vec<(String, bool)> = Vec::new();
    let mut n = root;
    let mut k: usize = 0;
    proof {
        assert(path@.skip(0) =~= path@);
        assert forall|b: Seq<u8>| segment_views(out@) + crumbs(#[trigger] n.model(b), path@.skip(0))
            == crumbs(root.model(b), path@) by {
            assert(segment_views(out@) + crumbs(n.model(b), path@) =~= crumbs(n.model(b), path@));
        }
    }
    while k < path.len()
        invariant
            k <= path@.len(),
            forall|b: Seq<u8>|
                segment_views(out@) + crumbs(#[trigger] n.model(b), path@.skip(k as int)) == crumbs(
                    root.model(b),
                    path@,
                ),
        decreases path@.len() - k,
    {
        let i: usize = path[k];
        let ghost rest = path@.skip(k as int);
        if i >= n.children.len() {
            // the path points past what's scanned
            proof {
                assert forall|b: Seq<u8>|
                    segment_views(out@) == #[trigger] crumbs(root.model(b), path@) by {
                    assert(segment_views(out@) + crumbs(n.model(b), rest) =~= segment_views(out@));
                }
            }
            return out;
        }
        let ghost before = segment_views(out@);
        let ghost parent = n;
        n = &n.children[i];
        out.push((n.label.clone(), n.is_index));
        proof {
            assert(rest.skip(1) =~= path@.skip(k + 1));
            let here = (n.label@, n.is_index);
            assert(segment_views(out@) =~= before + seq![here]);
            assert forall|b: Seq<u8>|
                segment_views(out@) + crumbs(#[trigger] n.model(b), path@.skip(k + 1)) == crumbs(
                    root.model(b),
                    path@,
                ) by {
                let c = n.model(b);
                assert(parent.model(b).children[i as int] == c);
                assert(before + crumbs(parent.model(b), rest) == crumbs(root.model(b), path@));
                assert(before + seq![here] + crumbs(c, rest.skip(1)) =~= before + (seq![here]
                    + crumbs(c, rest.skip(1))));
            }
        }
        k += 1;
    }
    proof {
        assert forall|b: Seq<u8>| segment_views(out@) == #[trigger] crumbs(root.model(b), path@) by {
            assert(segment_views(out@) + crumbs(n.model(b), path@.skip(k as int)) =~= segment_views(
                out@,
            ));
        }
    }
    out
}

// ---------------------------------------------------------------------------
// Growth
// ---------------------------------------------------------------------------
/// A node that has the children it has been given, and none to scan.
pub open spec fn fed(n: NodeV) -> bool {
    n.cursor is None && (n.has_children ==> n.children.len() > 0)
}

/// The same value of the document, whatever is scanned or expanded of it.
pub open spec fn same_value(n: NodeV, m: NodeV) -> bool {
    &&& m == (NodeV {
        expanded: m.expanded,
        done: m.done,
        children: m.children,
        cursor: m.cursor,
        ..n
    })
    &&& n.children.len() <= m.children.len()
    &&& fed(n) ==> fed(m)
}

/// Whatever can be reached in the tree `n` can be reached in `m`, and is the same
/// value there.
#[verifier::opaque]
pub open spec fn grown(n: NodeV, m: NodeV) -> bool {
    forall|p: Seq<usize>| #[trigger]
        reachable(n, p) ==> reachable(m, p) && same_value(node_at(n, p), node_at(m, p))
}

pub proof fn lemma_grown_self(n: NodeV)
    ensures
        grown(n, n),
{
    reveal(grown);
}

pub proof fn lemma_grown_reaches(n: NodeV, m: NodeV, p: Seq<usize>)
    requires
        grown(n, m),
        reachable(n, p),
    ensures
        reachable(m, p),
        same_value(node_at(n, p), node_at(m, p)),
{
    reveal(grown);
}

pub proof fn lemma_grown_step(a: NodeV, c: NodeV, d: NodeV)
    requires
        grown(a, c),
        grown(c, d),
    ensures
        grown(a, d),
{
    reveal(grown);
    assert forall|p: Seq<usize>| #[trigger] reachable(a, p) implies reachable(d, p) && same_value(
        node_at(a, p),
        node_at(d, p),
    ) by {
        assert(reachable(c, p));
    }
}

pub proof fn lemma_grown_children(n: NodeV, m: NodeV)
    requires
        same_value(n, m),
        n.children.len() <= m.children.len(),
        forall|k: int| 0 <= k < n.children.len() ==> grown(#[trigger] n.children[k], m.children[k]),
    ensures
        grown(n, m),
{
    reveal(grown);
    assert forall|p: Seq<usize>| #[trigger] reachable(n, p) implies reachable(m, p) && same_value(
        node_at(n, p),
        node_at(m, p),
    ) by {
        if p.len() > 0 {
            let k = p[0] as int;
            assert(grown(n.children[k], m.children[k]));
            assert(reachable(n.children[k], p.skip(1)));
        }
    }
}

/// More children, and the old ones as they were.
pub proof fn lemma_grown_scanned(n: NodeV, m: NodeV)
    requires
        same_value(n, m),
        n.children.len() <= m.children.len(),
        m.children.take(n.children.len() as int) == n.children,
    ensures
        grown(n, m),
{
    assert forall|k: int| 0 <= k < n.children.len() implies grown(
        #[trigger] n.children[k],
        m.children[k],
    ) by {
        assert(m.children.take(n.children.len() as int)[k] == m.children[k]);
        lemma_grown_self(n.children[k]);
    }
    lemma_grown_children(n, m);
}

pub proof fn lemma_grown_child(n: NodeV, i: int, c: NodeV)
    requires
        0 <= i < n.children.len(),
        grown(n.children[i], c),
    ensures
        grown(n, NodeV { children: n.children.update(i, c), ..n }),
{
    let m = NodeV { children: n.children.update(i, c), ..n };
    assert forall|k: int| 0 <= k < n.children.len() implies grown(
        #[trigger] n.children[k],
        m.children[k],
    ) by {
        if k != i {
            lemma_grown_self(n.children[k]);
        }
    }
    lemma_grown_children(n, m);
}

pub proof fn lemma_grown_grafted(n: NodeV, path: Seq<usize>, c: NodeV)
    requires
        reachable(n, path),
        grown(node_at(n, path), c),
    ensures
        grown(n, grafted(n, path, c)),
    decreases path.len(),
{
    if path.len() > 0 {
        let i = path[0] as int;
        lemma_grown_grafted(n.children[i], path.skip(1), c);
        lemma_grown_child(n, i, grafted(n.children[i], path.skip(1), c));
    }
}

pub proof fn lemma_grown_toggled(n: NodeV)
    ensures
        grown(n, toggled(n)),
        grown(n, opened(n)),
{
    let m = toggled(n);
    assert(m.children.take(n.children.len() as int) =~= n.children);
    lemma_grown_scanned(n, m);
    lemma_grown_self(n);
}

pub proof fn lemma_grown_scan(b: Seq<u8>, n: NodeV, i: int)
    ensures
        grown(n, scanned_to(b, n, i)),
{
    lemma_scanned_to_keeps(b, n, i);
    lemma_grown_scanned(n, scanned_to(b, n, i));
}

/// Opening the way to a node loses nothing of the tree.
pub proof fn law_expand_to_keeps_tree(b: Seq<u8>, n: NodeV, path: Seq<usize>)
    ensures
        grown(n, expanded_to(b, n, path)),
    decreases path.len(),
{
    lemma_grown_self(n);
    if 0 < path.len() <= MAX_DEPTH {
        let i = path[0] as int;
        let o = opened(n);
        let m = scanned_to(b, o, i);
        lemma_grown_toggled(n);
        lemma_grown_scan(b, o, i);
        lemma_grown_step(n, o, m);
        if i < m.children.len() {
            let c = expanded_to(b, m.children[i], path.skip(1));
            law_expand_to_keeps_tree(b, m.children[i], path.skip(1));
            lemma_grown_child(m, i, c);
            lemma_grown_step(n, m, NodeV { children: m.children.update(i, c), ..m });
        }
    }
}

// ---------------------------------------------------------------------------
// Laws
// ---------------------------------------------------------------------------
/// Toggling a node twice brings back what was there before, with nothing scanned
/// twice, but for the cursor that the first expansion sets up.
pub proof fn law_toggle_twice(n: NodeV)
    ensures
        toggled(toggled(n)) == (NodeV { cursor: toggled(toggled(n)).cursor, ..n }),
        n.cursor is Some ==> toggled(toggled(n)) == n,
{
}

/// Toggling changes nothing of a scalar or of an empty container.
pub proof fn law_toggle_leaves_leaves(n: NodeV)
    requires
        !n.kind.is_container() || !n.has_children,
    ensures
        toggled(n) == n,
{
}

/// Asking for a child that is there already scans nothing.
pub proof fn law_scan_is_idempotent(b: Seq<u8>, n: NodeV, i: int, j: int)
    requires
        j <= i,
    ensures
        scanned_to(b, scanned_to(b, n, i), j).children == scanned_to(b, n, i).children,
    decreases i + 1 - n.children.len(),
{
    if n.children.len() <= i && n.cursor is Some {
        let c = n.cursor->0;
        if let Some(ch) = next_child(b, c.level) {
            let n1 = NodeV {
                children: n.children.push(fresh_node(b, ch)),
                cursor: Some(after_next(b, c)),
                ..n
            };
            law_scan_is_idempotent(b, n1, i, j);
        } else {
            reveal_with_fuel(scanned_to, 2);
            assert(next_child(b, after_next(b, c).level) is None);
        }
    }
}

/// Whether the node at `path` is there and expanded.
pub open spec fn is_open(n: NodeV, path: Seq<usize>) -> bool {
    reachable(n, path) && node_at(n, path).expanded
}

proof fn lemma_scan_keeps_open(b: Seq<u8>, n: NodeV, i: int, path: Seq<usize>)
    requires
        is_open(n, path),
    ensures
        is_open(scanned_to(b, opened(n), i), path),
{
    let m = scanned_to(b, opened(n), i);
    lemma_scanned_to_keeps(b, opened(n), i);
    if path.len() > 0 {
        let k = path[0] as int;
        assert(m.children.take(n.children.len() as int)[k] == m.children[k]);
    }
}

/// What is reached after a re-expansion is what there is.
proof fn lemma_reached_arrives(b: Seq<u8>, n: NodeV, path: Seq<usize>)
    ensures
        reachable(expanded_at(b, n, path), path) ==> arrives(b, n, path),
    decreases path.len(),
{
    if path.len() > 0 {
        let m = scanned_to(b, opened(n), path[0] as int);
        if path[0] < m.children.len() {
            lemma_reached_arrives(b, m.children[path[0] as int], path.skip(1));
        }
    }
}

/// The children that a scan adds are closed, and nothing is scanned of them.
pub proof fn lemma_scanned_closed(b: Seq<u8>, n: NodeV, i: int)
    ensures
        forall|k: int|
            n.children.len() <= k < scanned_to(b, n, i).children.len() ==> {
                let c = #[trigger] scanned_to(b, n, i).children[k];
                !c.expanded && c.children.len() == 0 && c.cursor is None
            },
        n.cursor is None ==> scanned_to(b, n, i).children == n.children,
    decreases i + 1 - n.children.len(),
{
    if n.children.len() <= i && n.cursor is Some {
        let c = n.cursor->0;
        if let Some(ch) = next_child(b, c.level) {
            let n1 = NodeV {
                children: n.children.push(fresh_node(b, ch)),
                cursor: Some(after_next(b, c)),
                ..n
            };
            lemma_scanned_closed(b, n1, i);
            lemma_scanned_to_keeps(b, n1, i);
            let m = scanned_to(b, n, i);
            let at = n.children.len() as int;
            assert(m.children.take(n1.children.len() as int)[at] == m.children[at]);
        }
    }
}

/// The same paths are open below two nodes from child number `i` on, where the same
/// paths are below each pair of children, and none below those that only one has.
pub proof fn lemma_same_open_from(n: NodeV, m: NodeV, path: Seq<usize>, i: int)
    requires
        0 <= i,
        n.children.len() <= m.children.len(),
        forall|k: int, p: Seq<usize>|
            0 <= k < n.children.len() ==> expanded_paths(n.children[k], p) == #[trigger]
            expanded_paths(m.children[k], p),
        forall|k: int|
            n.children.len() <= k < m.children.len() ==> !(#[trigger] m.children[k]).expanded,
    ensures
        expanded_paths_from(n, path, i) == expanded_paths_from(m, path, i),
    decreases m.children.len() - i,
{
    if i < m.children.len() {
        lemma_same_open_from(n, m, path, i + 1);
        if i < n.children.len() {
            assert(expanded_paths(n.children[i], path.push(i as usize)) == expanded_paths(
                m.children[i],
                path.push(i as usize),
            ));
        } else {
            assert(!m.children[i].expanded);
            assert(expanded_paths(m.children[i], path.push(i as usize)) == Seq::<
                Seq<usize>,
            >::empty());
            assert(expanded_paths_from(n, path, i + 1) == Seq::<Seq<usize>>::empty());
            assert(expanded_paths_from(m, path, i) =~= Seq::<Seq<usize>>::empty());
        }
    }
}

/// Re-expanding a node that is not there opens nothing: the same nodes are open as
/// before.
pub proof fn law_missing_node_opens_nothing(
    b: Seq<u8>,
    n: NodeV,
    path: Seq<usize>,
    at: Seq<usize>,
)
    requires
        !arrives(b, n, path),
    ensures
        expanded_paths(expanded_at(b, n, path), at) == expanded_paths(n, at),
    decreases path.len(),
{
    let e = expanded_at(b, n, path);
    if n.expanded {
        let i = path[0] as int;
        let m = scanned_to(b, n, i);
        lemma_scanned_to_keeps(b, n, i);
        lemma_scanned_closed(b, n, i);
        assert forall|k: int, p: Seq<usize>|
            0 <= k < n.children.len() implies expanded_paths(n.children[k], p) == #[trigger]
        expanded_paths(e.children[k], p) by {
            assert(m.children.take(n.children.len() as int)[k] == m.children[k]);
            if k == i {
                law_missing_node_opens_nothing(b, n.children[k], path.skip(1), p);
            }
        }
        assert forall|k: int| n.children.len() <= k < e.children.len() implies !(
        #[trigger] e.children[k]).expanded by {
            if k == i {
                lemma_missing_stays_closed(b, m.children[k], path.skip(1));
            }
        }
        lemma_same_open_from(n, e, at, 0);
    }
}

proof fn lemma_missing_stays_closed(b: Seq<u8>, n: NodeV, path: Seq<usize>)
    requires
        !arrives(b, n, path),
    ensures
        expanded_at(b, n, path).expanded == n.expanded,
{
}

/// Re-expanding one node collapses no other.
pub proof fn law_re_expansion_keeps_others(
    b: Seq<u8>,
    n: NodeV,
    path: Seq<usize>,
    other: Seq<usize>,
)
    requires
        is_open(n, other),
    ensures
        is_open(expanded_at(b, n, path), other),
    decreases path.len(),
{
    if path.len() > 0 {
        let i = path[0] as int;
        let m = scanned_to(b, opened(n), i);
        lemma_scan_keeps_open(b, n, i, other);
        if i < m.children.len() && other.len() > 0 && other[0] == i {
            law_re_expansion_keeps_others(b, m.children[i], path.skip(1), other.skip(1));
        }
    }
}

/// Re-expanding a node opens it and every node above it, where it is there and
/// has children.
pub proof fn law_re_expansion_opens(b: Seq<u8>, n: NodeV, path: Seq<usize>, k: int)
    requires
        0 <= k <= path.len(),
        reachable(expanded_at(b, n, path), path),
        ({
            let t = node_at(expanded_at(b, n, path), path.take(k));
            t.kind.is_container() && t.has_children
        }),
    ensures
        is_open(expanded_at(b, n, path), path.take(k)),
    decreases path.len(),
{
    let e = expanded_at(b, n, path);
    lemma_reached_arrives(b, n, path);
    if k == 0 {
        assert(path.take(0) =~= Seq::empty());
        if path.len() > 0 {
            lemma_scanned_to_keeps(b, opened(n), path[0] as int);
        }
    } else {
        let i = path[0] as int;
        let m = scanned_to(b, opened(n), i);
        assert(path.take(k).skip(1) =~= path.skip(1).take(k - 1));
        assert(e.children[i] == expanded_at(b, m.children[i], path.skip(1)));
        law_re_expansion_opens(b, m.children[i], path.skip(1), k - 1);
    }
}

/// A tree over a buffer is one over the buffer with more bytes behind it.
pub proof fn law_tree_outlives_growth(n: &Node, a: Seq<u8>, b: Seq<u8>)
    requires
        n.wf(a),
        extends(a, b),
        addressable(b),
    ensures
        n.wf(b),
        n.model(b) == n.model(a),
    decreases n,
{
    let v = n.model(a);
    let w = n.model(b);
    if let Some(c) = n.cursor {
        assert(v.cursor == Some(c.model(a)));
        c.lemma_extends(a, b);
    }
    assert forall|i: int| 0 <= i < n.children@.len() implies (#[trigger] w.children[i])
        == v.children[i] && node_wf(b, w.children[i]) by {
        assert(v.children[i] == n.children@[i].model(a));
        assert(w.children[i] == n.children@[i].model(b));
        law_tree_outlives_growth(&n.children@[i], a, b);
    }
    assert(w.children =~= v.children);
}

/// What a row shows of a scalar: a string in quotes and anything else as it is written, in
/// full up to seventy characters, and else the first seventy and an ellipsis.
pub proof fn law_rows_show_scalars_as_written(b: Seq<u8>, n: NodeV)
    requires
        n.kind == Kind::Str || n.kind == Kind::Number || n.kind == Kind::Bool || n.kind
            == Kind::Null,
        0 <= n.start <= n.end <= n.start + 512,
    ensures
        ({
            let t = if n.kind == Kind::Str {
                decoded(b, n.start, n.end)
            } else {
                text_of(b.subrange(n.start, n.end))
            };
            let shown = if t.len() <= 70 {
                t
            } else {
                t.take(70).push('…')
            };
            preview_text(b, n) == (if n.kind == Kind::Str {
                seq!['"'] + shown + seq!['"']
            } else {
                shown
            })
        }),
{
    reveal_strlit("\"");
    assert("\""@ =~= seq!['"']);
}

/// What a row shows of a container that is open or has nothing in it: its opening bracket,
/// and both its brackets.
pub proof fn law_rows_show_brackets(b: Seq<u8>, n: NodeV)
    requires
        n.expanded || !n.has_children,
    ensures
        n.kind == Kind::Array && n.has_children ==> preview_text(b, n) == seq!['['],
        n.kind == Kind::Object && n.has_children ==> preview_text(b, n) == seq!['{'],
        n.kind == Kind::Array && !n.has_children ==> preview_text(b, n) == seq!['[', ']'],
        n.kind == Kind::Object && !n.has_children ==> preview_text(b, n) == seq!['{', '}'],
{
    reveal_strlit("[");
    reveal_strlit("{");
    reveal_strlit("[]");
    reveal_strlit("{}");
    assert("["@ =~= seq!['[']);
    assert("{"@ =~= seq!['{']);
    assert("[]"@ =~= seq!['[', ']']);
    assert("{}"@ =~= seq!['{', '}']);
}

/// What a cell or a preview shows of a value: a scalar up to twenty-four characters, and of a
/// container whether there is anything in it.
pub proof fn law_brief_values(b: Seq<u8>, start: int, end: int, kind: Kind)
    requires
        0 <= start <= end <= start + 512,
    ensures
        ({
            let t = if kind == Kind::Str {
                decoded(b, start, end)
            } else {
                text_of(b.subrange(start, end))
            };
            let shown = if t.len() <= 24 {
                t
            } else {
                t.take(24).push('…')
            };
            let empty = empty_container(b, start, end);
            brief_text(b, start, end, kind) == match kind {
                Kind::Object => if empty {
                    seq!['{', '}']
                } else {
                    seq!['{', '…', '}']
                },
                Kind::Array => if empty {
                    seq!['[', ']']
                } else {
                    seq!['[', '…', ']']
                },
                Kind::Str => seq!['"'] + shown + seq!['"'],
                _ => shown,
            }
        }),
{
    reveal_strlit("\"");
    reveal_strlit("[]");
    reveal_strlit("{}");
    reveal_strlit("[…]");
    reveal_strlit("{…}");
    assert("\""@ =~= seq!['"']);
    assert("[]"@ =~= seq!['[', ']']);
    assert("{}"@ =~= seq!['{', '}']);
    assert("[…]"@ =~= seq!['[', '…', ']']);
    assert("{…}"@ =~= seq!['{', '…', '}']);
}

/// A child as a preview shows it: its value, behind its key where it is a member of an
/// object.
pub open spec fn shown_child(b: Seq<u8>, kind: Kind, c: ChildV) -> Seq<char> {
    if kind == Kind::Array {
        brief_text(b, c.start, c.end, c.kind)
    } else {
        c.label + seq![':', ' '] + brief_text(b, c.start, c.end, c.kind)
    }
}

proof fn lemma_preview_parts(b: Seq<u8>, s: LevelV, kind: Kind, parts: Seq<Seq<char>>)
    requires
        kind == Kind::Array || kind == Kind::Object,
        parts.len() <= 5,
        s.index == parts.len(),
        forall|i: int|
            0 <= i < children_from(b, s).len() ==> !(#[trigger] children_from(
                b,
                s,
            )[i]).kind.is_container(),
    ensures
        ({
            let rest = children_from(b, s);
            let (ps, more) = preview_parts(
                b,
                CursorV { level: s, skipping: None },
                kind is Array,
                parts,
            );
            let room = 5 - parts.len();
            &&& more <==> rest.len() > room
            &&& ps.len() == parts.len() + (if rest.len() < room {
                rest.len() as int
            } else {
                room
            })
            &&& forall|i: int| 0 <= i < parts.len() ==> #[trigger] ps[i] == parts[i]
            &&& forall|i: int|
                parts.len() <= i < ps.len() ==> #[trigger] ps[i] == shown_child(
                    b,
                    kind,
                    rest[i - parts.len()],
                )
        }),
    decreases 5 - parts.len(),
{
    let c = CursorV { level: s, skipping: None };
    let rest = children_from(b, s);
    reveal_strlit(": ");
    assert(": "@ =~= seq![':', ' ']);
    if parts.len() < 5 {
        if let Some(ch) = next_child(b, s) {
            let t = after_child(b, s);
            let tail = children_from(b, t);
            assert(rest[0] == ch);
            assert(rest =~= seq![ch] + tail);
            assert forall|i: int| 0 <= i < tail.len() implies !(
            #[trigger] tail[i]).kind.is_container() by {
                assert(tail[i] == rest[i + 1]);
            }
            let more_parts = parts.push(preview_part(b, ch, kind is Array));
            lemma_preview_parts(b, t, kind, more_parts);
            let ps = preview_parts(b, c, kind is Array, parts).0;
            assert(ps == preview_parts(
                b,
                CursorV { level: t, skipping: None },
                kind is Array,
                more_parts,
            ).0);
            assert forall|i: int| 0 <= i < parts.len() implies #[trigger] ps[i] == parts[i] by {
                assert(ps[i] == more_parts[i]);
            }
            assert forall|i: int| parts.len() <= i < ps.len() implies #[trigger] ps[i]
                == shown_child(b, kind, rest[i - parts.len()]) by {
                if i == parts.len() {
                    assert(ps[i] == more_parts[i]);
                } else {
                    assert(rest[i - parts.len()] == tail[i - more_parts.len()]);
                }
            }
        }
    }
}

/// What a row shows of a closed array or object of scalars: the first five of them between
/// its brackets, with an ellipsis behind them where there are more, in full up to sixty-four
/// characters, and else the first sixty-four and an ellipsis.
pub proof fn law_closed_containers_preview(b: Seq<u8>, n: NodeV)
    requires
        n.kind == Kind::Array || n.kind == Kind::Object,
        n.has_children,
        !n.expanded,
        children_from(b, fresh_cursor(n).level).len() > 0,
        forall|i: int|
            0 <= i < children_from(b, fresh_cursor(n).level).len() ==> !(#[trigger] children_from(
                b,
                fresh_cursor(n).level,
            )[i]).kind.is_container(),
    ensures
        ({
            let cs = children_from(b, fresh_cursor(n).level);
            let k = if cs.len() < 5 {
                cs.len()
            } else {
                5
            };
            let parts = Seq::new(k, |i: int| shown_child(b, n.kind, cs[i]));
            let body = joined(parts, seq![',', ' ']) + (if cs.len() > 5 {
                seq![',', ' ', '…']
            } else {
                Seq::empty()
            });
            let line = if n.kind == Kind::Array {
                seq!['[', ' '] + body + seq![' ', ']']
            } else {
                seq!['{', ' '] + body + seq![' ', '}']
            };
            preview_text(b, n) == (if line.len() <= 64 {
                line
            } else {
                line.take(64).push('…')
            })
        }),
{
    let s = fresh_cursor(n).level;
    let cs = children_from(b, s);
    lemma_preview_parts(b, s, n.kind, Seq::empty());
    reveal_strlit("[");
    reveal_strlit("{");
    reveal_strlit("]");
    reveal_strlit("}");
    reveal_strlit(" ");
    reveal_strlit(", ");
    reveal_strlit(", …");
    assert(", "@ =~= seq![',', ' ']);
    assert(", …"@ =~= seq![',', ' ', '…']);
    let arr = n.kind is Array;
    let (ps, more) = preview_parts(b, fresh_cursor(n), arr, Seq::empty());
    let k = if cs.len() < 5 {
        cs.len()
    } else {
        5
    };
    assert(ps =~= Seq::new(k, |i: int| shown_child(b, n.kind, cs[i])));
    let body = joined(ps, seq![',', ' ']) + (if cs.len() > 5 {
        seq![',', ' ', '…']
    } else {
        Seq::empty()
    });
    assert(!more ==> joined(ps, ", "@) =~= body);
    if arr {
        assert("["@ + " "@ + body + " "@ + "]"@ =~= seq!['[', ' '] + body + seq![' ', ']']);
    } else {
        assert("{"@ + " "@ + body + " "@ + "}"@ =~= seq!['{', ' '] + body + seq![' ', '}']);
    }
}

} // verus!
