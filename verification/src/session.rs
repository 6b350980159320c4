//! The workspace: one or more panes side by side, and what a key does to it.

use crate::extract::{end_trimmed, lemma_end_trimmed, trim_end, value_bytes};
use crate::input::{whole, History, HistoryV};
use crate::overlay::{higher, lower};
use crate::pane::{
    focus_node, focus_path, fresh_pane, hits_wf, next_in, next_of, opt_path, opt_text, pane_wf,
    prev_in, prev_of, rerooted, rows_point, rows_point_in, tree_ok, Hits, HitsV, Pane, PaneV,
    WEIGHT_MAX, WEIGHT_MIN,
};
use crate::paths::{join_path, path_title, segment_views};
use crate::program::{Program, TermV};
use crate::scanner::{
    empty_container, law_ended_value_stays, lemma_token_closed, lemma_token_end, lemma_ws_end,
    skip_value, token_end, ws_byte, ws_end, Kind,
};
use crate::text::{between, cut, decimal, decimal_string, joint};
use crate::tree::{
    breadcrumb_segments, crumbs, make_subroot, node_wf, root_node, truncate, value_range, Node,
    NodeV,
};
use vstd::prelude::*;
use vstd::utf8::*;

verus! {

/// A parsed, ready-to-run filter plus the pane range it should evaluate over.
pub struct PendingFilter {
    pub program: Program,
    /// The raw expression, kept for the result pane's title.
    pub expr: String,
    pub start: usize,
    pub end: usize,
    pub kind: Kind,
    pub jsonl: bool,
}

/// The workspace: one or more panes side by side, with `active` receiving keys.
/// Splitting pushes a new pane rooted at the active pane's focused node; closing
/// removes it. All panes share the same bytes, so a split is O(1).
pub struct App {
    pub views: Vec<Pane>,
    pub active: usize,
    /// Pane orientation: false = side by side (columns), true = stacked (rows).
    /// Toggled with `\`.
    pub stacked: bool,
    /// Monotonic source of pane ids (never reused, so links stay unambiguous).
    pub next_id: u64,
    /// Transient status line (e.g. "copied 42 B") shown in the footer until the
    /// next key press. `None` = show the normal key hint.
    pub flash: Option<String>,
    /// True when stdout was redirected (a pipe or file), so `p` can extract the
    /// focused node into it. Into a terminal there's nowhere to pipe, so `p` is a
    /// hint instead.
    pub can_extract: bool,
    /// Set by `p` to the focused node's byte range; the viewer quits and the caller
    /// writes that slice out on the way.
    pub extract: Option<(usize, usize)>,
    /// Set by `p` on a filter-result pane: the byte range of every hit, emitted as
    /// NDJSON (one per line) on the way out.
    pub extract_batch: Option<Vec<(usize, usize)>>,
    /// A filter awaiting launch: stashed by the `|` prompt, consumed by the run
    /// loop (which has the owned bytes the worker needs).
    pub pending_filter: Option<PendingFilter>,
    /// Bytes to be copied to the clipboard: put here by the copy keys, taken by the
    /// run loop.
    pub clipboard: Option<Vec<u8>>,
    /// The paths and the filters submitted this session.
    pub goto_history: History,
    pub filter_history: History,
}

// ---------------------------------------------------------------------------
// The workspace as the contracts speak of it
// ---------------------------------------------------------------------------
pub struct PendingV {
    pub program: Seq<Seq<TermV>>,
    pub expr: Seq<char>,
    pub start: int,
    pub end: int,
    pub kind: Kind,
    pub jsonl: bool,
}

impl PendingFilter {
    pub open spec fn model(&self) -> PendingV {
        PendingV {
            program: self.program@,
            expr: self.expr@,
            start: self.start as int,
            end: self.end as int,
            kind: self.kind,
            jsonl: self.jsonl,
        }
    }
}

pub struct AppV {
    pub views: Seq<PaneV>,
    pub active: int,
    pub stacked: bool,
    pub next_id: int,
    pub flash: Option<Seq<char>>,
    pub can_extract: bool,
    pub extract: Option<(usize, usize)>,
    pub extract_batch: Option<Seq<(usize, usize)>>,
    pub pending_filter: Option<PendingV>,
    pub clipboard: Option<Seq<u8>>,
    pub goto_history: HistoryV,
    pub filter_history: HistoryV,
}

pub open spec fn pane_models(views: Seq<Pane>, b: Seq<u8>) -> Seq<PaneV> {
    Seq::new(views.len(), |i: int| views[i].model(b))
}

impl App {
    pub open spec fn model(&self, b: Seq<u8>) -> AppV {
        AppV {
            views: pane_models(self.views@, b),
            active: self.active as int,
            stacked: self.stacked,
            next_id: self.next_id as int,
            flash: opt_text(self.flash),
            can_extract: self.can_extract,
            extract: self.extract,
            extract_batch: match self.extract_batch {
                Some(v) => Some(v@),
                None => None,
            },
            pending_filter: match self.pending_filter {
                Some(p) => Some(p.model()),
                None => None,
            },
            clipboard: match self.clipboard {
                Some(v) => Some(v@),
                None => None,
            },
            goto_history: self.goto_history@,
            filter_history: self.filter_history@,
        }
    }

    /// A workspace over the buffer `b`: there is a pane that has the keys.
    pub open spec fn wf(&self, b: Seq<u8>) -> bool {
        &&& self.active < self.views@.len()
        &&& panes_wf(self.views@, b)
        &&& linked(pane_models(self.views@, b), self.next_id as int)
        &&& self.pending_filter matches Some(p) ==> value_range(
            b,
            p.start as int,
            p.end as int,
            p.kind,
        )
        &&& self.goto_history.wf()
        &&& self.filter_history.wf()
    }

    /// The rows of every pane point to their nodes, as they do from one frame on.
    pub open spec fn drawn(&self, b: Seq<u8>) -> bool {
        panes_drawn(self.views@, b)
    }
}

#[verifier::opaque]
pub open spec fn panes_wf(views: Seq<Pane>, b: Seq<u8>) -> bool {
    forall|i: int| 0 <= i < views.len() ==> (#[trigger] views[i]).wf(b)
}

#[verifier::opaque]
pub open spec fn panes_drawn(views: Seq<Pane>, b: Seq<u8>) -> bool {
    forall|i: int| 0 <= i < views.len() ==> rows_point((#[trigger] views[i]).model(b))
}

/// Whether a pane has that id.
pub open spec fn is_open(views: Seq<PaneV>, id: u64) -> bool {
    exists|j: int| 0 <= j < views.len() && (#[trigger] views[j]).id == id
}

/// The panes stand in the order in which they were opened; the one that a pane was
/// split from is open and stands before it; the one it previews in is open.
#[verifier::opaque]
pub open spec fn linked(views: Seq<PaneV>, next_id: int) -> bool {
    &&& forall|i: int, j: int|
        0 <= i < j < views.len() ==> (#[trigger] views[i]).id < (#[trigger] views[j]).id
    &&& forall|i: int| 0 <= i < views.len() ==> 0 <= (#[trigger] views[i]).id < next_id
    &&& forall|i: int|
        0 <= i < views.len() ==> ((#[trigger] views[i]).parent matches Some(p) ==> p < views[i].id
            && is_open(views, p))
    &&& forall|i: int|
        0 <= i < views.len() ==> ((#[trigger] views[i]).preview_child matches Some(c) ==> is_open(
            views,
            c,
        ))
}

pub open spec fn same_links(v: PaneV, w: PaneV) -> bool {
    v.id == w.id && v.parent == w.parent && v.preview_child == w.preview_child
}

pub proof fn lemma_linked_update(views: Seq<PaneV>, next_id: int, i: int, v: PaneV)
    requires
        linked(views, next_id),
        0 <= i < views.len(),
        same_links(views[i], v),
    ensures
        linked(views.update(i, v), next_id),
{
    reveal(linked);
    let w = views.update(i, v);
    assert forall|id: u64| is_open(views, id) implies #[trigger] is_open(w, id) by {
        let j = choose|j: int| 0 <= j < views.len() && (#[trigger] views[j]).id == id;
        assert(w[j].id == id);
    }
    assert forall|k: int| 0 <= k < w.len() implies same_links(#[trigger] w[k], views[k]) by {}
    assert forall|k: int, j: int| 0 <= k < j < w.len() implies (#[trigger] w[k]).id < (
    #[trigger] w[j]).id by {
        assert(views[k].id < views[j].id);
    }
    assert forall|k: int| 0 <= k < w.len() implies 0 <= (#[trigger] w[k]).id < next_id by {
        assert(0 <= views[k].id < next_id);
    }
    assert forall|k: int| 0 <= k < w.len() implies ((#[trigger] w[k]).parent matches Some(p) ==> p
        < w[k].id && is_open(w, p)) by {
        assert(views[k].parent matches Some(p) ==> p < views[k].id && is_open(views, p));
    }
    assert forall|k: int| 0 <= k < w.len() implies ((#[trigger] w[k]).preview_child matches Some(c)
        ==> is_open(w, c)) by {
        assert(views[k].preview_child matches Some(c) ==> is_open(views, c));
    }
}

/// A pane opened at the end, split from one that is open.
proof fn lemma_linked_push(views: Seq<PaneV>, next_id: int, i: int, v: PaneV)
    requires
        linked(views, next_id),
        0 <= i < views.len(),
        v.id == next_id,
        v.parent == Some(views[i].id as u64),
        views[i].id <= u64::MAX,
        v.preview_child is None,
    ensures
        linked(views.push(v), next_id + 1),
{
    reveal(linked);
    let w = views.push(v);
    assert(w[i] == views[i]);
    assert(0 <= views[i].id < next_id);
    assert forall|id: u64| is_open(views, id) implies #[trigger] is_open(w, id) by {
        let j = choose|j: int| 0 <= j < views.len() && (#[trigger] views[j]).id == id;
        assert(w[j].id == id);
    }
    assert(w[i].id == (views[i].id as u64));
    assert(is_open(w, views[i].id as u64));
    assert forall|k: int, j: int| 0 <= k < j < w.len() implies (#[trigger] w[k]).id < (
    #[trigger] w[j]).id by {
        assert(0 <= views[k].id < next_id);
    }
    assert forall|k: int| 0 <= k < w.len() implies ((#[trigger] w[k]).parent matches Some(p) ==> p
        < w[k].id && is_open(w, p)) by {
        if k < views.len() {
            assert(views[k].parent matches Some(p) ==> p < views[k].id && is_open(views, p));
        }
    }
    assert forall|k: int| 0 <= k < w.len() implies ((#[trigger] w[k]).preview_child matches Some(c)
        ==> is_open(w, c)) by {
        if k < views.len() {
            assert(views[k].preview_child matches Some(c) ==> is_open(views, c));
        }
    }
}

/// The pane that has the keys.
pub open spec fn active_pane(a: AppV) -> PaneV {
    a.views[a.active]
}

/// The workspace with another pane in the place of the active one.
pub open spec fn with_active(a: AppV, v: PaneV) -> AppV {
    AppV { views: a.views.update(a.active, v), ..a }
}

/// Of two changes of the active pane the second counts.
pub proof fn lemma_active_twice(a: AppV, v: PaneV, w: PaneV)
    requires
        0 <= a.active < a.views.len(),
    ensures
        active_pane(with_active(a, v)) == v,
        with_active(with_active(a, v), w) == with_active(a, w),
        with_active(a, active_pane(a)) == a,
{
    assert(with_active(with_active(a, v), w).views =~= with_active(a, w).views);
    assert(with_active(a, active_pane(a)).views =~= a.views);
}

pub proof fn lemma_panes_at(views: Seq<Pane>, b: Seq<u8>, i: int)
    requires
        0 <= i < views.len(),
    ensures
        panes_wf(views, b) ==> views[i].wf(b),
        panes_drawn(views, b) ==> rows_point(views[i].model(b)),
        pane_models(views, b)[i] == views[i].model(b),
{
    reveal(panes_wf);
    reveal(panes_drawn);
}

pub proof fn lemma_panes_update(views: Seq<Pane>, b: Seq<u8>, i: int, v: Pane)
    requires
        0 <= i < views.len(),
    ensures
        panes_wf(views, b) && v.wf(b) ==> panes_wf(views.update(i, v), b),
        panes_drawn(views, b) && rows_point(v.model(b)) ==> panes_drawn(views.update(i, v), b),
        pane_models(views.update(i, v), b) == pane_models(views, b).update(i, v.model(b)),
{
    reveal(panes_wf);
    reveal(panes_drawn);
    assert(pane_models(views.update(i, v), b) =~= pane_models(views, b).update(i, v.model(b)));
}

proof fn lemma_panes_push(views: Seq<Pane>, b: Seq<u8>, v: Pane)
    ensures
        panes_wf(views, b) && v.wf(b) ==> panes_wf(views.push(v), b),
        panes_drawn(views, b) && rows_point(v.model(b)) ==> panes_drawn(views.push(v), b),
        pane_models(views.push(v), b) == pane_models(views, b).push(v.model(b)),
{
    reveal(panes_wf);
    reveal(panes_drawn);
    assert(pane_models(views.push(v), b) =~= pane_models(views, b).push(v.model(b)));
}

/// Another pane in the place of one, with the same links.
pub proof fn lemma_pane_changed(views: Seq<Pane>, b: Seq<u8>, next_id: int, i: int, v: Pane)
    requires
        0 <= i < views.len(),
        panes_wf(views, b),
        linked(pane_models(views, b), next_id),
        v.wf(b),
        v.links() == views[i].links(),
    ensures
        panes_wf(views.update(i, v), b),
        linked(pane_models(views.update(i, v), b), next_id),
        panes_drawn(views, b) && rows_point(v.model(b)) ==> panes_drawn(views.update(i, v), b),
        pane_models(views.update(i, v), b) == pane_models(views, b).update(i, v.model(b)),
{
    lemma_panes_update(views, b, i, v);
    lemma_linked_update(pane_models(views, b), next_id, i, v.model(b));
}

pub open spec fn empty_history() -> HistoryV {
    HistoryV { entries: Seq::empty(), cursor: None, draft: Seq::empty() }
}

/// A workspace with a single pane.
pub open spec fn fresh_app(v: PaneV) -> AppV {
    AppV {
        views: seq![PaneV { id: 0, ..v }],
        active: 0,
        stacked: false,
        next_id: 1,
        flash: None,
        can_extract: false,
        extract: None,
        extract_batch: None,
        pending_filter: None,
        clipboard: None,
        goto_history: empty_history(),
        filter_history: empty_history(),
    }
}

impl App {
    pub fn single(view: Pane) -> (r: App)
        ensures
            r.views@.len() == 1,
            r.active == 0,
            r.goto_history.wf(),
            r.filter_history.wf(),
            forall|b: Seq<u8>|
                view.wf(b) && view.parent is None && view.preview_child is None
                    ==> #[trigger] r.wf(b),
            forall|b: Seq<u8>| rows_point(view.model(b)) ==> #[trigger] r.drawn(b),
            forall|b: Seq<u8>| #[trigger] r.model(b) == fresh_app(view.model(b)),
    {
        let mut view = view;
        let ghost v0 = view;
        view.id = 0;
        let mut views: Vec<Pane> = Vec::new();
        views.push(view);
        let r = App {
            views,
            active: 0,
            stacked: false,
            next_id: 1,
            flash: None,
            can_extract: false,
            extract: None,
            extract_batch: None,
            pending_filter: None,
            clipboard: None,
            goto_history: History::default(),
            filter_history: History::default(),
        };
        proof {
            reveal(panes_wf);
            let one = r.views@[0];
            assert forall|b: Seq<u8>| #[trigger] r.model(b) == fresh_app(v0.model(b)) by {
                assert(one.model(b) == (PaneV { id: 0, ..v0.model(b) }));
                assert(r.model(b).views =~= fresh_app(v0.model(b)).views);
            }
            assert forall|b: Seq<u8>|
                v0.wf(b) && v0.parent is None && v0.preview_child is None implies #[trigger] r.wf(
                b,
            ) by {
                reveal(linked);
                assert(one.model(b) == (PaneV { id: 0, ..v0.model(b) }));
                assert(one.wf(b));
            }
            assert forall|b: Seq<u8>| rows_point(v0.model(b)) implies #[trigger] r.drawn(b) by {
                reveal(panes_drawn);
                assert(one.model(b) == (PaneV { id: 0, ..v0.model(b) }));
            }
        }
        r
    }

    pub fn active_view(&self) -> (r: &Pane)
        requires
            self.active < self.views@.len(),
        ensures
            *r == self.views@[self.active as int],
    {
        &self.views[self.active]
    }

    pub fn active_mut(&mut self) -> (r: &mut Pane)
        requires
            old(self).active < old(self).views@.len(),
        ensures
            *r == old(self).views@[old(self).active as int],
            final(self).views@ == old(self).views@.update(old(self).active as int, *final(r)),
            *final(self) == (App { views: final(self).views, ..*old(self) }),
    {
        &mut self.views[self.active]
    }

    /// True if any pane's last flatten yielded mid-skip (a huge value still being
    /// stepped over). The run loop then keeps flattening, polling input instead of
    /// blocking, until it clears.
    pub fn flatten_pending(&self) -> (r: bool)
        ensures
            r == exists|i: int|
                0 <= i < self.views@.len() && (#[trigger] self.views@[i]).flatten_incomplete,
    {
        let mut i: usize = 0;
        while i < self.views.len()
            invariant
                i <= self.views@.len(),
                forall|k: int| 0 <= k < i ==> !(#[trigger] self.views@[k]).flatten_incomplete,
            decreases self.views@.len() - i,
        {
            if self.views[i].flatten_incomplete {
                return true;
            }
            i += 1;
        }
        false
    }

    pub fn toggle_layout(&mut self)
        ensures
            *final(self) == (App { stacked: !old(self).stacked, ..*old(self) }),
    {
        self.stacked = !self.stacked;
    }

    /// Each pane's layout weight, in order: the shares that the layout deals out.
    pub fn weights(&self) -> (r: Vec<u16>)
        ensures
            r@ == Seq::new(self.views@.len(), |i: int| self.views@[i].weight),
    {
        let mut out: Vec<u16> = Vec::new();
        let mut i: usize = 0;
        while i < self.views.len()
            invariant
                i <= self.views@.len(),
                out@ == Seq::new(i as nat, |k: int| self.views@[k].weight),
            decreases self.views@.len() - i,
        {
            out.push(self.views[i].weight);
            i += 1;
            assert(out@ =~= Seq::new(i as nat, |k: int| self.views@[k].weight));
        }
        assert(out@ =~= Seq::new(self.views@.len(), |i: int| self.views@[i].weight));
        out
    }

    pub fn next_pane(&mut self)
        requires
            old(self).active < old(self).views@.len(),
        ensures
            *final(self) == (App { active: final(self).active, ..*old(self) }),
            final(self).active < old(self).views@.len(),
            final(self).active == next_in(old(self).active as int, old(self).views@.len() as int),
    {
        self.active = next_of(self.active, self.views.len());
    }

    pub fn prev_pane(&mut self)
        requires
            old(self).active < old(self).views@.len(),
        ensures
            *final(self) == (App { active: final(self).active, ..*old(self) }),
            final(self).active < old(self).views@.len(),
            final(self).active == prev_in(old(self).active as int, old(self).views@.len() as int),
    {
        self.active = prev_of(self.active, self.views.len());
    }
}

// ---------------------------------------------------------------------------
// Copying
// ---------------------------------------------------------------------------
/// Upper bound on a single clipboard copy: the terminal caps how much it will
/// accept, so a longer value is clamped and flagged.
pub const COPY_MAX_BYTES: usize = 0x10_0000;

/// How far the value of a node is looked at for copying: one byte further than is copied,
/// so that a value that ends right at the cap is seen to end there.
pub open spec fn copy_bound(b: Seq<u8>, n: NodeV) -> int {
    lower(lower(n.end, n.start + COPY_MAX_BYTES + 1), b.len() as int)
}

/// Where the value of a node is found to end, or where it is cut off. Its own end may be
/// that of the level it is in.
pub open spec fn copy_end(b: Seq<u8>, n: NodeV) -> int {
    let to = copy_bound(b, n);
    lower(token_end(b, ws_end(b, n.start, to), to), b.len() as int)
}

/// Whether a node's value is too long to be copied whole.
pub open spec fn copy_truncated(b: Seq<u8>, n: NodeV) -> bool {
    copy_end(b, n) > n.start + COPY_MAX_BYTES
}

/// The bytes of a node's value, as they are copied.
pub open spec fn copied_bytes(b: Seq<u8>, n: NodeV) -> Seq<u8> {
    end_trimmed(b.subrange(n.start, lower(copy_end(b, n), n.start + COPY_MAX_BYTES)))
}

/// What the status line says of a copy.
pub open spec fn copy_status(n: int, truncated: bool) -> Seq<char> {
    if truncated {
        "copied "@ + decimal(n as nat) + " B (truncated at 1024 KiB cap)"@
    } else {
        "copied value ("@ + decimal(n as nat) + " B)"@
    }
}

/// The workspace with the focused value on its way to the clipboard.
#[verifier::opaque]
pub open spec fn value_yanked(b: Seq<u8>, a: AppV) -> AppV {
    match focus_node(active_pane(a)) {
        None => AppV { flash: Some("nothing to copy"@), ..a },
        Some(n) => AppV {
            clipboard: Some(copied_bytes(b, n)),
            flash: Some(copy_status(copied_bytes(b, n).len() as int, copy_truncated(b, n))),
            ..a
        },
    }
}

/// The workspace with the path of the focused node on its way to the clipboard.
#[verifier::opaque]
pub open spec fn path_yanked(a: AppV) -> AppV {
    let v = active_pane(a);
    match focus_path(v) {
        None => AppV { flash: Some("nothing to copy"@), ..a },
        Some(p) => {
            let title = path_title(""@, crumbs(v.root, p));
            AppV {
                clipboard: Some(encode_utf8(title)),
                flash: Some("copied path: "@ + title),
                ..a
            }
        },
    }
}

proof fn lemma_ws_end_stays(b: Seq<u8>, i: int, end: int, more: int)
    requires
        end <= more,
        ws_end(b, i, end) < end,
    ensures
        ws_end(b, i, more) == ws_end(b, i, end),
    decreases end - i,
{
    if i < end && ws_byte(b[i]) {
        lemma_ws_end_stays(b, i + 1, end, more);
    }
}

/// What is copied of a value is what is extracted of it, unless it is cut off.
pub proof fn law_copy_is_extract(b: Seq<u8>, n: NodeV)
    requires
        node_wf(b, n),
        !copy_truncated(b, n),
    ensures
        copied_bytes(b, n) == value_bytes(b, n.start, n.end),
{
    let to = copy_bound(b, n);
    let all = lower(n.end, b.len() as int);
    if to < all {
        let w = ws_end(b, n.start, to);
        lemma_ws_end(b, n.start, to);
        lemma_token_end(b, w, to);
        assert(w < to);
        lemma_ws_end_stays(b, n.start, to, all);
        assert(b.take(b.len() as int) =~= b);
        lemma_token_closed(b, w, to);
        law_ended_value_stays(b, b, w, to, all);
    }
}

/// A copy is no longer than the clipboard takes.
pub proof fn law_copy_is_clamped(b: Seq<u8>, n: NodeV)
    requires
        node_wf(b, n),
    ensures
        copied_bytes(b, n).len() <= COPY_MAX_BYTES,
{
    let to = copy_bound(b, n);
    lemma_ws_end(b, n.start, to);
    lemma_token_end(b, ws_end(b, n.start, to), to);
    lemma_end_trimmed(b.subrange(n.start, lower(copy_end(b, n), n.start + COPY_MAX_BYTES)));
}

/// The bytes of a node's value, and whether they are not all.
fn copy_value(node: &Node, b: &[u8]) -> (r: (Vec<u8>, bool))
    requires
        node.wf(b@),
    ensures
        r.0@ == copied_bytes(b@, node.model(b@)),
        r.1 == copy_truncated(b@, node.model(b@)),
{
    let ghost n = node.model(b@);
    let s: usize = node.start;
    // One byte more than is copied: a value that ends right at the cap is whole.
    let bound: usize = if node.end - s > COPY_MAX_BYTES {
        s + COPY_MAX_BYTES + 1
    } else {
        node.end
    };
    let to: usize = if bound <= b.len() {
        bound
    } else {
        b.len()
    };
    assert(to == copy_bound(b@, n));
    let e: usize = skip_value(b, s, to);
    let e: usize = if e <= b.len() {
        e
    } else {
        b.len()
    };
    let truncated = e - s > COPY_MAX_BYTES;
    let z: usize = if truncated {
        s + COPY_MAX_BYTES
    } else {
        e
    };
    // Trim trailing whitespace: the document root's range runs to the end, so it
    // would otherwise carry the file's final newline.
    let cut: usize = trim_end(b, s, z);
    let out: Vec<u8> = vstd::slice::slice_to_vec(vstd::slice::slice_subrange(b, s, cut));
    (out, truncated)
}

impl App {
    /// Copy the focused node's raw JSON (a scalar literal, or a whole subtree) to
    /// the clipboard. Clamped to `COPY_MAX_BYTES`. Leaves a status line.
    pub fn yank_value(&mut self, b: &[u8])
        requires
            old(self).wf(b@),
            old(self).drawn(b@),
        ensures
            final(self).wf(b@),
            final(self).drawn(b@),
            final(self).model(b@) == value_yanked(b@, old(self).model(b@)),
    {
        proof {
            reveal(value_yanked);
            lemma_panes_at(self.views@, b@, self.active as int);
        }
        let copied = match self.active_view().focused_node(b) {
            None => None,
            Some(node) => Some(copy_value(node, b)),
        };
        match copied {
            None => {
                self.flash = Some("nothing to copy".to_owned());
            },
            Some((bytes, truncated)) => {
                let n: usize = bytes.len();
                let count = decimal_string(n as u64);
                self.flash = Some(
                    if truncated {
                        between("copied ", count.as_str(), " B (truncated at 1024 KiB cap)")
                    } else {
                        between("copied value (", count.as_str(), " B)")
                    },
                );
                self.clipboard = Some(bytes);
            },
        }
    }

    /// Copy the path to the focused node (`data.users[3].city`) to the clipboard.
    pub fn yank_path(&mut self, b: &[u8])
        requires
            old(self).wf(b@),
        ensures
            final(self).wf(b@),
            final(self).views == old(self).views,
            final(self).model(b@) == path_yanked(old(self).model(b@)),
    {
        proof {
            reveal(path_yanked);
            lemma_panes_at(self.views@, b@, self.active as int);
        }
        let v = self.active_view();
        let focused = v.focused_path();
        assert(focus_path(v.model(b@)) == opt_path(focused));
        let title = match focused {
            None => None,
            Some(p) => {
                let segs = breadcrumb_segments(&v.root, p.as_slice());
                assert(segment_views(segs@) == crumbs(v.root.model(b@), p@));
                Some(join_path("", segs.as_slice()))
            },
        };
        match title {
            None => {
                self.flash = Some("nothing to copy".to_owned());
            },
            Some(title) => {
                self.clipboard = Some(
                    vstd::slice::slice_to_vec(title.as_str().as_bytes()),
                );
                self.flash = Some(joint("copied path: ", title.as_str()));
            },
        }
    }
}

// ---------------------------------------------------------------------------
// Sizes
// ---------------------------------------------------------------------------
/// The workspace with the active pane one step larger or smaller.
pub open spec fn resized(a: AppV, grow: bool) -> AppV {
    let v = active_pane(a);
    let weight = if grow {
        lower(v.weight + 1, WEIGHT_MAX as int)
    } else {
        higher(v.weight - 1, WEIGHT_MIN as int)
    };
    with_active(a, PaneV { weight, ..v })
}

impl App {
    fn set_weight(&mut self, weight: u16, Ghost(b): Ghost<Seq<u8>>)
        requires
            old(self).wf(b),
            WEIGHT_MIN <= weight <= WEIGHT_MAX,
        ensures
            final(self).wf(b),
            old(self).drawn(b) ==> final(self).drawn(b),
            final(self).model(b) == ({
                let a = old(self).model(b);
                with_active(a, PaneV { weight: weight as int, ..active_pane(a) })
            }),
    {
        let ghost views = self.views@;
        proof {
            lemma_panes_at(views, b, self.active as int);
        }
        let v = self.active_mut();
        v.weight = weight;
        proof {
            let i = self.active as int;
            lemma_pane_changed(views, b, self.next_id as int, i, self.views@[i]);
        }
    }

    pub fn grow_active(&mut self, b: &[u8])
        requires
            old(self).wf(b@),
        ensures
            final(self).wf(b@),
            old(self).drawn(b@) ==> final(self).drawn(b@),
            final(self).model(b@) == resized(old(self).model(b@), true),
    {
        proof {
            lemma_panes_at(self.views@, b@, self.active as int);
        }
        let w: u16 = self.active_view().weight;
        self.set_weight(
            if w < WEIGHT_MAX {
                w + 1
            } else {
                WEIGHT_MAX
            },
            Ghost(b@),
        );
    }

    pub fn shrink_active(&mut self, b: &[u8])
        requires
            old(self).wf(b@),
        ensures
            final(self).wf(b@),
            old(self).drawn(b@) ==> final(self).drawn(b@),
            final(self).model(b@) == resized(old(self).model(b@), false),
    {
        proof {
            lemma_panes_at(self.views@, b@, self.active as int);
        }
        let w: u16 = self.active_view().weight;
        self.set_weight(
            if w > WEIGHT_MIN {
                w - 1
            } else {
                WEIGHT_MIN
            },
            Ghost(b@),
        );
    }
}

// ---------------------------------------------------------------------------
// Opening panes
// ---------------------------------------------------------------------------
/// The number of the first pane with that id, from number `i` on.
pub open spec fn id_index(views: Seq<PaneV>, id: u64, i: int) -> Option<int>
    decreases views.len() - i,
{
    if i >= views.len() {
        None
    } else if views[i].id == id {
        Some(i)
    } else {
        id_index(views, id, i + 1)
    }
}

/// What a pane split off at the focused node is made of: its root and its title.
/// Only a container that holds something is split off. A title is chained to that
/// of a pane that was split off itself.
#[verifier::opaque]
pub open spec fn child_root(b: Seq<u8>, v: PaneV) -> Option<(NodeV, Seq<char>)> {
    match focus_node(v) {
        None => None,
        Some(n) => if n.kind.is_container() && n.has_children {
            let base = if v.derived {
                v.name
            } else {
                ""@
            };
            let end = if n.end_exact {
                n.end
            } else {
                let to = lower(n.end, b.len() as int);
                token_end(b, ws_end(b, n.start, to), to)
            };
            let has = n.kind.is_container() && !empty_container(b, n.start, end);
            Some(
                (
                    root_node(n.label, n.start, end, true, n.kind, false, has),
                    path_title(base, crumbs(v.root, focus_path(v)->0)),
                ),
            )
        } else {
            None
        },
    }
}

/// A pane opened from the active one.
pub open spec fn opened_pane(a: AppV, v: PaneV) -> PaneV {
    PaneV { id: a.next_id, parent: Some(active_pane(a).id as u64), ..v }
}

/// A new pane at the focused node, which has the keys. Nothing happens on a scalar
/// or an empty container.
pub open spec fn split_off(b: Seq<u8>, a: AppV) -> AppV {
    match child_root(b, active_pane(a)) {
        None => a,
        Some((root, origin)) => AppV {
            views: a.views.push(opened_pane(a, fresh_pane(root, origin, true))),
            active: a.views.len() as int,
            next_id: a.next_id + 1,
            ..a
        },
    }
}

/// The preview pane of the active pane at the focused node: the one it has, rooted
/// anew, or else a new one. The active pane keeps the keys.
pub open spec fn previewed(b: Seq<u8>, a: AppV) -> AppV {
    match child_root(b, active_pane(a)) {
        None => a,
        Some((root, origin)) => {
            let at = match active_pane(a).preview_child {
                Some(c) => id_index(a.views, c, 0),
                None => None,
            };
            match at {
                Some(i) => AppV {
                    views: a.views.update(i, rerooted(a.views[i], root, origin)),
                    ..a
                },
                None => AppV {
                    views: a.views.push(opened_pane(a, fresh_pane(root, origin, true))).update(
                        a.active,
                        PaneV { preview_child: Some(a.next_id as u64), ..active_pane(a) },
                    ),
                    next_id: a.next_id + 1,
                    ..a
                },
            }
        },
    }
}

/// A fresh pane over a tree of the buffer is one of the buffer, and has no rows yet.
proof fn lemma_fresh_pane(b: Seq<u8>, root: NodeV, name: Seq<char>)
    requires
        node_wf(b, root),
    ensures
        pane_wf(b, fresh_pane(root, name, true)),
        rows_point(fresh_pane(root, name, true)),
{
    reveal(tree_ok);
    reveal(rows_point_in);
}

proof fn lemma_rerooted_pane(b: Seq<u8>, v: PaneV, root: NodeV, name: Seq<char>)
    requires
        pane_wf(b, v),
        node_wf(b, root),
    ensures
        pane_wf(b, rerooted(v, root, name)),
        rows_point(rerooted(v, root, name)),
{
    reveal(tree_ok);
    reveal(rows_point_in);
}

impl App {
    /// The number of the pane with that id.
    pub fn index_of(&self, id: u64) -> (r: Option<usize>)
        ensures
            r matches Some(i) ==> i < self.views@.len() && self.views@[i as int].id == id,
            forall|b: Seq<u8>|
                match #[trigger] id_index(pane_models(self.views@, b), id, 0) {
                    Some(i) => r == Some(i as usize) && i == i as usize,
                    None => r is None,
                },
    {
        let mut i: usize = 0;
        while i < self.views.len()
            invariant
                i <= self.views@.len(),
                forall|b: Seq<u8>|
                    #[trigger] id_index(pane_models(self.views@, b), id, 0) == id_index(
                        pane_models(self.views@, b),
                        id,
                        i as int,
                    ),
            decreases self.views@.len() - i,
        {
            if self.views[i].id == id {
                return Some(i);
            }
            i += 1;
        }
        None
    }

    /// The root and the title of a child pane at the active pane's focused node.
    /// `None` if that node isn't a non-empty container.
    pub fn make_child_root(&self, b: &[u8]) -> (r: Option<(Node, String)>)
        requires
            self.wf(b@),
            self.drawn(b@),
        ensures
            match child_root(b@, active_pane(self.model(b@))) {
                Some((root, origin)) => r matches Some(x) && x.0.model(b@) == root && x.0.wf(b@)
                    && x.1@ == origin,
                None => r is None,
            },
    {
        proof {
            reveal(child_root);
            lemma_panes_at(self.views@, b@, self.active as int);
        }
        let src = self.active_view();
        let node = match src.focused_node(b) {
            None => {
                return None;
            },
            Some(node) => node,
        };
        if !node.is_container() || !node.has_children {
            return None;
        }
        let path = src.rows[src.focus].path.clone();
        assert(focus_path(src.model(b@)) == Some(path@)) by {
            assert(src.model(b@).rows[src.focus as int] == src.rows@[src.focus as int]@);
        }
        let segs = breadcrumb_segments(&src.root, path.as_slice());
        assert(segment_views(segs@) == crumbs(src.root.model(b@), path@));
        let origin = join_path(
            if src.derived {
                src.name.as_str()
            } else {
                ""
            },
            segs.as_slice(),
        );
        // The new root is a bounded container, so it needs the node's true end:
        // `node.end` may be provisional (running to the parent's bound). Pay the
        // one-shot skip to the real closer here; display and scroll never need it.
        let end: usize = if node.end_exact {
            node.end
        } else {
            let to: usize = if node.end <= b.len() {
                node.end
            } else {
                b.len()
            };
            skip_value(b, node.start, to)
        };
        let root = make_subroot(b, node.label.clone(), node.start, end, node.kind);
        Some((root, origin))
    }

    /// Put a new pane at the end, split from the active one.
    fn open_pane(&mut self, view: Pane, Ghost(b): Ghost<Seq<u8>>)
        requires
            old(self).wf(b),
            old(self).next_id < u64::MAX,
            view.wf(b),
            view.preview_child is None,
        ensures
            final(self).wf(b),
            old(self).drawn(b) && rows_point(view.model(b)) ==> final(self).drawn(b),
            final(self).model(b) == ({
                let a = old(self).model(b);
                AppV {
                    views: a.views.push(opened_pane(a, view.model(b))),
                    next_id: a.next_id + 1,
                    ..a
                }
            }),
    {
        let ghost views = self.views@;
        let ghost models = pane_models(views, b);
        let mut view = view;
        let ghost v0 = view;
        view.id = self.next_id;
        view.parent = Some(self.active_view().id);
        proof {
            lemma_panes_at(views, b, self.active as int);
            let m = view.model(b);
            assert(m == (PaneV { id: m.id, parent: m.parent, ..v0.model(b) }));
            lemma_panes_push(views, b, view);
            lemma_linked_push(models, self.next_id as int, self.active as int, m);
        }
        self.next_id = self.next_id + 1;
        self.views.push(view);
    }

    /// Split: open a new child pane rooted at the active pane's focused node and
    /// switch to it. The child links back to the parent, so closing the parent
    /// closes it too. No-op on a scalar or empty node.
    pub fn split_active(&mut self, b: &[u8])
        requires
            old(self).wf(b@),
            old(self).drawn(b@),
            old(self).next_id < u64::MAX,
        ensures
            final(self).wf(b@),
            final(self).drawn(b@),
            final(self).model(b@) == split_off(b@, old(self).model(b@)),
    {
        let ghost a = self.model(b@);
        if let Some((root, origin)) = self.make_child_root(b) {
            proof {
                lemma_fresh_pane(b@, root.model(b@), origin@);
            }
            let v = Pane::with_root(root, origin, true);
            self.open_pane(v, Ghost(b@));
            assert(self.model(b@).views.len() == a.views.len() + 1);
            self.active = self.views.len() - 1;
        }
    }

    /// Open-or-replace: re-root the active pane's preview child at the focused node
    /// (opening one the first time), and stay on the parent so you can keep
    /// browsing with a live detail pane. No-op on a scalar or empty node.
    pub fn preview_active(&mut self, b: &[u8])
        requires
            old(self).wf(b@),
            old(self).drawn(b@),
            old(self).next_id < u64::MAX,
        ensures
            final(self).wf(b@),
            final(self).drawn(b@),
            final(self).model(b@) == previewed(b@, old(self).model(b@)),
    {
        let ghost a = self.model(b@);
        let (root, origin) = match self.make_child_root(b) {
            None => {
                return;
            },
            Some(r) => r,
        };
        proof {
            lemma_panes_at(self.views@, b@, self.active as int);
            lemma_fresh_pane(b@, root.model(b@), origin@);
        }
        let existing = match self.active_view().preview_child {
            Some(c) => self.index_of(c),
            None => None,
        };
        assert(existing is Some == (match active_pane(a).preview_child {
            Some(c) => id_index(a.views, c, 0),
            None => None,
        } is Some));
        match existing {
            Some(i) => self.reuse_preview(i, root, origin, Ghost(b@)),
            None => self.open_preview(root, origin, Ghost(b@)),
        }
    }

    fn reuse_preview(&mut self, i: usize, root: Node, origin: String, Ghost(b): Ghost<Seq<u8>>)
        requires
            old(self).wf(b),
            old(self).drawn(b),
            i < old(self).views@.len(),
            root.wf(b),
        ensures
            final(self).wf(b),
            final(self).drawn(b),
            final(self).model(b) == ({
                let a = old(self).model(b);
                AppV {
                    views: a.views.update(
                        i as int,
                        rerooted(a.views[i as int], root.model(b), origin@),
                    ),
                    ..a
                }
            }),
    {
        let ghost views = self.views@;
        proof {
            lemma_panes_at(views, b, i as int);
            lemma_rerooted_pane(b, views[i as int].model(b), root.model(b), origin@);
        }
        let v = &mut self.views[i];
        v.reroot(root, origin);
        proof {
            assert(self.views@ =~= views.update(i as int, self.views@[i as int]));
            lemma_pane_changed(views, b, self.next_id as int, i as int, self.views@[i as int]);
        }
    }

    fn open_preview(&mut self, root: Node, origin: String, Ghost(b): Ghost<Seq<u8>>)
        requires
            old(self).wf(b),
            old(self).drawn(b),
            old(self).next_id < u64::MAX,
            root.wf(b),
        ensures
            final(self).wf(b),
            final(self).drawn(b),
            final(self).model(b) == ({
                let a = old(self).model(b);
                let v = opened_pane(a, fresh_pane(root.model(b), origin@, true));
                AppV {
                    views: a.views.push(v).update(
                        a.active,
                        PaneV { preview_child: Some(a.next_id as u64), ..active_pane(a) },
                    ),
                    next_id: a.next_id + 1,
                    ..a
                }
            }),
    {
        proof {
            lemma_fresh_pane(b, root.model(b), origin@);
        }
        let id: u64 = self.next_id;
        let v = Pane::with_root(root, origin, true);
        self.open_pane(v, Ghost(b));
        self.link_preview(id, Ghost(b));
    }

    fn link_preview(&mut self, id: u64, Ghost(b): Ghost<Seq<u8>>)
        requires
            old(self).wf(b),
            old(self).drawn(b),
            old(self).model(b).views.last().id == id,
        ensures
            final(self).wf(b),
            final(self).drawn(b),
            final(self).model(b) == ({
                let a = old(self).model(b);
                with_active(a, PaneV { preview_child: Some(id), ..active_pane(a) })
            }),
    {
        let ghost views = self.views@;
        let ghost models = pane_models(views, b);
        proof {
            lemma_panes_at(views, b, self.active as int);
            assert(models[models.len() - 1].id == id);
            assert(is_open(models, id));
        }
        let v = self.active_mut();
        v.preview_child = Some(id);
        proof {
            let w = self.views@[self.active as int];
            assert(w.model(b) == (PaneV {
                preview_child: Some(id),
                ..models[self.active as int]
            }));
            lemma_panes_update(views, b, self.active as int, w);
            lemma_linked_preview(models, self.next_id as int, self.active as int, id);
        }
    }
}

/// A pane given a preview pane that is open.
proof fn lemma_linked_preview(views: Seq<PaneV>, next_id: int, i: int, id: u64)
    requires
        linked(views, next_id),
        0 <= i < views.len(),
        is_open(views, id),
    ensures
        linked(views.update(i, PaneV { preview_child: Some(id), ..views[i] }), next_id),
{
    reveal(linked);
    let w = views.update(i, PaneV { preview_child: Some(id), ..views[i] });
    assert forall|id: u64| is_open(views, id) implies #[trigger] is_open(w, id) by {
        let j = choose|j: int| 0 <= j < views.len() && (#[trigger] views[j]).id == id;
        assert(w[j].id == id);
    }
    assert forall|k: int, j: int| 0 <= k < j < w.len() implies (#[trigger] w[k]).id < (
    #[trigger] w[j]).id by {
        assert(views[k].id < views[j].id);
    }
    assert forall|k: int| 0 <= k < w.len() implies 0 <= (#[trigger] w[k]).id < next_id by {
        assert(0 <= views[k].id < next_id);
    }
    assert forall|k: int| 0 <= k < w.len() implies ((#[trigger] w[k]).parent matches Some(p) ==> p
        < w[k].id && is_open(w, p)) by {
        assert(views[k].parent matches Some(p) ==> p < views[k].id && is_open(views, p));
    }
    assert forall|k: int| 0 <= k < w.len() implies ((#[trigger] w[k]).preview_child matches Some(c)
        ==> is_open(w, c)) by {
        assert(views[k].preview_child matches Some(c) ==> is_open(views, c));
    }
}

// ---------------------------------------------------------------------------
// Closing panes
// ---------------------------------------------------------------------------
/// Whether pane number `k` is pane number `top`, or was split from one that
/// descends from it.
pub open spec fn descends(views: Seq<PaneV>, top: int, k: int) -> bool
    decreases k,
{
    k == top || match views[k].parent {
        None => false,
        Some(p) => match id_index(views, p, 0) {
            None => false,
            Some(j) => 0 <= j < k && descends(views, top, j),
        },
    }
}

/// The numbers of the first `n` panes that do not descend from pane number `top`.
pub open spec fn survivors(views: Seq<PaneV>, top: int, n: int) -> Seq<int>
    decreases n,
{
    if n <= 0 {
        Seq::empty()
    } else if descends(views, top, n - 1) {
        survivors(views, top, n - 1)
    } else {
        survivors(views, top, n - 1).push(n - 1)
    }
}

pub open spec fn picked(views: Seq<PaneV>, at: Seq<int>) -> Seq<PaneV> {
    Seq::new(at.len(), |i: int| views[at[i]])
}

/// A pane among those that are left: its link to a preview pane that is closed goes.
pub open spec fn unlinked(left: Seq<PaneV>, v: PaneV) -> PaneV {
    match v.preview_child {
        Some(c) => if id_index(left, c, 0) is None {
            PaneV { preview_child: None, ..v }
        } else {
            v
        },
        None => v,
    }
}

pub open spec fn all_unlinked(left: Seq<PaneV>) -> Seq<PaneV> {
    Seq::new(left.len(), |i: int| unlinked(left, left[i]))
}

/// The panes that are left when the active pane is closed with its descendants.
pub open spec fn left_open(a: AppV) -> Seq<PaneV> {
    picked(a.views, survivors(a.views, a.active, a.views.len() as int))
}

/// The active pane closed with every pane that descends from it, unless that would
/// be all of them. The pane it was split from gets the keys.
pub open spec fn closed_active(a: AppV) -> (AppV, bool) {
    let left = left_open(a);
    if left.len() == 0 {
        (a, false)
    } else {
        let kept = lower(a.active, left.len() - 1);
        (
            AppV {
                views: all_unlinked(left),
                active: match active_pane(a).parent {
                    Some(p) => match id_index(left, p, 0) {
                        Some(i) => i,
                        None => kept,
                    },
                    None => kept,
                },
                ..a
            },
            true,
        )
    }
}

proof fn lemma_survivors(views: Seq<PaneV>, top: int, n: int)
    requires
        0 <= n <= views.len(),
    ensures
        ({
            let at = survivors(views, top, n);
            &&& forall|i: int|
                0 <= i < at.len() ==> 0 <= (#[trigger] at[i]) < n && !descends(views, top, at[i])
            &&& forall|i: int, j: int| 0 <= i < j < at.len() ==> #[trigger] at[i] < #[trigger] at[j]
            &&& forall|k: int|
                0 <= k < n && !descends(views, top, k) ==> exists|i: int|
                    0 <= i < at.len() && #[trigger] at[i] == k
            &&& at.len() <= n
        }),
    decreases n,
{
    if n > 0 {
        lemma_survivors(views, top, n - 1);
        let before = survivors(views, top, n - 1);
        let at = survivors(views, top, n);
        if !descends(views, top, n - 1) {
            assert forall|k: int| 0 <= k < n && !descends(views, top, k) implies exists|i: int|
                0 <= i < at.len() && #[trigger] at[i] == k by {
                if k == n - 1 {
                    assert(at[at.len() - 1] == k);
                } else {
                    let i = choose|i: int| 0 <= i < before.len() && #[trigger] before[i] == k;
                    assert(at[i] == k);
                }
            }
        }
    }
}

/// The number of a pane with an id is where the search for it ends.
proof fn lemma_id_index(views: Seq<PaneV>, next_id: int, id: u64, i: int, from: int)
    requires
        linked(views, next_id),
        0 <= from <= i < views.len(),
        views[i].id == id,
    ensures
        id_index(views, id, from) == Some(i),
    decreases i - from,
{
    reveal(linked);
    if from < i {
        assert(views[from].id < views[i].id);
        lemma_id_index(views, next_id, id, i, from + 1);
    }
}

proof fn lemma_id_absent(views: Seq<PaneV>, id: u64, from: int)
    requires
        0 <= from,
        id_index(views, id, from) is None,
    ensures
        forall|j: int| from <= j < views.len() ==> (#[trigger] views[j]).id != id,
    decreases views.len() - from,
{
    if from < views.len() {
        lemma_id_absent(views, id, from + 1);
    }
}

proof fn lemma_id_found(views: Seq<PaneV>, id: u64, from: int)
    requires
        0 <= from,
        id_index(views, id, from) is Some,
    ensures
        from <= id_index(views, id, from)->0 < views.len(),
        views[id_index(views, id, from)->0].id == id,
    decreases views.len() - from,
{
    if from < views.len() && views[from].id != id {
        lemma_id_found(views, id, from + 1);
    }
}

/// The panes that are left are linked among themselves.
proof fn lemma_left_linked(a: AppV)
    requires
        linked(a.views, a.next_id),
        0 <= a.active < a.views.len(),
    ensures
        linked(all_unlinked(left_open(a)), a.next_id),
{
    reveal(linked);
    let at = survivors(a.views, a.active, a.views.len() as int);
    let left = left_open(a);
    let w = all_unlinked(left);
    lemma_survivors(a.views, a.active, a.views.len() as int);
    assert forall|i: int, j: int| 0 <= i < j < w.len() implies (#[trigger] w[i]).id < (
    #[trigger] w[j]).id by {
        assert(at[i] < at[j]);
        assert(a.views[at[i]].id < a.views[at[j]].id);
    }
    assert forall|i: int| 0 <= i < w.len() implies 0 <= (#[trigger] w[i]).id < a.next_id by {
        assert(0 <= a.views[at[i]].id < a.next_id);
    }
    assert forall|i: int| 0 <= i < w.len() implies ((#[trigger] w[i]).parent matches Some(p) ==> p
        < w[i].id && is_open(w, p)) by {
        let k = at[i];
        let v = a.views[k];
        if let Some(p) = v.parent {
            assert(is_open(a.views, p));
            let j = choose|j: int| 0 <= j < a.views.len() && (#[trigger] a.views[j]).id == p;
            assert(j < k) by {
                if j > k {
                    assert(a.views[k].id < a.views[j].id);
                }
            }
            lemma_id_index(a.views, a.next_id, p, j, 0);
            assert(!descends(a.views, a.active, j));
            let x = choose|x: int| 0 <= x < at.len() && #[trigger] at[x] == j;
            assert(w[x].id == p);
        }
    }
    assert forall|i: int| 0 <= i < w.len() implies ((#[trigger] w[i]).preview_child matches Some(c)
        ==> is_open(w, c)) by {
        if let Some(c) = w[i].preview_child {
            lemma_id_found(left, c, 0);
            let x = id_index(left, c, 0)->0;
            assert(w[x].id == c);
        }
    }
}

/// The panes with those numbers.
pub open spec fn chosen(views: Seq<Pane>, at: Seq<int>) -> Seq<Pane> {
    Seq::new(at.len(), |i: int| views[at[i]])
}

proof fn lemma_chosen(views: Seq<Pane>, b: Seq<u8>, at: Seq<int>, top: int)
    requires
        at == survivors(pane_models(views, b), top, views.len() as int),
    ensures
        pane_models(chosen(views, at), b) == picked(pane_models(views, b), at),
        panes_wf(views, b) ==> panes_wf(chosen(views, at), b),
        panes_drawn(views, b) ==> panes_drawn(chosen(views, at), b),
{
    reveal(panes_wf);
    reveal(panes_drawn);
    lemma_survivors(pane_models(views, b), top, views.len() as int);
    assert forall|i: int| 0 <= i < at.len() implies (#[trigger] chosen(views, at)[i])
        == views[at[i]] && 0 <= at[i] < views.len() by {}
    assert(pane_models(chosen(views, at), b) =~= picked(pane_models(views, b), at));
}

/// Drop the marked panes.
fn drop_doomed(
    views: &mut Vec<Pane>,
    doomed: &Vec<bool>,
    Ghost(models): Ghost<Seq<PaneV>>,
    Ghost(top): Ghost<int>,
)
    requires
        doomed@.len() == old(views)@.len(),
        doomed@.len() == models.len(),
        forall|k: int|
            0 <= k < doomed@.len() ==> (#[trigger] doomed@[k]) == descends(models, top, k),
    ensures
        final(views)@ == chosen(old(views)@, survivors(models, top, models.len() as int)),
{
    let ghost views0 = views@;
    let n: usize = doomed.len();
    let mut k: usize = 0;
    let mut i: usize = 0;
    assert(views@ =~= chosen(views0, Seq::empty()) + views0.skip(0));
    while k < n
        invariant
            k <= n,
            n == doomed@.len(),
            n == models.len(),
            n == views0.len(),
            i <= k,
            i == survivors(models, top, k as int).len(),
            views@ == chosen(views0, survivors(models, top, k as int)) + views0.skip(k as int),
            forall|k: int|
                0 <= k < doomed@.len() ==> (#[trigger] doomed@[k]) == descends(models, top, k),
        decreases n - k,
    {
        let ghost now = chosen(views0, survivors(models, top, k as int));
        let ghost after = chosen(views0, survivors(models, top, k + 1));
        let ghost before = views@;
        if doomed[k] {
            views.remove(i);
            assert(views@ =~= now + views0.skip(k + 1));
        } else {
            assert(after =~= now.push(views0[k as int]));
            assert(views@ =~= after + views0.skip(k + 1));
            i += 1;
        }
        k += 1;
    }
    assert(views@ =~= chosen(views0, survivors(models, top, n as int)));
}

impl App {
    /// Drop the links to preview panes that are not open.
    fn unlink_closed(&mut self, Ghost(b): Ghost<Seq<u8>>)
        requires
            panes_wf(old(self).views@, b),
        ensures
            *final(self) == (App { views: final(self).views, ..*old(self) }),
            panes_wf(final(self).views@, b),
            panes_drawn(old(self).views@, b) ==> panes_drawn(final(self).views@, b),
            pane_models(final(self).views@, b) == all_unlinked(pane_models(old(self).views@, b)),
    {
        let ghost views0 = self.views@;
        let ghost left = pane_models(views0, b);
        let n: usize = self.views.len();
        let mut stale: Vec<bool> = Vec::new();
        let mut k: usize = 0;
        while k < n
            invariant
                k <= n,
                n == self.views@.len(),
                self.views@ == views0,
                left == pane_models(views0, b),
                stale@.len() == k,
                forall|i: int|
                    0 <= i < k ==> (#[trigger] stale@[i]) == (left[i].preview_child matches Some(c)
                        && id_index(left, c, 0) is None),
            decreases n - k,
        {
            assert(left[k as int] == self.views@[k as int].model(b));
            let gone = match self.views[k].preview_child {
                Some(c) => {
                    let at = self.index_of(c);
                    assert(match id_index(left, c, 0) {
                        Some(i) => at == Some(i as usize) && i == i as usize,
                        None => at is None,
                    });
                    at.is_none()
                },
                None => false,
            };
            stale.push(gone);
            k += 1;
        }
        k = 0;
        let ghost rest = App { views: self.views, ..*old(self) };
        while k < n
            invariant
                k <= n,
                n == self.views@.len(),
                n == views0.len(),
                *self == (App { views: self.views, ..rest }),
                left == pane_models(views0, b),
                stale@.len() == n,
                panes_wf(self.views@, b),
                panes_drawn(views0, b) ==> panes_drawn(self.views@, b),
                forall|i: int|
                    0 <= i < n ==> (#[trigger] stale@[i]) == (left[i].preview_child matches Some(c)
                        && id_index(left, c, 0) is None),
                forall|i: int|
                    0 <= i < n ==> (#[trigger] self.views@[i]).model(b) == if i < k {
                        unlinked(left, left[i])
                    } else {
                        left[i]
                    },
            decreases n - k,
        {
            let ghost views1 = self.views@;
            assert(self.views@[k as int].model(b) == left[k as int]);
            if stale[k] {
                proof {
                    lemma_panes_at(views1, b, k as int);
                }
                let v = &mut self.views[k];
                v.preview_child = None;
                proof {
                    let w = self.views@[k as int];
                    assert(self.views@ =~= views1.update(k as int, w));
                    assert(w.model(b) == (PaneV { preview_child: None, ..left[k as int] }));
                    lemma_panes_update(views1, b, k as int, w);
                }
            }
            k += 1;
        }
        assert(pane_models(self.views@, b) =~= all_unlinked(left));
    }

    /// Which panes descend from the active one.
    fn doomed(&self, b: &[u8]) -> (r: Vec<bool>)
        requires
            self.wf(b@),
        ensures
            r@.len() == self.views@.len(),
            forall|k: int|
                0 <= k < r@.len() ==> (#[trigger] r@[k]) == descends(
                    self.model(b@).views,
                    self.active as int,
                    k,
                ),
    {
        let ghost views = self.model(b@).views;
        let mut out: Vec<bool> = Vec::new();
        let mut k: usize = 0;
        while k < self.views.len()
            invariant
                k <= self.views@.len(),
                out@.len() == k,
                views == pane_models(self.views@, b@),
                forall|i: int|
                    0 <= i < k ==> (#[trigger] out@[i]) == descends(
                        views,
                        self.active as int,
                        i,
                    ),
            decreases self.views@.len() - k,
        {
            assert(views[k as int] == self.views@[k as int].model(b@));
            let d = k == self.active || match self.views[k].parent {
                None => false,
                Some(p) => {
                    let at = self.index_of(p);
                    assert(match id_index(views, p, 0) {
                        Some(i) => at == Some(i as usize) && i == i as usize,
                        None => at is None,
                    });
                    match at {
                        None => false,
                        Some(j) => j < k && out[j],
                    }
                },
            };
            assert(d == descends(views, self.active as int, k as int));
            out.push(d);
            k += 1;
        }
        out
    }

    /// Close the active pane and every pane descending from it (split from it,
    /// transitively). Returns false if that would close every pane: the caller then
    /// quits. The closed pane's parent (if any) becomes active.
    pub fn close_active(&mut self, b: &[u8]) -> (r: bool)
        requires
            old(self).wf(b@),
        ensures
            final(self).wf(b@),
            old(self).drawn(b@) ==> final(self).drawn(b@),
            closed_active(old(self).model(b@)) == (final(self).model(b@), r),
    {
        let ghost a = self.model(b@);
        let ghost views0 = self.views@;
        let ghost at = survivors(a.views, a.active, a.views.len() as int);
        let doomed = self.doomed(b);
        let parent = self.active_view().parent;
        assert(parent == active_pane(a).parent);
        let n: usize = doomed.len();
        // Active may be the ancestor of all panes.
        let mut kept: usize = 0;
        let mut k: usize = 0;
        while k < n
            invariant
                k <= n,
                n == doomed@.len(),
                n == a.views.len(),
                kept <= k,
                kept == survivors(a.views, a.active, k as int).len(),
                forall|k: int|
                    0 <= k < n ==> (#[trigger] doomed@[k]) == descends(a.views, a.active, k),
            decreases n - k,
        {
            if !doomed[k] {
                kept += 1;
            }
            k += 1;
        }
        if kept == 0 {
            return false;
        }
        drop_doomed(&mut self.views, &doomed, Ghost(a.views), Ghost(a.active));
        proof {
            lemma_left_linked(a);
            lemma_chosen(views0, b@, at, a.active);
        }
        // Land on the closed pane's parent if it survived, else clamp.
        let found = match parent {
            Some(p) => self.index_of(p),
            None => None,
        };
        assert(match parent {
            Some(p) => match id_index(left_open(a), p, 0) {
                Some(i) => found == Some(i as usize) && i == i as usize,
                None => found is None,
            },
            None => found is None,
        });
        self.unlink_closed(Ghost(b@));
        assert(self.views@.len() == at.len()) by {
            assert(pane_models(self.views@, b@).len() == left_open(a).len());
        }
        proof {
            if let Some(p) = parent {
                if found is Some {
                    lemma_id_found(left_open(a), p, 0);
                }
            }
        }
        let last: usize = self.views.len() - 1;
        self.active = match found {
            Some(i) => i,
            None => if self.active < last {
                self.active
            } else {
                last
            },
        };
        true
    }
}

/// Where closing the active pane closes anything, it closes the panes that descend
/// from it, and no others.
pub proof fn law_close_takes_descendants(a: AppV, k: int)
    requires
        linked(a.views, a.next_id),
        0 <= a.active < a.views.len(),
        0 <= k < a.views.len(),
        closed_active(a).1,
    ensures
        (exists|i: int|
            0 <= i < closed_active(a).0.views.len() && (#[trigger] closed_active(a).0.views[i]).id
                == a.views[k].id) == !descends(a.views, a.active, k),
{
    reveal(linked);
    let at = survivors(a.views, a.active, a.views.len() as int);
    let w = closed_active(a).0.views;
    lemma_survivors(a.views, a.active, a.views.len() as int);
    if !descends(a.views, a.active, k) {
        let i = choose|i: int| 0 <= i < at.len() && #[trigger] at[i] == k;
        assert(w[i].id == a.views[k].id);
    } else if exists|i: int| 0 <= i < w.len() && (#[trigger] w[i]).id == a.views[k].id {
        let i = choose|i: int| 0 <= i < w.len() && (#[trigger] w[i]).id == a.views[k].id;
        assert(a.views[at[i]].id == a.views[k].id);
        if at[i] < k {
            assert(a.views[at[i]].id < a.views[k].id);
        } else if k < at[i] {
            assert(a.views[k].id < a.views[at[i]].id);
        }
        assert(false);
    }
}

/// Closing a pane that was split from another leaves a workspace in which that other
/// pane has the keys.
pub proof fn law_close_returns_to_parent(a: AppV)
    requires
        linked(a.views, a.next_id),
        0 <= a.active < a.views.len(),
        active_pane(a).parent is Some,
    ensures
        closed_active(a).1,
        0 <= closed_active(a).0.active < closed_active(a).0.views.len(),
        active_pane(closed_active(a).0).id == active_pane(a).parent->0,
{
    reveal(linked);
    let p = active_pane(a).parent->0;
    let at = survivors(a.views, a.active, a.views.len() as int);
    lemma_survivors(a.views, a.active, a.views.len() as int);
    assert(is_open(a.views, p));
    let j = choose|j: int| 0 <= j < a.views.len() && (#[trigger] a.views[j]).id == p;
    lemma_not_below(a, j);
    let x = choose|x: int| 0 <= x < at.len() && #[trigger] at[x] == j;
    let left = left_open(a);
    assert(left[x].id == p);
    if id_index(left, p, 0) is None {
        lemma_id_absent(left, p, 0);
    }
    lemma_id_found(left, p, 0);
}

/// A pane that is older than another does not descend from it.
proof fn lemma_not_below(a: AppV, k: int)
    requires
        linked(a.views, a.next_id),
        0 <= a.active < a.views.len(),
        0 <= k < a.views.len(),
        a.views[k].id < active_pane(a).id,
    ensures
        !descends(a.views, a.active, k),
    decreases k,
{
    reveal(linked);
    if let Some(p) = a.views[k].parent {
        if let Some(j) = id_index(a.views, p, 0) {
            lemma_id_found(a.views, p, 0);
            if j < k {
                lemma_not_below(a, j);
            }
        }
    }
}

/// The last pane is never closed.
pub proof fn law_last_pane_stays(a: AppV)
    requires
        a.views.len() == 1,
        a.active == 0,
    ensures
        closed_active(a) == (a, false),
{
    reveal_with_fuel(survivors, 2);
}

/// A pane that was just split off, closed again, leaves the workspace as it was, but
/// for the ids already given out.
pub proof fn law_split_then_close(b: Seq<u8>, a: AppV)
    requires
        linked(a.views, a.next_id),
        0 <= a.active < a.views.len(),
        child_root(b, active_pane(a)) is Some,
        a.next_id <= u64::MAX,
    ensures
        closed_active(split_off(b, a)) == (AppV { next_id: a.next_id + 1, ..a }, true),
{
    reveal(linked);
    let s = split_off(b, a);
    let n = a.views.len() as int;
    assert forall|k: int| 0 <= k < n implies !#[trigger] descends(s.views, s.active, k) by {
        assert(linked(s.views, s.next_id)) by {
            assert(0 <= active_pane(a).id < a.next_id);
            lemma_linked_push(a.views, a.next_id, a.active, s.views[n]);
        }
        assert(s.views[k] == a.views[k]);
        assert(0 <= a.views[k].id < a.next_id);
        lemma_not_below(s, k);
    }
    lemma_all_survive(s.views, n, n);
    assert(survivors(s.views, n, n + 1) == survivors(s.views, n, n));
    assert(left_open(s) =~= a.views);
    assert forall|i: int| 0 <= i < n implies unlinked(a.views, #[trigger] a.views[i])
        == a.views[i] by {
        if let Some(c) = a.views[i].preview_child {
            assert(is_open(a.views, c));
            if id_index(a.views, c, 0) is None {
                lemma_id_absent(a.views, c, 0);
            }
        }
    }
    assert(all_unlinked(a.views) =~= a.views);
    lemma_id_index(a.views, a.next_id, active_pane(a).id as u64, a.active, 0);
}

proof fn lemma_all_survive(views: Seq<PaneV>, top: int, n: int)
    requires
        0 <= n <= views.len(),
        forall|k: int| 0 <= k < n ==> !#[trigger] descends(views, top, k),
    ensures
        survivors(views, top, n) == Seq::new(n as nat, |i: int| i),
    decreases n,
{
    if n > 0 {
        lemma_all_survive(views, top, n - 1);
        assert(!descends(views, top, n - 1));
    }
    assert(survivors(views, top, n) =~= Seq::new(n as nat, |i: int| i));
}

/// Previewing opens one pane behind the others, or shows the node in the one that was opened
/// before; the active pane keeps the keys, and a second preview opens no other.
pub proof fn law_previewing_twice(b: Seq<u8>, a: AppV)
    requires
        linked(a.views, a.next_id),
        0 <= a.active < a.views.len(),
        a.next_id <= u64::MAX,
        child_root(b, active_pane(a)) is Some,
        active_pane(a).preview_child != Some(active_pane(a).id as u64),
    ensures
        ({
            let once = previewed(b, a);
            let twice = previewed(b, once);
            let c = active_pane(once).preview_child;
            &&& once.active == a.active
            &&& twice.active == a.active
            &&& c is Some
            &&& is_open(once.views, c->0)
            &&& active_pane(twice).preview_child == c
            &&& once.views.len() == a.views.len() + if active_pane(a).preview_child is None {
                1int
            } else {
                0
            }
            &&& twice.views.len() == once.views.len()
            &&& forall|i: int|
                0 <= i < a.views.len() && i != a.active && (#[trigger] a.views[i]).id != c->0
                    ==> once.views[i] == a.views[i] && twice.views[i] == a.views[i]
            &&& forall|i: int|
                0 <= i < once.views.len() && (#[trigger] once.views[i]).id == c->0
                    ==> child_root(b, active_pane(a)) == Some(
                    (once.views[i].root, once.views[i].name),
                )
        }),
{
    reveal(linked);
    reveal(child_root);
    let n = a.views.len() as int;
    let once = previewed(b, a);
    match active_pane(a).preview_child {
        Some(c) => {
            assert(is_open(a.views, c));
            let j = choose|j: int| 0 <= j < n && (#[trigger] a.views[j]).id == c;
            lemma_id_index(a.views, a.next_id, c, j, 0);
            assert(j != a.active);
            assert(once.views[j].id == c);
            assert(linked(once.views, a.next_id)) by {
                assert forall|i: int| 0 <= i < n implies same_links(
                    a.views[i],
                    #[trigger] once.views[i],
                ) by {}
                assert forall|id: u64| is_open(a.views, id) implies #[trigger] is_open(
                    once.views,
                    id,
                ) by {
                    let k = choose|k: int| 0 <= k < n && (#[trigger] a.views[k]).id == id;
                    assert(once.views[k].id == id);
                }
            }
            lemma_id_index(once.views, a.next_id, c, j, 0);
            assert forall|i: int| 0 <= i < n && (#[trigger] once.views[i]).id == c implies i
                == j by {
                lemma_id_index(once.views, a.next_id, c, i, 0);
            }
            assert(child_root(b, active_pane(once)) == child_root(b, active_pane(a)));
        },
        None => {
            let c = a.next_id as u64;
            assert(once.views[n].id == c);
            assert(is_open(once.views, c));
            assert(child_root(b, active_pane(once)) == child_root(b, active_pane(a)));
            assert forall|i: int| 0 <= i < n implies (#[trigger] once.views[i]).id
                == a.views[i].id && once.views[i].id != c by {}
            lemma_last_found(once.views, c, 0);
        },
    }
}

/// An id that only the last pane has is found there.
proof fn lemma_last_found(views: Seq<PaneV>, id: u64, from: int)
    requires
        0 <= from < views.len(),
        views.last().id == id,
        forall|i: int| 0 <= i < views.len() - 1 ==> (#[trigger] views[i]).id != id,
    ensures
        id_index(views, id, from) == Some(views.len() - 1),
    decreases views.len() - from,
{
    if from < views.len() - 1 {
        lemma_last_found(views, id, from + 1);
    }
}

/// What a pane is split off at: a container that holds something, whole and with nothing
/// scanned of it yet. Its title is the way to it from the root, behind that of a pane that
/// was split off itself.
pub proof fn law_what_is_split_off(b: Seq<u8>, v: PaneV)
    ensures
        child_root(b, v) is Some <==> (focus_node(v) matches Some(n) && n.kind.is_container()
            && n.has_children),
        child_root(b, v) matches Some((root, title)) ==> {
            let n = focus_node(v)->0;
            &&& root.start == n.start
            &&& root.kind == n.kind
            &&& root.label == n.label
            &&& root.end_exact
            &&& n.end_exact ==> root.end == n.end
            &&& root.children.len() == 0
            &&& !v.derived ==> title == path_title(""@, crumbs(v.root, focus_path(v)->0))
            &&& v.derived ==> title == path_title(v.name, crumbs(v.root, focus_path(v)->0))
        },
{
    reveal(child_root);
}

// ---------------------------------------------------------------------------
// Result panes
// ---------------------------------------------------------------------------
/// How much of a filter's text is in the title of its pane.
pub const FILTER_TITLE: usize = 28;

/// The root of a result pane: an open array that is given its children as they are
/// selected. Its range is the one that the filter reads.
pub open spec fn result_root(b: Seq<u8>, name: Seq<char>, start: int, end: int) -> NodeV {
    NodeV {
        label: name,
        start,
        end: lower(end, b.len() as int),
        end_exact: false,
        kind: Kind::Array,
        is_index: false,
        jsonl: false,
        has_children: false,
        expanded: true,
        done: false,
        children: Seq::empty(),
        cursor: None,
    }
}

/// A pane that waits for what a filter selects.
pub open spec fn result_pane(b: Seq<u8>, p: PendingV) -> PaneV {
    let name = "| "@ + cut(p.expr, FILTER_TITLE as int);
    PaneV {
        filter: Some(HitsV { hits: Seq::empty(), finished: false }),
        ..fresh_pane(result_root(b, name, p.start, p.end), name, true)
    }
}

/// The workspace with the pending filter launched: a result pane, which has the
/// keys. Nothing happens where none is pending.
pub open spec fn filter_launched(b: Seq<u8>, a: AppV) -> AppV {
    match a.pending_filter {
        None => a,
        Some(p) => AppV {
            views: a.views.push(opened_pane(a, result_pane(b, p))),
            active: a.views.len() as int,
            next_id: a.next_id + 1,
            pending_filter: None,
            ..a
        },
    }
}

/// The pane for a filter's results.
fn make_result_pane(p: &PendingFilter, b: &[u8]) -> (r: Pane)
    requires
        value_range(b@, p.start as int, p.end as int, p.kind),
    ensures
        r.model(b@) == result_pane(b@, p.model()),
        r.wf(b@),
        rows_point(r.model(b@)),
        r.preview_child is None,
{
    // Keep the title compact so the live count stays visible even in a narrow split
    // pane; the full expression is what the user just typed.
    let short = truncate(p.expr.as_str(), FILTER_TITLE);
    let name = joint("| ", short.as_str());
    let root = Node {
        label: name.clone(),
        start: p.start,
        end: if p.end <= b.len() {
            p.end
        } else {
            b.len()
        },
        end_exact: false,
        kind: Kind::Array,
        is_index: false,
        jsonl: false,
        has_children: false,
        expanded: true,
        done: false,
        children: Vec::new(),
        cursor: None,
    };
    let ghost m = root.model(b@);
    assert(m.children =~= Seq::empty());
    assert(m == result_root(b@, name@, p.start as int, p.end as int));
    let mut v = Pane::with_root(root, name, true);
    let ghost v0 = v.model(b@);
    assert(v0 == fresh_pane(m, name@, true));
    let hits = Hits { hits: Vec::new(), finished: false };
    assert(hits.model().hits =~= Seq::empty());
    v.filter = Some(hits);
    proof {
        reveal(tree_ok);
        reveal(rows_point_in);
        assert(v.model(b@) == (PaneV { filter: Some(hits.model()), ..v0 }));
        assert(hits.model() == (HitsV { hits: Seq::empty(), finished: false }));
        assert(hits_wf(b@, hits.model().hits));
    }
    v
}

impl App {
    /// Open a child pane for the pending filter and switch to it. Its synthetic array
    /// root collects the selected nodes as they stream in. Returns the filter, for
    /// the caller to run; a no-op if nothing is pending.
    pub fn launch_filter(&mut self, b: &[u8]) -> (r: Option<PendingFilter>)
        requires
            old(self).wf(b@),
            old(self).drawn(b@),
            old(self).next_id < u64::MAX,
        ensures
            final(self).wf(b@),
            final(self).drawn(b@),
            r == old(self).pending_filter,
            final(self).model(b@) == filter_launched(b@, old(self).model(b@)),
    {
        let ghost a = self.model(b@);
        match self.pending_filter.take() {
            None => None,
            Some(p) => {
                let v = make_result_pane(&p, b);
                self.open_pane(v, Ghost(b@));
                assert(self.model(b@).views.len() == a.views.len() + 1);
                self.active = self.views.len() - 1;
                Some(p)
            },
        }
    }
}

/// Growing and shrinking change the weight of the active pane by one, as far as it may, and
/// nothing else.
pub proof fn law_resizing(a: AppV, grow: bool)
    requires
        0 <= a.active < a.views.len(),
    ensures
        ({
            let w = resized(a, grow);
            let old_weight = a.views[a.active].weight;
            let new_weight = w.views[a.active].weight;
            &&& w == AppV { views: w.views, ..a }
            &&& w.views == a.views.update(
                a.active,
                PaneV { weight: new_weight, ..a.views[a.active] },
            )
            &&& grow && old_weight < WEIGHT_MAX ==> new_weight == old_weight + 1
            &&& grow && old_weight == WEIGHT_MAX ==> new_weight == old_weight
            &&& !grow && old_weight > 1 ==> new_weight == old_weight - 1
            &&& !grow && old_weight == 1 ==> new_weight == 1
        }),
{
}

/// Launching the pending filter opens a pane behind the others, which has the keys and waits
/// for its first hit: an open array with nothing in it, over the range that the filter reads,
/// split from the pane it was asked for in. The other panes stay, and a second launch finds
/// nothing pending.
pub proof fn law_a_filter_gets_a_pane(b: Seq<u8>, a: AppV)
    requires
        0 <= a.active < a.views.len(),
        a.pending_filter is Some,
        0 <= a.pending_filter->0.start <= a.pending_filter->0.end <= b.len(),
    ensures
        ({
            let w = filter_launched(b, a);
            let p = a.pending_filter->0;
            let v = active_pane(w);
            &&& w.views.len() == a.views.len() + 1
            &&& w.active == a.views.len()
            &&& w.views.take(a.views.len() as int) == a.views
            &&& v.id == a.next_id
            &&& w.next_id > v.id
            &&& v.parent == Some(active_pane(a).id as u64)
            &&& v.filter is Some && v.filter->0.hits.len() == 0 && !v.filter->0.finished
            &&& v.root.start == p.start && v.root.end == p.end
            &&& v.root.kind is Array && v.root.expanded && v.root.children.len() == 0
            &&& v.derived
            &&& v.name.take(2) == seq!['|', ' ']
            &&& p.expr.len() <= 28 ==> v.name == seq!['|', ' '] + p.expr
            &&& filter_launched(b, w) == w
        }),
{
    let w = filter_launched(b, a);
    let p = a.pending_filter->0;
    let v = active_pane(w);
    reveal_strlit("| ");
    assert(w.views.take(a.views.len() as int) =~= a.views);
    assert(v.name == "| "@ + cut(p.expr, 28));
    assert(v.name.take(2) =~= seq!['|', ' ']);
    if p.expr.len() <= 28 {
        assert(v.name =~= seq!['|', ' '] + p.expr);
    }
}

/// Copying changes the clipboard and the status line and nothing else. A value that is
/// smaller than a mebibyte is copied as it would be written out, and of a larger one no more
/// than that is copied; of a node's path what is copied is the path as it is written.
pub proof fn law_what_is_copied(b: Seq<u8>, a: AppV)
    requires
        0 <= a.active < a.views.len(),
        focus_node(active_pane(a)) matches Some(n) ==> node_wf(b, n),
    ensures
        ({
            let v = value_yanked(b, a);
            let p = path_yanked(a);
            let pane = active_pane(a);
            &&& v == (AppV { clipboard: v.clipboard, flash: v.flash, ..a })
            &&& p == (AppV { clipboard: p.clipboard, flash: p.flash, ..a })
            &&& v.flash is Some && p.flash is Some
            &&& focus_path(pane) is None ==> v.clipboard == a.clipboard && p.clipboard
                == a.clipboard
            &&& focus_node(pane) matches Some(n) ==> {
                &&& v.clipboard is Some
                &&& v.clipboard->0.len() <= 0x10_0000
                &&& n.end - n.start < 0x10_0000 ==> v.clipboard->0 == value_bytes(
                    b,
                    n.start,
                    n.end,
                )
                &&& p.clipboard == Some(
                    encode_utf8(path_title(""@, crumbs(pane.root, focus_path(pane)->0))),
                )
            }
        }),
{
    reveal(value_yanked);
    reveal(path_yanked);
    if let Some(n) = focus_node(active_pane(a)) {
        law_copy_is_clamped(b, n);
        if n.end - n.start < 0x10_0000 {
            let to = copy_bound(b, n);
            lemma_ws_end(b, n.start, to);
            lemma_token_end(b, ws_end(b, n.start, to), to);
            law_copy_is_extract(b, n);
        }
    }
}

} // verus!
