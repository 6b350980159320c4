//! What a key press does to the workspace.

use crate::clip::{group, grouped};
use crate::filter::{hit_views, value_wf, FilterHit, HitV, ValueV};
use crate::input::{history_wf, whole, HistoryV, KeyCode};
use crate::keys::{
    marks_key, on_marks_key, on_peek_key, on_schema_key, on_search_key, peek_key, schema_key,
    search_key, KeyOutcome,
};
use crate::layout::{
    above_footer, content_height, content_rows, pane_at, pane_layout, pane_of_cell, panes_area,
    within,
};
use crate::outline::{lines_of, outline_of, render, to_source};
use crate::overlay::{less, peek_height, peek_layout, peek_width, Area};
use crate::pane::{
    at_result_root, bookmark_toggled, capped, collapsed_or_parent, empty_line, focus_node,
    focus_scope, focus_toggled, next_in, on_leaf, peeked, prev_in, rows_point, saturating_sum,
    sibling_visited, tree_ok, window_landed, window_shown, Mode, Pane, PaneV, SchemaView,
    SchemaViewV, WEIGHT_MAX,
};
use crate::prompts::{
    filter_key, filter_submitted, goto_key, newer_filter_recalled, newer_path_recalled,
    older_filter_recalled, older_path_recalled, on_filter_key, on_goto_key, path_submitted,
};
use crate::scanner::{children_from, Kind};
use crate::schema::{
    infer, infer_seq, inferred, inferred_seq, item_values, lemma_type_ok_more,
    lemma_type_ok_nested, MAX_DEPTH as SCHEMA_DEPTH,
};
use crate::session::{
    active_pane, closed_active, lemma_pane_changed, lemma_panes_at, panes_drawn, path_yanked,
    previewed, resized, split_off, value_yanked, with_active, App, AppV,
};
use crate::text::{between, decimal, decimal_string, joined, joint, lemma_trimmed_again, trimmed};
use crate::tree::{count_children, fresh_cursor, node_wf, Node, NodeV};
use std::time::Instant;
use vstd::prelude::*;
use vstd::utf8::*;

verus! {

// ---------------------------------------------------------------------------
// The overlays
// ---------------------------------------------------------------------------
/// The type in the schema overlay on its way to the clipboard.
pub open spec fn type_yanked(a: AppV) -> AppV {
    match active_pane(a).schema {
        None => a,
        Some(s) => AppV {
            clipboard: Some(encode_utf8(s.source)),
            flash: Some("copied type ("@ + decimal(encode_utf8(s.source).len()) + " B)"@),
            ..a
        },
    }
}

fn yank_type(app: &mut App, b: &[u8])
    requires
        old(app).wf(b@),
        old(app).drawn(b@),
    ensures
        final(app).wf(b@),
        final(app).drawn(b@),
        final(app).model(b@) == type_yanked(old(app).model(b@)),
{
    proof {
        lemma_panes_at(app.views@, b@, app.active as int);
    }
    let source = match &app.active_view().schema {
        None => {
            return;
        },
        Some(s) => vstd::slice::slice_to_vec(s.source.as_str().as_bytes()),
    };
    let n: usize = source.len();
    let count = decimal_string(n as u64);
    app.flash = Some(between("copied type (", count.as_str(), " B)"));
    app.clipboard = Some(source);
}

fn switch_mode(v: &mut Pane, mode: Mode, Ghost(b): Ghost<Seq<u8>>)
    requires
        old(v).wf(b),
    ensures
        final(v).wf(b),
        final(v).links() == old(v).links(),
        final(v).rows == old(v).rows,
        final(v).root == old(v).root,
        final(v).model(b) == (PaneV { mode, ..old(v).model(b) }),
{
    v.mode = mode;
}

fn set_mode(app: &mut App, mode: Mode, Ghost(b): Ghost<Seq<u8>>)
    requires
        old(app).wf(b),
        old(app).drawn(b),
    ensures
        final(app).wf(b),
        final(app).drawn(b),
        final(app).model(b) == ({
            let a = old(app).model(b);
            with_active(a, PaneV { mode, ..active_pane(a) })
        }),
{
    let ghost views = app.views@;
    proof {
        lemma_panes_at(views, b, app.active as int);
    }
    switch_mode(app.active_mut(), mode, Ghost(b));
    proof {
        let i = app.active as int;
        lemma_pane_changed(views, b, app.next_id as int, i, app.views@[i]);
    }
}

// ---------------------------------------------------------------------------
// Normal mode, one command after another
// ---------------------------------------------------------------------------
/// The ranges of what a filter has selected.
pub open spec fn hit_ranges(hits: Seq<HitV>) -> Seq<(usize, usize)> {
    Seq::new(hits.len(), |i: int| (hits[i].start as usize, hits[i].end as usize))
}

/// The focused value marked for being written out on the way out, or all that a
/// filter has selected, on its pane. Only where the output goes somewhere.
#[verifier::opaque]
pub open spec fn extracted(a: AppV) -> (AppV, KeyOutcome) {
    let v = active_pane(a);
    if !a.can_extract {
        (
            AppV {
                flash: Some("pipe jview into a command (e.g. | jq) to extract a node"@),
                ..a
            },
            KeyOutcome::Continue,
        )
    } else if let Some(f) = v.filter {
        if f.hits.len() == 0 {
            (AppV { flash: Some("no filter hits to extract"@), ..a }, KeyOutcome::Continue)
        } else {
            (AppV { extract_batch: Some(hit_ranges(f.hits)), ..a }, KeyOutcome::Quit)
        }
    } else if let Some(n) = focus_node(v) {
        (AppV { extract: Some((n.start as usize, n.end as usize)), ..a }, KeyOutcome::Quit)
    } else {
        (AppV { flash: Some("nothing to extract"@), ..a }, KeyOutcome::Continue)
    }
}

fn ranges_of(hits: &Vec<FilterHit>) -> (r: Vec<(usize, usize)>)
    ensures
        r@ == hit_ranges(hit_views(hits@)),
{
    let mut out: Vec<(usize, usize)> = Vec::new();
    let mut i: usize = 0;
    while i < hits.len()
        invariant
            i <= hits@.len(),
            out@.len() == i,
            forall|k: int| 0 <= k < i ==> #[trigger] out@[k] == (hits@[k].start, hits@[k].end),
        decreases hits@.len() - i,
    {
        out.push((hits[i].start, hits[i].end));
        i += 1;
    }
    assert(out@ =~= hit_ranges(hit_views(hits@)));
    out
}

impl App {
    /// Byte range of the active pane's focused node (its raw JSON value/subtree).
    pub fn focused_range(&self, b: &[u8]) -> (r: Option<(usize, usize)>)
        requires
            self.wf(b@),
            self.drawn(b@),
        ensures
            match focus_node(active_pane(self.model(b@))) {
                Some(n) => r == Some((n.start as usize, n.end as usize)) && n.start
                    == n.start as usize && n.end == n.end as usize,
                None => r is None,
            },
    {
        proof {
            lemma_panes_at(self.views@, b@, self.active as int);
        }
        match self.active_view().focused_node(b) {
            Some(n) => Some((n.start, n.end)),
            None => None,
        }
    }
}

/// The ranges that a filter of the active pane has selected; None where it has no
/// filter.
fn selected_ranges(app: &App, Ghost(b): Ghost<Seq<u8>>) -> (r: Option<Vec<(usize, usize)>>)
    requires
        app.wf(b),
    ensures
        match active_pane(app.model(b)).filter {
            Some(f) => r matches Some(x) && x@ == hit_ranges(f.hits),
            None => r is None,
        },
{
    proof {
        lemma_panes_at(app.views@, b, app.active as int);
    }
    match &app.active_view().filter {
        Some(f) => Some(ranges_of(&f.hits)),
        None => None,
    }
}

fn extract(app: &mut App, b: &[u8]) -> (r: KeyOutcome)
    requires
        old(app).wf(b@),
        old(app).drawn(b@),
    ensures
        final(app).wf(b@),
        final(app).drawn(b@),
        extracted(old(app).model(b@)) == (final(app).model(b@), r),
{
    proof {
        reveal(extracted);
    }
    if !app.can_extract {
        app.flash = Some("pipe jview into a command (e.g. | jq) to extract a node".to_owned());
        return KeyOutcome::Continue;
    }
    if let Some(ranges) = selected_ranges(app, Ghost(b@)) {
        if ranges.len() == 0 {
            app.flash = Some("no filter hits to extract".to_owned());
            return KeyOutcome::Continue;
        }
        app.extract_batch = Some(ranges);
        return KeyOutcome::Quit;
    }
    match app.focused_range(b) {
        Some(range) => {
            app.extract = Some(range);
            KeyOutcome::Quit
        },
        None => {
            app.flash = Some("nothing to extract".to_owned());
            KeyOutcome::Continue
        },
    }
}

/// What the status line says of the number of children of a node: of those that it has
/// been given, or else of those that it has in the document.
pub open spec fn count_status(b: Seq<u8>, n: NodeV, given: bool, label: Seq<char>) -> Seq<char> {
    if n.kind.is_container() {
        let count = if given {
            n.children.len()
        } else {
            children_from(b, fresh_cursor(n).level).len()
        };
        label + ": "@ + grouped(count) + if n.kind is Array {
            " elements"@
        } else {
            " entries"@
        }
    } else {
        label + ": not a container"@
    }
}

/// The workspace with the focused node's direct children counted.
#[verifier::opaque]
pub open spec fn counted(b: Seq<u8>, a: AppV) -> AppV {
    let v = active_pane(a);
    match focus_node(v) {
        Some(n) => AppV {
            flash: Some(count_status(b, n, at_result_root(v), v.rows[v.focus].label)),
            ..a
        },
        None => a,
    }
}

fn count_message(v: &Pane, b: &[u8]) -> (r: Option<String>)
    requires
        v.wf(b@),
        rows_point(v.model(b@)),
    ensures
        match focus_node(v.model(b@)) {
            Some(n) => r matches Some(x) && x@ == count_status(
                b@,
                n,
                at_result_root(v.model(b@)),
                v.model(b@).rows[v.focus as int].label,
            ),
            None => r is None,
        },
{
    match v.focused_node(b) {
        None => None,
        Some(node) => {
            let label = v.rows[v.focus].label.as_str();
            assert(v.model(b@).rows[v.focus as int].label == label@);
            let count = if node.is_container() && v.at_result_root(b) {
                assert(node.model(b@).children.len() == node.children@.len());
                Some(node.children.len())
            } else {
                count_children(node, b)
            };
            match count {
                Some(n) => {
                    let size = group(n);
                    let said = between(label, ": ", size.as_str());
                    Some(
                        joint(
                            said.as_str(),
                            match node.kind {
                                Kind::Array => " elements",
                                _ => " entries",
                            },
                        ),
                    )
                },
                None => Some(joint(label, ": not a container")),
            }
        },
    }
}

fn count(app: &mut App, b: &[u8])
    requires
        old(app).wf(b@),
        old(app).drawn(b@),
    ensures
        final(app).wf(b@),
        final(app).drawn(b@),
        final(app).model(b@) == counted(b@, old(app).model(b@)),
{
    proof {
        reveal(counted);
        lemma_panes_at(app.views@, b@, app.active as int);
    }
    if let Some(m) = count_message(app.active_view(), b) {
        app.flash = Some(m);
    }
}

/// The values of nodes.
pub open spec fn node_values(ns: Seq<NodeV>) -> Seq<ValueV> {
    Seq::new(ns.len(), |i: int| ValueV { start: ns[i].start, end: ns[i].end, kind: ns[i].kind })
}

/// The schema overlay for a node: for the children that it has been given, or else for
/// what it is in the document.
pub open spec fn schema_of(b: Seq<u8>, n: NodeV, given: bool, label: Seq<char>) -> SchemaViewV {
    let ty = if given {
        inferred_seq(b, node_values(n.children))
    } else {
        inferred(b, ValueV { start: n.start, end: n.end, kind: n.kind }, n.jsonl)
    };
    let lines = lines_of(outline_of(ty, 0, ""@, ""@, ""@));
    SchemaViewV { title: label, lines, source: joined(lines, "\n"@), scroll: 0 }
}

/// The schema overlay opened on the focused node, where that is a container.
#[verifier::opaque]
pub open spec fn schema_opened(b: Seq<u8>, a: AppV) -> AppV {
    let v = active_pane(a);
    match focus_node(v) {
        Some(n) if n.kind.is_container() => with_active(
            a,
            PaneV {
                schema: Some(schema_of(b, n, at_result_root(v), v.rows[v.focus].label)),
                mode: Mode::Schema,
                ..v
            },
        ),
        _ => AppV { flash: Some("schema: focus an array or object"@), ..a },
    }
}

/// Where the children of a node lie.
fn given_items(node: &Node, b: &[u8]) -> (out: Vec<(usize, usize, Kind)>)
    requires
        node.wf(b@),
    ensures
        item_values(out@) == node_values(node.model(b@).children),
        forall|i: int| 0 <= i < out@.len() ==> value_wf(b@, #[trigger] item_values(out@)[i]),
{
    let ghost n = node.model(b@);
    let mut out: Vec<(usize, usize, Kind)> = Vec::new();
    let mut i: usize = 0;
    while i < node.children.len()
        invariant
            n == node.model(b@),
            node_wf(b@, n),
            i <= node.children@.len(),
            out@.len() == i,
            forall|k: int|
                0 <= k < i ==> #[trigger] item_values(out@)[k] == node_values(n.children)[k]
                    && value_wf(b@, item_values(out@)[k]),
        decreases node.children@.len() - i,
    {
        let c = &node.children[i];
        let ghost before = item_values(out@);
        proof {
            assert(n.children[i as int] == c.model(b@));
            assert(node_wf(b@, c.model(b@)));
        }
        out.push((c.start, c.end, c.kind));
        assert forall|k: int| 0 <= k <= i implies #[trigger] item_values(out@)[k] == node_values(
            n.children,
        )[k] && value_wf(b@, item_values(out@)[k]) by {
            if k < i {
                assert(item_values(out@)[k] == before[k]);
            }
        }
        i += 1;
    }
    assert(item_values(out@) =~= node_values(n.children));
    out
}

fn build_schema(v: &Pane, b: &[u8]) -> (r: Option<SchemaView>)
    requires
        v.wf(b@),
        rows_point(v.model(b@)),
    ensures
        match focus_node(v.model(b@)) {
            Some(n) if n.kind.is_container() => r matches Some(x) && x.model() == schema_of(
                b@,
                n,
                at_result_root(v.model(b@)),
                v.model(b@).rows[v.focus as int].label,
            ),
            _ => r is None,
        },
{
    let node = match v.focused_node(b) {
        None => {
            return None;
        },
        Some(node) => node,
    };
    if !node.is_container() {
        return None;
    }
    let ty = if v.at_result_root(b) {
        let items = given_items(node, b);
        infer_seq(b, items.as_slice())
    } else {
        infer(b, node.start, node.end, node.kind, node.jsonl)
    };
    proof {
        lemma_type_ok_more(ty.model(), SCHEMA_DEPTH + 1, usize::MAX as int);
        lemma_type_ok_nested(ty.model(), usize::MAX as int);
        assert(v.model(b@).rows[v.focus as int].label == v.rows@[v.focus as int].label@);
    }
    Some(
        SchemaView {
            title: v.rows[v.focus].label.clone(),
            lines: render(&ty),
            source: to_source(&ty),
            scroll: 0,
        },
    )
}

fn show_schema(v: &mut Pane, s: SchemaView, Ghost(b): Ghost<Seq<u8>>)
    requires
        old(v).wf(b),
    ensures
        final(v).wf(b),
        final(v).links() == old(v).links(),
        final(v).rows == old(v).rows,
        final(v).root == old(v).root,
        final(v).model(b) == (PaneV {
            schema: Some(s.model()),
            mode: Mode::Schema,
            ..old(v).model(b)
        }),
{
    v.schema = Some(s);
    v.mode = Mode::Schema;
}

fn open_schema(app: &mut App, b: &[u8])
    requires
        old(app).wf(b@),
        old(app).drawn(b@),
    ensures
        final(app).wf(b@),
        final(app).drawn(b@),
        final(app).model(b@) == schema_opened(b@, old(app).model(b@)),
{
    let ghost views = app.views@;
    proof {
        reveal(schema_opened);
        lemma_panes_at(views, b@, app.active as int);
    }
    match build_schema(app.active_view(), b) {
        Some(s) => {
            show_schema(app.active_mut(), s, Ghost(b@));
            proof {
                let i = app.active as int;
                lemma_pane_changed(views, b@, app.next_id as int, i, app.views@[i]);
            }
        },
        None => {
            app.flash = Some("schema: focus an array or object".to_owned());
        },
    }
}

/// The path prompt opened.
pub open spec fn goto_opened(a: AppV) -> AppV {
    AppV {
        goto_history: HistoryV { cursor: None, ..a.goto_history },
        ..with_active(a, PaneV { mode: Mode::Goto, goto: empty_line(), ..active_pane(a) })
    }
}

/// The filter prompt opened.
pub open spec fn filter_opened(a: AppV) -> AppV {
    AppV {
        filter_history: HistoryV { cursor: None, ..a.filter_history },
        ..with_active(
            a,
            PaneV {
                mode: Mode::Filter,
                filter_query: empty_line(),
                filter_error: None,
                ..active_pane(a)
            },
        )
    }
}

fn start_goto(v: &mut Pane, Ghost(b): Ghost<Seq<u8>>)
    requires
        old(v).wf(b),
    ensures
        final(v).wf(b),
        final(v).links() == old(v).links(),
        final(v).rows == old(v).rows,
        final(v).root == old(v).root,
        final(v).model(b) == (PaneV {
            mode: Mode::Goto,
            goto: empty_line(),
            ..old(v).model(b)
        }),
{
    v.mode = Mode::Goto;
    v.goto.clear();
}

fn start_filter(v: &mut Pane, Ghost(b): Ghost<Seq<u8>>)
    requires
        old(v).wf(b),
    ensures
        final(v).wf(b),
        final(v).links() == old(v).links(),
        final(v).rows == old(v).rows,
        final(v).root == old(v).root,
        final(v).model(b) == (PaneV {
            mode: Mode::Filter,
            filter_query: empty_line(),
            filter_error: None,
            ..old(v).model(b)
        }),
{
    v.mode = Mode::Filter;
    v.filter_query.clear();
    v.filter_error = None;
}

fn open_goto(app: &mut App, b: &[u8])
    requires
        old(app).wf(b@),
        old(app).drawn(b@),
    ensures
        final(app).wf(b@),
        final(app).drawn(b@),
        final(app).model(b@) == goto_opened(old(app).model(b@)),
{
    let ghost views = app.views@;
    proof {
        lemma_panes_at(views, b@, app.active as int);
    }
    start_goto(app.active_mut(), Ghost(b@));
    proof {
        let i = app.active as int;
        lemma_pane_changed(views, b@, app.next_id as int, i, app.views@[i]);
    }
    app.goto_history.reset();
}

fn open_filter(app: &mut App, b: &[u8])
    requires
        old(app).wf(b@),
        old(app).drawn(b@),
    ensures
        final(app).wf(b@),
        final(app).drawn(b@),
        final(app).model(b@) == filter_opened(old(app).model(b@)),
{
    let ghost views = app.views@;
    proof {
        lemma_panes_at(views, b@, app.active as int);
    }
    start_filter(app.active_mut(), Ghost(b@));
    proof {
        let i = app.active as int;
        lemma_pane_changed(views, b@, app.next_id as int, i, app.views@[i]);
    }
    app.filter_history.reset();
}

/// The focused node bookmarked, or no longer.
pub open spec fn marked(a: AppV) -> AppV {
    let (w, msg) = bookmark_toggled(active_pane(a));
    AppV { flash: Some(msg), ..with_active(a, w) }
}

fn mark(app: &mut App, b: &[u8])
    requires
        old(app).wf(b@),
        old(app).drawn(b@),
    ensures
        final(app).wf(b@),
        final(app).drawn(b@),
        final(app).model(b@) == marked(old(app).model(b@)),
{
    let ghost views = app.views@;
    proof {
        lemma_panes_at(views, b@, app.active as int);
    }
    let msg = app.active_mut().toggle_bookmark(b);
    proof {
        let i = app.active as int;
        lemma_pane_changed(views, b@, app.next_id as int, i, app.views@[i]);
    }
    app.flash = Some(msg);
}

/// The bookmark picker opened, where there are bookmarks.
#[verifier::opaque]
pub open spec fn marks_opened(a: AppV) -> AppV {
    let v = active_pane(a);
    if v.bookmarks.len() == 0 {
        AppV { flash: Some("no bookmarks — press m to add one"@), ..a }
    } else {
        with_active(a, PaneV { mode: Mode::Marks, ..v })
    }
}

fn open_marks(app: &mut App, b: &[u8])
    requires
        old(app).wf(b@),
        old(app).drawn(b@),
    ensures
        final(app).wf(b@),
        final(app).drawn(b@),
        final(app).model(b@) == marks_opened(old(app).model(b@)),
{
    proof {
        reveal(marks_opened);
        lemma_panes_at(app.views@, b@, app.active as int);
    }
    let none = app.active_view().bookmarks.len() == 0;
    assert(none == (active_pane(app.model(b@)).bookmarks.len() == 0));
    if none {
        app.flash = Some("no bookmarks — press m to add one".to_owned());
    } else {
        set_mode(app, Mode::Marks, Ghost(b@));
    }
}

/// The search prompt of a pane opened, with the focused container as its scope.
pub open spec fn search_opened(v: PaneV) -> PaneV {
    PaneV {
        mode: Mode::Search,
        query: empty_line(),
        search_scope: focus_scope(v),
        scoped: false,
        ..v
    }
}

fn start_query(v: &mut Pane, b: &[u8])
    requires
        old(v).wf(b@),
        rows_point(old(v).model(b@)),
    ensures
        final(v).wf(b@),
        rows_point(final(v).model(b@)),
        final(v).links() == old(v).links(),
        final(v).model(b@) == search_opened(old(v).model(b@)),
{
    let scope = v.scope_of_focus(b);
    v.mode = Mode::Search;
    v.query.clear();
    v.search_scope = scope;
    v.scoped = false;
    proof {
        reveal(tree_ok);
    }
}

fn open_search(app: &mut App, b: &[u8])
    requires
        old(app).wf(b@),
        old(app).drawn(b@),
    ensures
        final(app).wf(b@),
        final(app).drawn(b@),
        final(app).model(b@) == ({
            let a = old(app).model(b@);
            with_active(a, search_opened(active_pane(a)))
        }),
{
    let ghost views = app.views@;
    proof {
        lemma_panes_at(views, b@, app.active as int);
    }
    start_query(app.active_mut(), b);
    proof {
        let i = app.active as int;
        lemma_pane_changed(views, b@, app.next_id as int, i, app.views@[i]);
    }
}

/// The focus moved down by `n` rows, or up. The next frame keeps it on a row.
pub open spec fn focus_moved(v: PaneV, n: int, down: bool) -> PaneV {
    PaneV {
        focus: if down {
            capped(v.focus + n)
        } else {
            less(v.focus, n)
        },
        ..v
    }
}

/// Move the focus of a pane by `n` rows.
pub fn move_focus(v: &mut Pane, n: usize, down: bool)
    ensures
        final(v).links() == old(v).links(),
        final(v).rows == old(v).rows,
        final(v).root == old(v).root,
        forall|b: Seq<u8>| old(v).wf(b) ==> #[trigger] final(v).wf(b),
        forall|b: Seq<u8>| #[trigger]
            final(v).model(b) == focus_moved(old(v).model(b), n as int, down),
{
    v.focus = if down {
        saturating_sum(v.focus, n)
    } else if v.focus > n {
        v.focus - n
    } else {
        0
    };
}

fn step(app: &mut App, n: usize, down: bool, b: &[u8])
    requires
        old(app).wf(b@),
        old(app).drawn(b@),
    ensures
        final(app).wf(b@),
        final(app).drawn(b@),
        final(app).model(b@) == ({
            let a = old(app).model(b@);
            with_active(a, focus_moved(active_pane(a), n as int, down))
        }),
{
    let ghost views = app.views@;
    proof {
        lemma_panes_at(views, b@, app.active as int);
    }
    move_focus(app.active_mut(), n, down);
    proof {
        let i = app.active as int;
        lemma_pane_changed(views, b@, app.next_id as int, i, app.views@[i]);
    }
}

fn top_of(v: &mut Pane, Ghost(b): Ghost<Seq<u8>>)
    requires
        old(v).wf(b),
    ensures
        final(v).wf(b),
        final(v).links() == old(v).links(),
        final(v).rows == old(v).rows,
        final(v).root == old(v).root,
        final(v).model(b) == (PaneV { focus: 0, scroll: 0, ..old(v).model(b) }),
{
    v.focus = 0;
    v.scroll = 0;
}

fn go_top(app: &mut App, b: &[u8])
    requires
        old(app).wf(b@),
        old(app).drawn(b@),
    ensures
        final(app).wf(b@),
        final(app).drawn(b@),
        final(app).model(b@) == ({
            let a = old(app).model(b@);
            with_active(a, PaneV { focus: 0, scroll: 0, ..active_pane(a) })
        }),
{
    let ghost views = app.views@;
    proof {
        lemma_panes_at(views, b@, app.active as int);
    }
    top_of(app.active_mut(), Ghost(b@));
    proof {
        let i = app.active as int;
        lemma_pane_changed(views, b@, app.next_id as int, i, app.views@[i]);
    }
}

fn go_sibling(app: &mut App, forward: bool, b: &[u8])
    requires
        old(app).wf(b@),
        old(app).drawn(b@),
    ensures
        final(app).wf(b@),
        final(app).drawn(b@),
        final(app).model(b@) == ({
            let a = old(app).model(b@);
            with_active(a, sibling_visited(b@, active_pane(a), forward))
        }),
{
    let ghost views = app.views@;
    proof {
        lemma_panes_at(views, b@, app.active as int);
    }
    app.active_mut().nav_sibling(b, forward);
    proof {
        let i = app.active as int;
        lemma_pane_changed(views, b@, app.next_id as int, i, app.views@[i]);
    }
}

fn go_left(app: &mut App, b: &[u8])
    requires
        old(app).wf(b@),
        old(app).drawn(b@),
    ensures
        final(app).wf(b@),
        final(app).drawn(b@),
        final(app).model(b@) == ({
            let a = old(app).model(b@);
            with_active(a, collapsed_or_parent(active_pane(a)))
        }),
{
    let ghost views = app.views@;
    proof {
        lemma_panes_at(views, b@, app.active as int);
    }
    app.active_mut().collapse_or_parent(b);
    proof {
        let i = app.active as int;
        lemma_pane_changed(views, b@, app.next_id as int, i, app.views@[i]);
    }
}

/// The focused container opened or closed; a leaf's value peeked at.
pub open spec fn entered(b: Seq<u8>, v: PaneV) -> PaneV {
    if on_leaf(v) {
        peeked(b, v)
    } else {
        focus_toggled(v)
    }
}

fn enter_focus(v: &mut Pane, b: &[u8])
    requires
        old(v).wf(b@),
        rows_point(old(v).model(b@)),
    ensures
        final(v).wf(b@),
        rows_point(final(v).model(b@)),
        final(v).links() == old(v).links(),
        final(v).model(b@) == entered(b@, old(v).model(b@)),
{
    proof {
        reveal(peeked);
    }
    if !v.peek_focused(b) {
        v.toggle_focus(b);
    }
}

fn enter(app: &mut App, b: &[u8])
    requires
        old(app).wf(b@),
        old(app).drawn(b@),
    ensures
        final(app).wf(b@),
        final(app).drawn(b@),
        final(app).model(b@) == ({
            let a = old(app).model(b@);
            with_active(a, entered(b@, active_pane(a)))
        }),
{
    let ghost views = app.views@;
    proof {
        lemma_panes_at(views, b@, app.active as int);
    }
    enter_focus(app.active_mut(), b);
    proof {
        let i = app.active as int;
        lemma_pane_changed(views, b@, app.next_id as int, i, app.views@[i]);
    }
}


// ---------------------------------------------------------------------------
// Normal mode
// ---------------------------------------------------------------------------
/// What a key asks for in normal mode.
#[derive(Clone, Copy, PartialEq, Eq, Debug, Structural)]
pub enum Command {
    Nothing,
    /// Copy the focused value.
    YankValue,
    /// Copy the path of the focused node.
    YankPath,
    /// Write the focused value out, and quit.
    Extract,
    /// Count the focused node's children.
    Count,
    /// Sum up the numbers below the focused node.
    Aggregate,
    /// Show the focused node's type.
    Schema,
    /// Open the path prompt.
    Goto,
    /// Open the filter prompt.
    Filter,
    /// Bookmark the focused node, or take its bookmark away.
    Mark,
    /// Show the shortcuts.
    Help,
    /// Open the bookmark picker.
    Marks,
    /// Close the active pane, or quit on the last one.
    Close,
    /// Close the active pane, unless it is the last one.
    CloseOrStay,
    /// Open a pane at the focused node.
    Split,
    /// Show the focused node in the preview pane.
    Preview,
    /// Lay the panes out the other way.
    Layout,
    /// Make the active pane larger.
    Grow,
    /// Make the active pane smaller.
    Shrink,
    /// Open the search prompt.
    Search,
    Down,
    Up,
    /// Go to the next node of the same level.
    NextSibling,
    /// Go to the previous node of the same level.
    PrevSibling,
    /// Go to the first row.
    Top,
    /// Open or close the focused container, or peek at a leaf.
    Enter,
    NextPane,
    PrevPane,
    PageDown,
    PageUp,
    /// Close the focused container, or go to its parent.
    Left,
    HalfDown,
    HalfUp,
}

/// The key map of normal mode. Only the paging letters need Ctrl.
pub open spec fn command_of(code: KeyCode, ctrl: bool) -> Command {
    match code {
        KeyCode::Char(c) => if c == 'y' {
            Command::YankValue
        } else if c == 'Y' {
            Command::YankPath
        } else if c == 'p' {
            Command::Extract
        } else if c == 'c' {
            Command::Count
        } else if c == '#' {
            Command::Aggregate
        } else if c == 't' {
            Command::Schema
        } else if c == ':' {
            Command::Goto
        } else if c == '|' {
            Command::Filter
        } else if c == 'm' {
            Command::Mark
        } else if c == '?' {
            Command::Help
        } else if c == '\'' {
            Command::Marks
        } else if c == 'q' {
            Command::Close
        } else if c == 'x' {
            Command::CloseOrStay
        } else if c == 's' {
            Command::Split
        } else if c == 'o' {
            Command::Preview
        } else if c == '\\' {
            Command::Layout
        } else if c == '+' || c == '=' {
            Command::Grow
        } else if c == '-' || c == '_' {
            Command::Shrink
        } else if c == '/' {
            Command::Search
        } else if c == 'j' {
            Command::Down
        } else if c == 'k' {
            Command::Up
        } else if c == 'J' {
            Command::NextSibling
        } else if c == 'K' {
            Command::PrevSibling
        } else if c == 'g' {
            Command::Top
        } else if c == ' ' {
            Command::Enter
        } else if c == 'f' && ctrl {
            Command::PageDown
        } else if c == 'b' && ctrl {
            Command::PageUp
        } else if c == 'd' && ctrl {
            Command::HalfDown
        } else if c == 'u' && ctrl {
            Command::HalfUp
        } else {
            Command::Nothing
        },
        KeyCode::Esc => Command::Close,
        KeyCode::Tab => Command::NextPane,
        KeyCode::BackTab => Command::PrevPane,
        KeyCode::Down => Command::Down,
        KeyCode::Up => Command::Up,
        KeyCode::PageDown => Command::PageDown,
        KeyCode::PageUp => Command::PageUp,
        KeyCode::Home => Command::Top,
        KeyCode::Enter => Command::Enter,
        KeyCode::Right => Command::Enter,
        KeyCode::Left => Command::Left,
        _ => Command::Nothing,
    }
}

fn command_for(code: KeyCode, ctrl: bool) -> (r: Command)
    ensures
        r == command_of(code, ctrl),
{
    match code {
        KeyCode::Char('y') => Command::YankValue,
        KeyCode::Char('Y') => Command::YankPath,
        KeyCode::Char('p') => Command::Extract,
        KeyCode::Char('c') => Command::Count,
        KeyCode::Char('#') => Command::Aggregate,
        KeyCode::Char('t') => Command::Schema,
        KeyCode::Char(':') => Command::Goto,
        KeyCode::Char('|') => Command::Filter,
        KeyCode::Char('m') => Command::Mark,
        KeyCode::Char('?') => Command::Help,
        KeyCode::Char('\'') => Command::Marks,
        KeyCode::Char('q') | KeyCode::Esc => Command::Close,
        KeyCode::Char('x') => Command::CloseOrStay,
        KeyCode::Char('s') => Command::Split,
        KeyCode::Char('o') => Command::Preview,
        KeyCode::Char('\\') => Command::Layout,
        KeyCode::Char('+') | KeyCode::Char('=') => Command::Grow,
        KeyCode::Char('-') | KeyCode::Char('_') => Command::Shrink,
        KeyCode::Char('/') => Command::Search,
        KeyCode::Char('j') | KeyCode::Down => Command::Down,
        KeyCode::Char('k') | KeyCode::Up => Command::Up,
        KeyCode::Char('J') => Command::NextSibling,
        KeyCode::Char('K') => Command::PrevSibling,
        KeyCode::Char('g') | KeyCode::Home => Command::Top,
        KeyCode::Char(' ') | KeyCode::Enter | KeyCode::Right => Command::Enter,
        KeyCode::Tab => Command::NextPane,
        KeyCode::BackTab => Command::PrevPane,
        KeyCode::Left => Command::Left,
        KeyCode::Char('f') => if ctrl {
            Command::PageDown
        } else {
            Command::Nothing
        },
        KeyCode::Char('b') => if ctrl {
            Command::PageUp
        } else {
            Command::Nothing
        },
        KeyCode::Char('d') => if ctrl {
            Command::HalfDown
        } else {
            Command::Nothing
        },
        KeyCode::Char('u') => if ctrl {
            Command::HalfUp
        } else {
            Command::Nothing
        },
        KeyCode::PageDown => Command::PageDown,
        KeyCode::PageUp => Command::PageUp,
        _ => Command::Nothing,
    }
}

/// A command of normal mode carried out, on a screen that shows `h` rows of the
/// active pane.
#[verifier::opaque]
pub open spec fn command_done(b: Seq<u8>, a: AppV, command: Command, h: int) -> (
    AppV,
    KeyOutcome,
) {
    let v = active_pane(a);
    let n = a.views.len() as int;
    let go_on = KeyOutcome::Continue;
    match command {
        Command::Nothing => (a, go_on),
        Command::YankValue => (value_yanked(b, a), go_on),
        Command::YankPath => (path_yanked(a), go_on),
        Command::Extract => extracted(a),
        Command::Count => (counted(b, a), go_on),
        Command::Aggregate => (a, KeyOutcome::Aggregate),
        Command::Schema => (schema_opened(b, a), go_on),
        Command::Goto => (goto_opened(a), go_on),
        Command::Filter => (filter_opened(a), go_on),
        Command::Mark => (marked(a), go_on),
        Command::Help => (with_active(a, PaneV { mode: Mode::Help, ..v }), go_on),
        Command::Marks => (marks_opened(a), go_on),
        Command::Close => (
            closed_active(a).0,
            if closed_active(a).1 {
                KeyOutcome::Continue
            } else {
                KeyOutcome::Quit
            },
        ),
        Command::CloseOrStay => (closed_active(a).0, go_on),
        Command::Split => (split_off(b, a), go_on),
        Command::Preview => (previewed(b, a), go_on),
        Command::Layout => (AppV { stacked: !a.stacked, ..a }, go_on),
        Command::Grow => (resized(a, true), go_on),
        Command::Shrink => (resized(a, false), go_on),
        Command::NextPane => (AppV { active: next_in(a.active, n), ..a }, go_on),
        Command::PrevPane => (AppV { active: prev_in(a.active, n), ..a }, go_on),
        Command::Search => (with_active(a, search_opened(v)), KeyOutcome::Relaunch),
        Command::Down => (with_active(a, focus_moved(v, 1, true)), go_on),
        Command::Up => (with_active(a, focus_moved(v, 1, false)), go_on),
        Command::NextSibling => (with_active(a, sibling_visited(b, v, true)), go_on),
        Command::PrevSibling => (with_active(a, sibling_visited(b, v, false)), go_on),
        Command::PageDown => (with_active(a, focus_moved(v, h, true)), go_on),
        Command::PageUp => (with_active(a, focus_moved(v, h, false)), go_on),
        Command::HalfDown => (with_active(a, focus_moved(v, h / 2, true)), go_on),
        Command::HalfUp => (with_active(a, focus_moved(v, h / 2, false)), go_on),
        Command::Top => (with_active(a, PaneV { focus: 0, scroll: 0, ..v }), go_on),
        Command::Enter => (with_active(a, entered(b, v)), go_on),
        Command::Left => (with_active(a, collapsed_or_parent(v)), go_on),
    }
}

fn run_command(app: &mut App, command: Command, h: usize, b: &[u8]) -> (r: KeyOutcome)
    requires
        old(app).wf(b@),
        old(app).drawn(b@),
        old(app).next_id < u64::MAX,
    ensures
        final(app).wf(b@),
        final(app).drawn(b@),
        command_done(b@, old(app).model(b@), command, h as int) == (final(app).model(b@), r),
{
    proof {
        reveal(command_done);
        assert(app.model(b@).views.len() == app.views@.len());
    }
    match command {
        Command::Nothing => {},
        Command::YankValue => app.yank_value(b),
        Command::YankPath => app.yank_path(b),
        Command::Extract => {
            return extract(app, b);
        },
        Command::Count => count(app, b),
        Command::Aggregate => {
            return KeyOutcome::Aggregate;
        },
        Command::Schema => open_schema(app, b),
        Command::Goto => open_goto(app, b),
        Command::Filter => open_filter(app, b),
        Command::Mark => mark(app, b),
        Command::Help => set_mode(app, Mode::Help, Ghost(b@)),
        Command::Marks => open_marks(app, b),
        Command::Close => {
            if !app.close_active(b) {
                return KeyOutcome::Quit;
            }
        },
        Command::CloseOrStay => {
            app.close_active(b);
        },
        Command::Split => app.split_active(b),
        Command::Preview => app.preview_active(b),
        Command::Layout => app.toggle_layout(),
        Command::Grow => app.grow_active(b),
        Command::Shrink => app.shrink_active(b),
        Command::NextPane => app.next_pane(),
        Command::PrevPane => app.prev_pane(),
        Command::Search => {
            open_search(app, b);
            return KeyOutcome::Relaunch;
        },
        Command::Down => step(app, 1, true, b),
        Command::Up => step(app, 1, false, b),
        Command::NextSibling => go_sibling(app, true, b),
        Command::PrevSibling => go_sibling(app, false, b),
        Command::PageDown => step(app, h, true, b),
        Command::PageUp => step(app, h, false, b),
        Command::HalfDown => step(app, h / 2, true, b),
        Command::HalfUp => step(app, h / 2, false, b),
        Command::Top => go_top(app, b),
        Command::Enter => enter(app, b),
        Command::Left => go_left(app, b),
    }
    KeyOutcome::Continue
}

// ---------------------------------------------------------------------------
// Every mode
// ---------------------------------------------------------------------------
/// What a key press makes of the workspace, on that screen, with `h` rows of the
/// active pane shown.
pub open spec fn key_processed(
    b: Seq<u8>,
    a: AppV,
    code: KeyCode,
    ctrl: bool,
    shift: bool,
    h: int,
    screen: Area,
) -> (AppV, KeyOutcome) {
    let v = active_pane(a);
    let inner_w = peek_width(screen.width as int) - 2;
    let inner_h = peek_height(screen.height as int) - 2;
    match v.mode {
        Mode::Search => {
            let (w, out) = search_key(b, v, code, ctrl, shift);
            (with_active(a, w), out)
        },
        Mode::Goto => (goto_key(b, a, code, ctrl), KeyOutcome::Continue),
        Mode::Filter => filter_key(a, code, ctrl),
        Mode::Marks => (with_active(a, marks_key(b, v, code)), KeyOutcome::Continue),
        Mode::Help => (with_active(a, PaneV { mode: Mode::Normal, ..v }), KeyOutcome::Continue),
        Mode::Peek => (
            with_active(a, peek_key(v, code, ctrl, inner_w, inner_h)),
            KeyOutcome::Continue,
        ),
        Mode::Schema => (
            if code == KeyCode::Char('y') {
                type_yanked(a)
            } else {
                with_active(a, schema_key(v, code, ctrl, inner_h))
            },
            KeyOutcome::Continue,
        ),
        Mode::Normal => command_done(
            b,
            AppV { flash: None, ..a },
            command_of(code, ctrl),
            h,
        ),
    }
}

fn press_in_search(app: &mut App, code: KeyCode, ctrl: bool, shift: bool, b: &[u8]) -> (r:
    KeyOutcome)
    requires
        old(app).wf(b@),
        old(app).drawn(b@),
    ensures
        final(app).wf(b@),
        final(app).drawn(b@),
        ({
            let a = old(app).model(b@);
            let (w, out) = search_key(b@, active_pane(a), code, ctrl, shift);
            r == out && final(app).model(b@) == with_active(a, w)
        }),
{
    let ghost views = app.views@;
    proof {
        lemma_panes_at(views, b@, app.active as int);
    }
    let out = on_search_key(app.active_mut(), code, ctrl, shift, b);
    proof {
        let i = app.active as int;
        lemma_pane_changed(views, b@, app.next_id as int, i, app.views@[i]);
    }
    out
}

fn press_in_marks(app: &mut App, code: KeyCode, b: &[u8])
    requires
        old(app).wf(b@),
        old(app).drawn(b@),
    ensures
        final(app).wf(b@),
        final(app).drawn(b@),
        final(app).model(b@) == ({
            let a = old(app).model(b@);
            with_active(a, marks_key(b@, active_pane(a), code))
        }),
{
    let ghost views = app.views@;
    proof {
        lemma_panes_at(views, b@, app.active as int);
    }
    on_marks_key(app.active_mut(), code, b);
    proof {
        let i = app.active as int;
        lemma_pane_changed(views, b@, app.next_id as int, i, app.views@[i]);
    }
}

fn press_in_peek(app: &mut App, code: KeyCode, ctrl: bool, screen: Area, b: &[u8])
    requires
        old(app).wf(b@),
        old(app).drawn(b@),
        screen.wf(),
    ensures
        final(app).wf(b@),
        final(app).drawn(b@),
        final(app).model(b@) == ({
            let a = old(app).model(b@);
            let inner_w = peek_width(screen.width as int) - 2;
            let inner_h = peek_height(screen.height as int) - 2;
            with_active(a, peek_key(active_pane(a), code, ctrl, inner_w, inner_h))
        }),
{
    let ghost views = app.views@;
    proof {
        lemma_panes_at(views, b@, app.active as int);
    }
    let (_, inner_w, inner_h) = peek_layout(screen);
    on_peek_key(app.active_mut(), code, ctrl, inner_w, inner_h);
    proof {
        let i = app.active as int;
        lemma_pane_changed(views, b@, app.next_id as int, i, app.views@[i]);
    }
}

fn press_in_schema(app: &mut App, code: KeyCode, ctrl: bool, screen: Area, b: &[u8])
    requires
        old(app).wf(b@),
        old(app).drawn(b@),
        screen.wf(),
    ensures
        final(app).wf(b@),
        final(app).drawn(b@),
        final(app).model(b@) == ({
            let a = old(app).model(b@);
            let inner_h = peek_height(screen.height as int) - 2;
            with_active(a, schema_key(active_pane(a), code, ctrl, inner_h))
        }),
{
    let ghost views = app.views@;
    proof {
        lemma_panes_at(views, b@, app.active as int);
    }
    let (_, _, inner_h) = peek_layout(screen);
    on_schema_key(app.active_mut(), code, ctrl, inner_h);
    proof {
        let i = app.active as int;
        lemma_pane_changed(views, b@, app.next_id as int, i, app.views@[i]);
    }
}

/// Apply one key press. Everything self-contained happens here; what needs the
/// bytes for longer, a thread or the screen is left to the caller by the outcome.
pub fn process_key(
    app: &mut App,
    code: KeyCode,
    ctrl: bool,
    shift: bool,
    b: &[u8],
    h: usize,
    screen: Area,
) -> (r: KeyOutcome)
    requires
        old(app).wf(b@),
        old(app).drawn(b@),
        old(app).next_id < u64::MAX,
        screen.wf(),
    ensures
        final(app).wf(b@),
        final(app).drawn(b@),
        key_processed(b@, old(app).model(b@), code, ctrl, shift, h as int, screen) == (
            final(app).model(b@),
            r,
        ),
{
    proof {
        lemma_panes_at(app.views@, b@, app.active as int);
    }
    // The prompts and overlays belong to the active pane: the keys that switch panes
    // are those of normal mode.
    match app.active_view().mode {
        Mode::Search => {
            return press_in_search(app, code, ctrl, shift, b);
        },
        Mode::Filter => {
            return on_filter_key(app, code, ctrl, b);
        },
        Mode::Normal => {
            // Any key dismisses the previous status line.
            app.flash = None;
            return run_command(app, command_for(code, ctrl), h, b);
        },
        Mode::Goto => on_goto_key(app, code, ctrl, b),
        Mode::Marks => press_in_marks(app, code, b),
        Mode::Help => set_mode(app, Mode::Normal, Ghost(b@)),
        Mode::Peek => press_in_peek(app, code, ctrl, screen, b),
        Mode::Schema => {
            if matches!(code, KeyCode::Char('y')) {
                yank_type(app, b);
            } else {
                press_in_schema(app, code, ctrl, screen, b);
            }
        },
    }
    KeyOutcome::Continue
}

/// A path that was submitted is what Up recalls when the prompt is opened next.
pub proof fn law_submitted_path_comes_back(b: Seq<u8>, a: AppV, ctrl: bool)
    requires
        0 <= a.active < a.views.len(),
        history_wf(a.goto_history),
        trimmed(whole(active_pane(a).goto)).len() > 0,
    ensures
        ({
            let reopened = goto_opened(goto_key(b, a, KeyCode::Enter, ctrl));
            let after = goto_key(b, reopened, KeyCode::Up, ctrl);
            whole(active_pane(after).goto) == trimmed(whole(active_pane(a).goto))
        }),
{
    reveal(goto_key);
    reveal(path_submitted);
    reveal(older_path_recalled);
    let line = trimmed(whole(active_pane(a).goto));
    let reopened = goto_opened(goto_key(b, a, KeyCode::Enter, ctrl));
    let after = goto_key(b, reopened, KeyCode::Up, ctrl);
    assert(reopened.goto_history.entries.last() == line);
    assert(whole(active_pane(after).goto) =~= line);
}

/// A filter that was submitted and ran is what Up recalls when the prompt is opened
/// next.
pub proof fn law_submitted_filter_comes_back(a: AppV, ctrl: bool)
    requires
        0 <= a.active < a.views.len(),
        history_wf(a.filter_history),
        filter_key(a, KeyCode::Enter, ctrl).1 is LaunchFilter,
    ensures
        ({
            let reopened = filter_opened(filter_key(a, KeyCode::Enter, ctrl).0);
            let after = filter_key(reopened, KeyCode::Up, ctrl).0;
            whole(active_pane(after).filter_query) == trimmed(whole(active_pane(a).filter_query))
        }),
{
    reveal(filter_key);
    reveal(filter_submitted);
    reveal(older_filter_recalled);
    let line = trimmed(whole(active_pane(a).filter_query));
    let reopened = filter_opened(filter_key(a, KeyCode::Enter, ctrl).0);
    let after = filter_key(reopened, KeyCode::Up, ctrl).0;
    lemma_trimmed_again(whole(active_pane(a).filter_query));
    assert(reopened.filter_history.entries.last() == line);
    assert(whole(active_pane(after).filter_query) =~= line);
}

/// A half-typed path is stashed by Up, and comes back with Down.
pub proof fn law_half_typed_path_returns(b: Seq<u8>, a: AppV, ctrl: bool)
    requires
        0 <= a.active < a.views.len(),
        history_wf(a.goto_history),
        a.goto_history.cursor is None,
    ensures
        ({
            let up = goto_key(b, a, KeyCode::Up, ctrl);
            let down = goto_key(b, up, KeyCode::Down, ctrl);
            whole(active_pane(down).goto) == whole(active_pane(a).goto)
        }),
{
    reveal(goto_key);
    reveal(older_path_recalled);
    reveal(newer_path_recalled);
    let up = goto_key(b, a, KeyCode::Up, ctrl);
    let down = goto_key(b, up, KeyCode::Down, ctrl);
    assert(whole(active_pane(down).goto) =~= whole(active_pane(a).goto));
}

/// A half-typed filter is stashed by Up, and comes back with Down.
pub proof fn law_half_typed_filter_returns(a: AppV, ctrl: bool)
    requires
        0 <= a.active < a.views.len(),
        history_wf(a.filter_history),
        a.filter_history.cursor is None,
    ensures
        ({
            let up = filter_key(a, KeyCode::Up, ctrl).0;
            let down = filter_key(up, KeyCode::Down, ctrl).0;
            whole(active_pane(down).filter_query) == whole(active_pane(a).filter_query)
        }),
{
    reveal(filter_key);
    reveal(older_filter_recalled);
    reveal(newer_filter_recalled);
    let up = filter_key(a, KeyCode::Up, ctrl).0;
    let down = filter_key(up, KeyCode::Down, ctrl).0;
    assert(whole(active_pane(down).filter_query) =~= whole(active_pane(a).filter_query));
}

// ---------------------------------------------------------------------------
// The run loop's part
// ---------------------------------------------------------------------------
/// The outcome of a burst of keys: what the latest of them asked for, if any did.
pub open spec fn coalesced(before: KeyOutcome, after: KeyOutcome) -> KeyOutcome {
    if after is Continue {
        before
    } else {
        after
    }
}

pub fn coalesce(before: KeyOutcome, after: KeyOutcome) -> (r: KeyOutcome)
    ensures
        r == coalesced(before, after),
{
    match after {
        KeyOutcome::Continue => before,
        _ => after,
    }
}

/// Rows moved per mouse-wheel notch: chunky, not the 1-row arrow step.
pub const WHEEL_STEP: usize = 3;

/// A notch of the wheel with the pointer at a cell: the focus moves in the pane
/// under it.
pub open spec fn wheeled(a: AppV, rects: Seq<Area>, col: u16, row: u16, down: bool) -> AppV {
    match pane_of_cell(rects, a.views.len() as int, 0, col, row) {
        Some(i) => AppV {
            views: a.views.update(i, focus_moved(a.views[i], WHEEL_STEP as int, down)),
            ..a
        },
        None => a,
    }
}

/// A pane with its window flattened for a content height of `h`: landed on the node it
/// was to jump to, or shown as far as the time allowed.
pub open spec fn window_flattened(b: Seq<u8>, v: PaneV, w: PaneV, h: int) -> bool {
    if v.want_path is Some {
        w == window_landed(b, v, h)
    } else {
        exists|patience: nat| w == #[trigger] window_shown(b, v, h, patience)
    }
}

impl App {
    /// Whether every pane has a weight that a pane can have.
    pub open spec fn weights_ok(&self) -> bool {
        forall|i: int|
            0 <= i < self.views@.len() ==> (#[trigger] self.views@[i]).weight <= WEIGHT_MAX
    }

    /// In every state of the session the panes have weights in range.
    pub proof fn law_weights_in_range(&self, b: Seq<u8>)
        requires
            self.wf(b),
        ensures
            self.weights_ok(),
    {
        assert forall|i: int| 0 <= i < self.views@.len() implies (#[trigger] self.views@[i]).weight
            <= WEIGHT_MAX by {
            lemma_panes_at(self.views@, b, i);
        }
    }

    /// The rectangles of the panes and of the separators between them, on that
    /// screen.
    pub fn rects(&self, screen: Area) -> (r: Vec<Area>)
        requires
            screen.wf(),
            self.views@.len() > 0,
        ensures
            r@.len() == 2 * self.views@.len() - 1,
            forall|i: int|
                0 <= i < r@.len() ==> if self.stacked {
                    (#[trigger] r@[i]).x == screen.x && r@[i].width == screen.width
                } else {
                    r@[i].y == screen.y && r@[i].height == above_footer(screen).height
                },
            self.weights_ok() ==> forall|i: int|
                0 <= i < r@.len() ==> within(#[trigger] r@[i], above_footer(screen)),
    {
        pane_layout(panes_area(screen), self.weights().as_slice(), self.stacked)
    }

    /// Flatten the window of every pane to its own content height, which depends on the
    /// orientation and on how many panes there are. Each pane has a deadline of its own.
    pub fn flatten_panes(&mut self, b: &[u8], rects: &[Area], deadlines: &[Instant])
        requires
            old(self).wf(b@),
            rects@.len() >= 2 * old(self).views@.len() - 1,
            deadlines@.len() >= old(self).views@.len(),
        ensures
            final(self).wf(b@),
            final(self).drawn(b@),
            final(self).model(b@) == (AppV {
                views: final(self).model(b@).views,
                ..old(self).model(b@)
            }),
            final(self).views@.len() == old(self).views@.len(),
            forall|i: int|
                0 <= i < old(self).views@.len() ==> window_flattened(
                    b@,
                    old(self).views@[i].model(b@),
                    (#[trigger] final(self).views@[i]).model(b@),
                    content_rows(rects@[2 * i]),
                ),
    {
        let ghost before = self.views@;
        let n: usize = self.views.len();
        let mut i: usize = 0;
        while i < n
            invariant
                i <= n,
                n == self.views@.len(),
                n == before.len(),
                before == old(self).views@,
                rects@.len() >= 2 * n - 1,
                deadlines@.len() >= n,
                self.wf(b@),
                *self == (App { views: self.views, ..*old(self) }),
                forall|k: int| i <= k < n ==> #[trigger] self.views@[k] == before[k],
                forall|k: int|
                    0 <= k < i ==> rows_point((#[trigger] self.views@[k]).model(b@))
                        && window_flattened(
                        b@,
                        before[k].model(b@),
                        self.views@[k].model(b@),
                        content_rows(rects@[2 * k]),
                    ),
            decreases n - i,
        {
            let ghost views = self.views@;
            proof {
                lemma_panes_at(views, b@, i as int);
            }
            let all: usize = rects.len();
            assert(2 * i < all);
            let h: usize = content_height(rects[2 * i]);
            let v = &mut self.views[i];
            v.flatten_window(b, h, deadlines[i]);
            proof {
                let w = self.views@[i as int];
                assert(self.views@ =~= views.update(i as int, w));
                lemma_pane_changed(views, b@, self.next_id as int, i as int, w);
            }
            i += 1;
        }
        proof {
            reveal(panes_drawn);
        }
    }

    /// The active pane's content height (rows) for a given screen: used to size
    /// paging jumps, since each pane reserves a title row. Side by side it is that of
    /// the screen; stacked, what the layout gives the pane.
    pub fn active_height(&self, screen: Area) -> (h: usize)
        requires
            screen.wf(),
            self.active < self.views@.len(),
        ensures
            h > 0,
            !self.stacked ==> h == content_rows(above_footer(screen)),
            self.weights_ok() ==> h <= content_rows(above_footer(screen)),
    {
        let rects = self.rects(screen);
        let n: usize = rects.len();
        assert(2 * self.active < n);
        content_height(rects[2 * self.active])
    }

    /// Scroll the pane under the pointer by one notch of the wheel.
    pub fn wheel(&mut self, rects: &[Area], col: u16, row: u16, down: bool, b: &[u8])
        requires
            old(self).wf(b@),
            old(self).drawn(b@),
            rects@.len() >= 2 * old(self).views@.len() - 1,
        ensures
            final(self).wf(b@),
            final(self).drawn(b@),
            final(self).model(b@) == wheeled(old(self).model(b@), rects@, col, row, down),
    {
        let ghost views = self.views@;
        if let Some(i) = pane_at(rects, self.views.len(), col, row) {
            proof {
                lemma_panes_at(views, b@, i as int);
            }
            move_focus(&mut self.views[i], WHEEL_STEP, down);
            proof {
                let w = self.views@[i as int];
                assert(self.views@ =~= views.update(i as int, w));
                lemma_pane_changed(views, b@, self.next_id as int, i as int, w);
            }
        }
    }

    /// How long the run loop may wait for a key, in milliseconds: not at all while
    /// rows are still missing, and else a short while, so that the counts of
    /// running searches keep ticking.
    pub fn poll_ms(&self) -> (r: u64)
        ensures
            r == if exists|i: int|
                0 <= i < self.views@.len() && (#[trigger] self.views@[i]).flatten_incomplete {
                0
            } else {
                100u64
            },
    {
        if self.flatten_pending() {
            0
        } else {
            100
        }
    }
}

} // verus!
