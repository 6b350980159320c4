//! One pane: an independent lazy tree and viewport over a byte range of the
//! document, with its prompts, its search and its overlays.

use crate::filter::{hit_views, FilterHit, HitV};
use crate::input::{InputV, TextInput};
use crate::overlay::lower;
use crate::paths::{
    join_path, law_climb_keeps_tree, lemma_grafted_wf, lemma_node_at_wf, lemma_reachable_any,
    lemma_reachable_prefix, parse_path, parsed_path, path_title, resolve_with_climb,
    resolved_climbing, segment_views, ParsedPath, SegV,
};
use crate::rows::{
    flat, flat_outcome, flatten, law_flatten_keeps_tree, law_rows_lead_to_nodes, row_leads,
    row_views, FlatV, Row, RowV,
};
use crate::scanner::{addressable, container_empty, decode_str, decoded, empty_container, Kind};
use crate::schema::inferred;
use crate::search::{query_pattern, Pattern, PatternV};
use crate::text::{decimal, decimal_string, joint, text_from, text_of, texts, trim, trimmed};
use crate::tree::{
    breadcrumb_segments, collect_expanded, crumbs, document_root, expand_to, expanded_at,
    expanded_paths, expanded_to, fed, get, get_mut, grafted, grown, law_expand_to_keeps_tree,
    lemma_grown_grafted, lemma_grown_reaches, lemma_grown_scan, lemma_grown_self, lemma_grown_step,
    lemma_grown_toggled, lemma_scanned_to_keeps, lemma_toggled_wf, make_root, node_at, node_wf,
    path_views, reachable, scanned_to, set_expanded, toggled, value_range, Node, NodeV,
};
use std::time::Instant;
use vstd::prelude::*;

verus! {

/// Upper bound on the bytes the peek overlay decodes for a single scalar. Peek is
/// on-demand (one keypress, not per-frame), so this is far more generous than the
/// row cap, while still bounding the decode and wrap of a pathological string.
pub const PEEK_MAX_BYTES: usize = 0x80_0000;

/// Pane size weights (a layout `Fill` factor). A new pane starts at
/// `WEIGHT_DEFAULT`; `+`/`-` step it within `[WEIGHT_MIN, WEIGHT_MAX]`. Equal
/// weights divide the space evenly; a larger weight takes a bigger share.
pub const WEIGHT_DEFAULT: u16 = 4;

pub const WEIGHT_MIN: u16 = 1;

pub const WEIGHT_MAX: u16 = 16;

/// Rows flattened beyond what is on screen.
pub const ROW_HEADROOM: usize = 64;

#[derive(Clone, Copy, PartialEq, Eq, Debug, Structural)]
pub enum Mode {
    Normal,
    Search,
    /// Typing a path to jump to (`:` prompt, e.g. `data.users[3].city`).
    Goto,
    /// Typing a jq-style filter (`|` prompt, e.g. `.users[] | select(.age > 30)`).
    Filter,
    /// The bookmark picker overlay (`'`): pick a saved node to jump to.
    Marks,
    /// The keyboard-shortcut cheatsheet overlay (`?`): any key closes it.
    Help,
    /// The value-peek overlay (`Enter`/`Space` on a scalar leaf): the focused
    /// value decoded in full and scrollable. See [`Pane::peek`].
    Peek,
    /// The schema/shape overlay (`t` on a container). See [`Pane::schema`].
    Schema,
}

/// The state behind a [`Mode::Peek`] overlay: one scalar's full value, decoded
/// once when the overlay opens (with JSON escapes rendered, so that `\n` becomes a
/// real line break) so it can be read wrapped and scrolled without touching the
/// source again.
pub struct Peek {
    /// The focused node's label, shown in the card title.
    pub title: String,
    /// The decoded value; may be capped at `PEEK_MAX_BYTES` of source.
    pub text: String,
    /// True when the decode hit the cap, so the title can flag it.
    pub truncated: bool,
    /// Top visible wrapped line (advanced by the scroll keys).
    pub scroll: usize,
}

/// The `t` schema overlay: the focused node's inferred structural type, rendered
/// TypeScript-style and scrollable, plus its copyable source.
pub struct SchemaView {
    /// The focused node's label, for the card title.
    pub title: String,
    /// The rendered type as display lines.
    pub lines: Vec<String>,
    /// The same type as copyable text (`y` yanks it).
    pub source: String,
    /// Top visible line (advanced by the scroll keys).
    pub scroll: usize,
}

/// A search scope: the focused container's subtree, captured when the `/` prompt
/// opens. `Tab` toggles between searching this subtree and the whole document.
/// `path` is the container's absolute path from the pane root, so subtree-local
/// match paths (the worker indexes children from 0) can be lifted back to
/// absolute paths that line up with the rows.
pub struct Scope {
    pub start: usize,
    pub end: usize,
    pub kind: Kind,
    pub jsonl: bool,
    pub path: Vec<usize>,
    pub label: String,
}

/// What a search has found so far.
pub struct Found {
    /// Match paths received so far (each is an index path into the tree).
    pub matches: Vec<Vec<usize>>,
    /// True once the worker finished and everything it found is here.
    pub finished: bool,
}

/// What a filter has selected so far.
pub struct Hits {
    pub hits: Vec<FilterHit>,
    /// True once the worker finished and everything it selected is here.
    pub finished: bool,
}

/// One pane: an independent lazy tree and viewport over a byte range of the
/// shared source. The main pane is the whole document; a split pane (`derived`)
/// is rooted at another pane's focused node. Each keeps its own focus, scroll,
/// expansion, and search.
pub struct Pane {
    pub root: Node,
    pub name: String,
    /// True for a pane spun off by `s` (rooted at a sub-range), false for the
    /// document pane. Drives the `↳` title marker and which pane the
    /// streaming re-parse feeds.
    pub derived: bool,
    /// Relative size in the workspace layout (a `Fill` weight); `+`/`-` adjust it.
    pub weight: u16,
    /// Stable identity for parent/child links (Vec indices shift when a pane is
    /// closed, so links can't be indices).
    pub id: u64,
    /// The pane this was split from. Closing a pane closes its descendants too.
    pub parent: Option<u64>,
    /// The child reused by `o` (open-or-replace): re-rooted in place rather than
    /// opening yet another pane.
    pub preview_child: Option<u64>,
    pub focus: usize,
    pub scroll: usize,
    pub rows: Vec<Row>,
    pub mode: Mode,
    /// Live search-input buffer (typed while in `Mode::Search`).
    pub query: TextInput,
    /// Set when the typed `re:`/`g:` query failed to compile, so the footer can
    /// surface "(bad pattern)" without re-parsing. Cleared on a clean compile.
    pub query_error: Option<String>,
    /// What the running search has found, if there is one. `None` once
    /// cleared/cancelled.
    pub search: Option<Found>,
    /// The focused container captured when `/` opened, or `None` if the focus
    /// wasn't a container. `Tab` in the prompt flips `scoped` to search just this
    /// subtree (faster and quieter in a huge document) vs. the whole pane.
    pub search_scope: Option<Scope>,
    pub scoped: bool,
    /// Which match the cursor is currently on.
    pub match_idx: usize,
    /// Whether match-cycling has landed on a result yet (so the first next/prev
    /// press goes to the first/last match, not the second).
    pub landed: bool,
    /// The absolute match paths, for row highlighting. Grown incrementally.
    pub match_set: Vec<Vec<usize>>,
    /// How many of `search.matches` are already in `match_set`.
    pub indexed: usize,
    /// A pending jump target: the next frame flattens far enough to land on it.
    pub want_path: Option<Vec<usize>>,
    /// Set when the last cooperative `flatten_window` yielded mid-skip (a huge
    /// value still being stepped over). The run loop keeps flattening, without
    /// blocking on input, until it clears. Always false after a jump.
    pub flatten_incomplete: bool,
    /// Live path-input buffer (typed while in `Mode::Goto`).
    pub goto: TextInput,
    /// Saved node paths (`m` toggles), jumped to via the `'` picker overlay.
    pub bookmarks: Vec<Vec<usize>>,
    /// Selected row in the bookmark picker.
    pub mark_idx: usize,
    /// Live filter-input buffer (typed while in `Mode::Filter`).
    pub filter_query: TextInput,
    /// Set when the typed filter failed to parse, so the footer can surface why
    /// without closing the prompt. Cleared on the next edit.
    pub filter_error: Option<String>,
    /// What the running filter of a result pane has selected: its hits become
    /// this pane's synthetic-array children. `None` for ordinary panes.
    pub filter: Option<Hits>,
    /// How many of `filter.hits` are already materialized as root children.
    pub filter_added: usize,
    /// The open value-peek overlay, if any (`Mode::Peek`).
    pub peek: Option<Peek>,
    /// The open schema overlay, if any (`Mode::Schema`).
    pub schema: Option<SchemaView>,
}

// ---------------------------------------------------------------------------
// Panes as the contracts speak of them
// ---------------------------------------------------------------------------
pub struct PeekV {
    pub title: Seq<char>,
    pub text: Seq<char>,
    pub truncated: bool,
    pub scroll: int,
}

pub struct SchemaViewV {
    pub title: Seq<char>,
    pub lines: Seq<Seq<char>>,
    pub source: Seq<char>,
    pub scroll: int,
}

pub struct ScopeV {
    pub start: int,
    pub end: int,
    pub kind: Kind,
    pub jsonl: bool,
    pub path: Seq<usize>,
    pub label: Seq<char>,
}

pub struct FoundV {
    pub matches: Seq<Seq<usize>>,
    pub finished: bool,
}

pub struct HitsV {
    pub hits: Seq<HitV>,
    pub finished: bool,
}

pub struct PaneV {
    pub root: NodeV,
    pub name: Seq<char>,
    pub derived: bool,
    pub weight: int,
    pub id: int,
    pub parent: Option<u64>,
    pub preview_child: Option<u64>,
    pub focus: int,
    pub scroll: int,
    pub rows: Seq<RowV>,
    pub mode: Mode,
    pub query: InputV,
    pub query_error: Option<Seq<char>>,
    pub search: Option<FoundV>,
    pub search_scope: Option<ScopeV>,
    pub scoped: bool,
    pub match_idx: int,
    pub landed: bool,
    pub match_set: Seq<Seq<usize>>,
    pub indexed: int,
    pub want_path: Option<Seq<usize>>,
    pub flatten_incomplete: bool,
    pub goto: InputV,
    pub bookmarks: Seq<Seq<usize>>,
    pub mark_idx: int,
    pub filter_query: InputV,
    pub filter_error: Option<Seq<char>>,
    pub filter: Option<HitsV>,
    pub filter_added: int,
    pub peek: Option<PeekV>,
    pub schema: Option<SchemaViewV>,
}

pub open spec fn opt_text(s: Option<String>) -> Option<Seq<char>> {
    match s {
        Some(s) => Some(s@),
        None => None,
    }
}

pub open spec fn opt_path(p: Option<Vec<usize>>) -> Option<Seq<usize>> {
    match p {
        Some(p) => Some(p@),
        None => None,
    }
}

impl Peek {
    pub open spec fn model(&self) -> PeekV {
        PeekV {
            title: self.title@,
            text: self.text@,
            truncated: self.truncated,
            scroll: self.scroll as int,
        }
    }
}

impl SchemaView {
    pub open spec fn model(&self) -> SchemaViewV {
        SchemaViewV {
            title: self.title@,
            lines: texts(self.lines@),
            source: self.source@,
            scroll: self.scroll as int,
        }
    }
}

impl Scope {
    pub open spec fn model(&self) -> ScopeV {
        ScopeV {
            start: self.start as int,
            end: self.end as int,
            kind: self.kind,
            jsonl: self.jsonl,
            path: self.path@,
            label: self.label@,
        }
    }
}

impl Found {
    pub open spec fn model(&self) -> FoundV {
        FoundV { matches: path_views(self.matches@), finished: self.finished }
    }
}

impl Hits {
    pub open spec fn model(&self) -> HitsV {
        HitsV { hits: hit_views(self.hits@), finished: self.finished }
    }
}

impl Pane {
    /// This pane over the buffer `b`.
    pub open spec fn model(&self, b: Seq<u8>) -> PaneV {
        PaneV {
            root: self.root.model(b),
            name: self.name@,
            derived: self.derived,
            weight: self.weight as int,
            id: self.id as int,
            parent: self.parent,
            preview_child: self.preview_child,
            focus: self.focus as int,
            scroll: self.scroll as int,
            rows: row_views(self.rows@),
            mode: self.mode,
            query: self.query@,
            query_error: opt_text(self.query_error),
            search: match self.search {
                Some(s) => Some(s.model()),
                None => None,
            },
            search_scope: match self.search_scope {
                Some(s) => Some(s.model()),
                None => None,
            },
            scoped: self.scoped,
            match_idx: self.match_idx as int,
            landed: self.landed,
            match_set: path_views(self.match_set@),
            indexed: self.indexed as int,
            want_path: opt_path(self.want_path),
            flatten_incomplete: self.flatten_incomplete,
            goto: self.goto@,
            bookmarks: path_views(self.bookmarks@),
            mark_idx: self.mark_idx as int,
            filter_query: self.filter_query@,
            filter_error: opt_text(self.filter_error),
            filter: match self.filter {
                Some(f) => Some(f.model()),
                None => None,
            },
            filter_added: self.filter_added as int,
            peek: match self.peek {
                Some(p) => Some(p.model()),
                None => None,
            },
            schema: match self.schema {
                Some(s) => Some(s.model()),
                None => None,
            },
        }
    }

    /// Which pane this is, and which ones it is linked to: the one it was split from
    /// and the one it previews in.
    pub open spec fn links(&self) -> (u64, Option<u64>, Option<u64>) {
        (self.id, self.parent, self.preview_child)
    }

    /// The carets of the prompts are on character boundaries.
    pub open spec fn inputs_wf(&self) -> bool {
        self.query.wf() && self.goto.wf() && self.filter_query.wf()
    }

    /// A pane over the buffer `b`.
    pub open spec fn wf(&self, b: Seq<u8>) -> bool {
        self.inputs_wf() && pane_wf(b, self.model(b))
    }
}

/// A pane over the buffer `b`: its tree and whatever else refers to the buffer. The
/// document pane is no result pane.
pub open spec fn pane_wf(b: Seq<u8>, v: PaneV) -> bool {
    &&& tree_ok(b, v.root, v.search_scope, v.filter, v.filter_added)
    &&& v.derived || v.filter is None
    &&& WEIGHT_MIN <= v.weight <= WEIGHT_MAX
    &&& v.match_idx == 0 || v.match_idx < match_count(v)
    &&& v.mark_idx == 0 || v.mark_idx < v.bookmarks.len()
}

/// A tree over the buffer `b`, with what refers to the buffer beside it. The root
/// of a result pane has the children it has been given, and none to scan.
#[verifier::opaque]
pub open spec fn tree_ok(
    b: Seq<u8>,
    root: NodeV,
    scope: Option<ScopeV>,
    filter: Option<HitsV>,
    added: int,
) -> bool {
    &&& node_wf(b, root)
    &&& match scope {
        Some(s) => value_range(b, s.start, s.end, s.kind),
        None => true,
    }
    &&& match filter {
        Some(f) => root.kind is Array && !root.jsonl && fed(root) && hits_wf(b, f.hits) && added
            <= root.children.len(),
        None => true,
    }
}

/// How many matches the search has found so far.
pub open spec fn match_count(v: PaneV) -> int {
    match v.search {
        Some(s) => s.matches.len() as int,
        None => 0,
    }
}

pub open spec fn hits_wf(b: Seq<u8>, hits: Seq<HitV>) -> bool {
    forall|i: int|
        0 <= i < hits.len() ==> value_range(
            b,
            (#[trigger] hits[i]).start,
            hits[i].end,
            hits[i].kind,
        )
}

/// The tree of a pane is one over its buffer.
pub proof fn lemma_pane_tree(b: Seq<u8>, v: PaneV)
    requires
        pane_wf(b, v),
    ensures
        node_wf(b, v.root),
{
    reveal(tree_ok);
}

/// A pane whose tree has grown is still one.
proof fn lemma_grown_pane_wf(b: Seq<u8>, v: PaneV, w: PaneV)
    requires
        pane_wf(b, v),
        node_wf(b, w.root),
        grown(v.root, w.root),
        w.weight == v.weight,
        w.derived == v.derived,
        w.search_scope == v.search_scope,
        w.filter == v.filter,
        w.filter_added == v.filter_added,
        w.search == v.search,
        w.match_idx == v.match_idx,
        w.bookmarks == v.bookmarks,
        w.mark_idx == v.mark_idx,
    ensures
        pane_wf(b, w),
{
    reveal(tree_ok);
    lemma_grown_reaches(v.root, w.root, Seq::empty());
}

/// Whether a row points to its node in the tree. The placeholder points to the
/// root.
pub open spec fn row_points(n: NodeV, r: RowV) -> bool {
    &&& reachable(n, r.path)
    &&& if r.loading {
        r.path.len() == 0
    } else {
        node_at(n, r.path).kind == r.kind
    }
}

/// Every row points to its node. True from one flattening on, until the tree is
/// replaced.
pub open spec fn rows_point(v: PaneV) -> bool {
    rows_point_in(v.root, v.rows)
}

#[verifier::opaque]
pub open spec fn rows_point_in(n: NodeV, rows: Seq<RowV>) -> bool {
    forall|i: int| 0 <= i < rows.len() ==> row_points(n, #[trigger] rows[i])
}

/// Rows that point to their nodes still do once the tree has grown.
pub proof fn lemma_rows_point_grown(v: PaneV, w: PaneV)
    requires
        rows_point(v),
        w.rows == v.rows,
        grown(v.root, w.root),
    ensures
        rows_point(w),
{
    reveal(rows_point_in);
    assert forall|i: int| 0 <= i < w.rows.len() implies row_points(w.root, #[trigger] w.rows[i]) by {
        assert(row_points(v.root, v.rows[i]));
        lemma_grown_reaches(v.root, w.root, v.rows[i].path);
    }
}

pub open spec fn empty_line() -> InputV {
    InputV { before: Seq::empty(), after: Seq::empty() }
}

/// The path of the focused row, if there is one.
pub open spec fn focus_path(v: PaneV) -> Option<Seq<usize>> {
    if 0 <= v.focus < v.rows.len() {
        Some(v.rows[v.focus].path)
    } else {
        None
    }
}

// ---------------------------------------------------------------------------
// Making panes
// ---------------------------------------------------------------------------
/// A new pane over a tree.
pub open spec fn fresh_pane(root: NodeV, name: Seq<char>, derived: bool) -> PaneV {
    PaneV {
        root,
        name,
        derived,
        weight: WEIGHT_DEFAULT as int,
        id: 0,
        parent: None,
        preview_child: None,
        focus: 0,
        scroll: 0,
        rows: Seq::empty(),
        mode: Mode::Normal,
        query: empty_line(),
        query_error: None,
        search: None,
        search_scope: None,
        scoped: false,
        match_idx: 0,
        landed: false,
        match_set: Seq::empty(),
        indexed: 0,
        want_path: None,
        flatten_incomplete: false,
        goto: empty_line(),
        bookmarks: Seq::empty(),
        mark_idx: 0,
        filter_query: empty_line(),
        filter_error: None,
        filter: None,
        filter_added: 0,
        peek: None,
        schema: None,
    }
}

/// A pane with its search cleared.
pub open spec fn search_cleared(v: PaneV) -> PaneV {
    PaneV {
        search: None,
        query: empty_line(),
        query_error: None,
        match_set: Seq::empty(),
        indexed: 0,
        match_idx: 0,
        landed: false,
        want_path: None,
        search_scope: None,
        scoped: false,
        ..v
    }
}

/// A pane re-rooted at another tree: the viewport, the search, the bookmarks and
/// the filter go with the old tree; the pane's links and size weight stay.
pub open spec fn rerooted(v: PaneV, root: NodeV, name: Seq<char>) -> PaneV {
    search_cleared(
        PaneV {
            root,
            name,
            derived: true,
            focus: 0,
            scroll: 0,
            rows: Seq::empty(),
            mode: Mode::Normal,
            peek: None,
            schema: None,
            goto: empty_line(),
            bookmarks: Seq::empty(),
            mark_idx: 0,
            filter: None,
            filter_added: 0,
            filter_query: empty_line(),
            filter_error: None,
            ..v
        },
    )
}

/// A tree with the nodes at the paths from number `i` on expanded again.
pub open spec fn all_expanded(b: Seq<u8>, root: NodeV, paths: Seq<Seq<usize>>, i: int) -> NodeV
    decreases paths.len() - i,
{
    if i >= paths.len() {
        root
    } else {
        all_expanded(b, expanded_at(b, root, paths[i]), paths, i + 1)
    }
}

/// A pane over a buffer that has grown: parsed anew, with what was expanded
/// expanded again, and the cursor to be put back on the same node.
pub open spec fn rebuilt(b: Seq<u8>, v: PaneV, jsonl: bool) -> PaneV {
    PaneV {
        root: all_expanded(
            b,
            document_root(b, v.name, jsonl),
            expanded_paths(v.root, Seq::empty()),
            0,
        ),
        want_path: if v.want_path is None {
            focus_path(v)
        } else {
            v.want_path
        },
        ..v
    }
}

impl Pane {
    /// A pane over a whole document.
    pub fn new(b: &[u8], name: &str, jsonl: bool) -> (r: Pane)
        requires
            addressable(b@),
        ensures
            r.wf(b@),
            r.model(b@) == fresh_pane(document_root(b@, name@, jsonl), name@, false),
    {
        proof {
            reveal(tree_ok);
        }
        let root = make_root(b, name, jsonl);
        Pane::with_root(root, name.to_owned(), false)
    }

    /// A pane over an already-built root (the document root, or a split's sub-range
    /// root). `name` is the origin path shown in the title.
    pub fn with_root(root: Node, name: String, derived: bool) -> (r: Pane)
        ensures
            r.inputs_wf(),
            forall|b: Seq<u8>| #[trigger]
                r.model(b) == fresh_pane(root.model(b), name@, derived),
    {
        let r = Pane {
            root,
            name,
            derived,
            weight: WEIGHT_DEFAULT,
            id: 0,
            parent: None,
            preview_child: None,
            focus: 0,
            scroll: 0,
            rows: Vec::new(),
            mode: Mode::Normal,
            query: TextInput::default(),
            query_error: None,
            search: None,
            search_scope: None,
            scoped: false,
            match_idx: 0,
            landed: false,
            match_set: Vec::new(),
            indexed: 0,
            want_path: None,
            flatten_incomplete: false,
            goto: TextInput::default(),
            bookmarks: Vec::new(),
            mark_idx: 0,
            filter_query: TextInput::default(),
            filter_error: None,
            filter: None,
            filter_added: 0,
            peek: None,
            schema: None,
        };
        assert(row_views(r.rows@) =~= Seq::empty());
        assert(path_views(r.match_set@) =~= Seq::empty());
        assert(path_views(r.bookmarks@) =~= Seq::empty());
        r
    }

    pub fn clear_search(&mut self)
        ensures
            final(self).links() == old(self).links(),
            old(self).inputs_wf() ==> final(self).inputs_wf(),
            final(self).rows == old(self).rows,
            final(self).root == old(self).root,
            forall|b: Seq<u8>| #[trigger]
                final(self).model(b) == search_cleared(old(self).model(b)),
            forall|b: Seq<u8>| old(self).wf(b) ==> #[trigger] final(self).wf(b),
    {
        proof {
            reveal(tree_ok);
        }
        self.search = None;
        self.query.clear();
        self.query_error = None;
        self.match_set = Vec::new();
        self.indexed = 0;
        self.match_idx = 0;
        self.landed = false;
        self.want_path = None;
        self.search_scope = None;
        self.scoped = false;
        assert(path_views(self.match_set@) =~= Seq::empty());
    }

    /// Re-root this pane at a new subtree (used by `o` to reuse a preview pane).
    /// Resets the viewport and drops any search, since the content changed; keeps
    /// the pane's id/links and size weight.
    pub fn reroot(&mut self, root: Node, name: String)
        ensures
            final(self).links() == old(self).links(),
            final(self).inputs_wf(),
            forall|b: Seq<u8>| #[trigger]
                final(self).model(b) == rerooted(old(self).model(b), root.model(b), name@),
    {
        self.root = root;
        self.name = name;
        self.derived = true;
        self.focus = 0;
        self.scroll = 0;
        self.rows = Vec::new();
        self.mode = Mode::Normal;
        self.peek = None;
        self.schema = None;
        self.goto.clear();
        // Bookmarked paths refer to the old tree; drop them on re-root.
        self.bookmarks = Vec::new();
        self.mark_idx = 0;
        // A filter's hits point into the old root.
        self.filter = None;
        self.filter_added = 0;
        self.filter_query.clear();
        self.filter_error = None;
        assert(row_views(self.rows@) =~= Seq::empty());
        assert(path_views(self.bookmarks@) =~= Seq::empty());
        self.query.clear();
        self.clear_search();
    }

    /// The path of the focused row, if there is one.
    pub fn focused_path(&self) -> (r: Option<Vec<usize>>)
        ensures
            forall|b: Seq<u8>| #[trigger] focus_path(self.model(b)) == opt_path(r),
    {
        if self.focus < self.rows.len() {
            let p = self.rows[self.focus].path.clone();
            assert(row_views(self.rows@)[self.focus as int].path == p@);
            Some(p)
        } else {
            None
        }
    }

    /// Re-parse a grown stream buffer from scratch, preserving the UI cursor and
    /// expansion. Cheap because the parse is lazy: only the expanded/visible extent
    /// is scanned, and byte offsets of already-seen content are stable (the stream
    /// only appends). The focused row's path is queued as the next jump so the
    /// cursor lands back on the same node. The rows are those of the old tree until
    /// the next flattening.
    pub fn rebuild(&mut self, b: &[u8], jsonl: bool)
        requires
            addressable(b@),
            old(self).inputs_wf(),
        ensures
            final(self).links() == old(self).links(),
            final(self).inputs_wf(),
            node_wf(b@, final(self).model(b@).root),
            final(self).model(b@) == rebuilt(b@, old(self).model(b@), jsonl),
    {
        let ghost v = self.model(b@);
        let mut expanded: Vec<Vec<usize>> = Vec::new();
        let mut path: Vec<usize> = Vec::new();
        assert(path@ =~= Seq::empty());
        assert(path_views(expanded@) =~= Seq::empty());
        collect_expanded(&self.root, &mut path, &mut expanded);
        let ghost paths = expanded_paths(v.root, Seq::empty());
        assert(path_views(expanded@) =~= paths);
        let focus = self.focused_path();
        assert(opt_path(focus) == focus_path(v));
        self.root = make_root(b, self.name.as_str(), jsonl);
        let ghost root0 = self.root.model(b@);
        let mut i: usize = 0;
        while i < expanded.len()
            invariant
                i <= expanded@.len(),
                paths == path_views(expanded@),
                self.inputs_wf(),
                self.root.wf(b@),
                self.model(b@) == (PaneV { root: self.root.model(b@), ..v }),
                all_expanded(b@, root0, paths, 0) == all_expanded(
                    b@,
                    self.root.model(b@),
                    paths,
                    i as int,
                ),
            decreases expanded@.len() - i,
        {
            assert(paths[i as int] == expanded@[i as int]@);
            set_expanded(&mut self.root, b, expanded[i].as_slice());
            i += 1;
        }
        // Keep the cursor on the same node (unless a jump is already pending).
        if self.want_path.is_none() {
            self.want_path = focus;
        }
    }
}

// ---------------------------------------------------------------------------
// The focused node
// ---------------------------------------------------------------------------
/// The focused node, where there is one.
pub open spec fn focus_node(v: PaneV) -> Option<NodeV> {
    match focus_path(v) {
        Some(p) => Some(node_at(v.root, p)),
        None => None,
    }
}

/// Whether the focus is on the root of a result pane. Its children are what the filter
/// has selected, whatever its byte range.
pub open spec fn at_result_root(v: PaneV) -> bool {
    v.filter is Some && focus_path(v) == Some(Seq::<usize>::empty())
}

/// A pane with the focused node's expansion flipped.
#[verifier::opaque]
pub open spec fn focus_toggled(v: PaneV) -> PaneV {
    match focus_path(v) {
        Some(p) => PaneV { root: grafted(v.root, p, toggled(node_at(v.root, p))), ..v },
        None => v,
    }
}

/// What the peek overlay shows of a node under the given title.
pub open spec fn peek_of(b: Seq<u8>, n: NodeV, title: Seq<char>) -> PeekV {
    let cap = n.start + PEEK_MAX_BYTES;
    let e = if n.end <= cap {
        n.end
    } else {
        cap
    };
    PeekV {
        title,
        text: if n.kind is Str {
            decoded(b, n.start, e)
        } else {
            text_of(b.subrange(n.start, lower(e, b.len() as int)))
        },
        truncated: n.end > cap,
        scroll: 0,
    }
}

/// Whether the focused row is a leaf, so that there is a value to peek at.
pub open spec fn on_leaf(v: PaneV) -> bool {
    0 <= v.focus < v.rows.len() && !v.rows[v.focus].kind.is_container()
}

/// A pane with the peek overlay on the focused leaf, if it is one.
#[verifier::opaque]
pub open spec fn peeked(b: Seq<u8>, v: PaneV) -> PaneV {
    if on_leaf(v) {
        PaneV {
            peek: Some(peek_of(b, focus_node(v)->0, v.rows[v.focus].label)),
            mode: Mode::Peek,
            ..v
        }
    } else {
        v
    }
}

/// The focused container's subtree as a search scope.
#[verifier::opaque]
pub open spec fn focus_scope(v: PaneV) -> Option<ScopeV> {
    match focus_node(v) {
        Some(n) if n.jsonl || n.kind.is_container() => Some(
            ScopeV {
                start: n.start,
                end: n.end,
                kind: n.kind,
                jsonl: n.jsonl,
                path: v.rows[v.focus].path,
                label: v.rows[v.focus].label,
            },
        ),
        _ => None,
    }
}

proof fn lemma_focus_points(v: PaneV)
    requires
        rows_point(v),
        focus_path(v) is Some,
    ensures
        reachable(v.root, focus_path(v)->0),
{
    reveal(rows_point_in);
    assert(row_points(v.root, v.rows[v.focus]));
}

impl Pane {
    /// A path that leads somewhere over one buffer leads somewhere over any.
    proof fn lemma_reachable_all(&self, b: Seq<u8>, p: Seq<usize>)
        requires
            reachable(self.root.model(b), p),
        ensures
            forall|x: Seq<u8>| #[trigger] reachable(self.root.model(x), p),
    {
        assert forall|x: Seq<u8>| #[trigger] reachable(self.root.model(x), p) by {
            lemma_reachable_any(&self.root, b, x, p);
        }
    }

    pub fn at_result_root(&self, b: &[u8]) -> (r: bool)
        ensures
            r == at_result_root(self.model(b@)),
    {
        if self.filter.is_none() || self.focus >= self.rows.len() {
            return false;
        }
        proof {
            let p = self.rows@[self.focus as int].path@;
            assert(self.model(b@).rows[self.focus as int].path == p);
            assert(p.len() == 0 ==> p =~= Seq::empty());
        }
        self.rows[self.focus].path.len() == 0
    }

    /// The focused node, where there is one.
    pub fn focused_node(&self, b: &[u8]) -> (r: Option<&Node>)
        requires
            self.wf(b@),
            rows_point(self.model(b@)),
        ensures
            match r {
                Some(n) => focus_node(self.model(b@)) == Some(n.model(b@)) && n.wf(b@) && self.focus
                    < self.rows@.len(),
                None => focus_node(self.model(b@)) is None && self.focus >= self.rows@.len(),
            },
    {
        let ghost v = self.model(b@);
        if self.focus >= self.rows.len() {
            return None;
        }
        let row = &self.rows[self.focus];
        proof {
            assert(v.rows[self.focus as int] == row@);
            lemma_focus_points(v);
            lemma_pane_tree(b@, v);
            self.lemma_reachable_all(b@, row.path@);
            lemma_node_at_wf(b@, v.root, row.path@);
        }
        let node = get(&self.root, row.path.as_slice());
        assert(node.model(b@) == node_at(v.root, row.path@));
        Some(node)
    }

    pub fn toggle_focus(&mut self, b: &[u8])
        requires
            old(self).wf(b@),
            rows_point(old(self).model(b@)),
        ensures
            final(self).links() == old(self).links(),
            final(self).wf(b@),
            rows_point(final(self).model(b@)),
            final(self).model(b@) == focus_toggled(old(self).model(b@)),
    {
        proof {
            reveal(focus_toggled);
            reveal(tree_ok);
        }
        let ghost v = self.model(b@);
        if let Some(p) = self.focused_path() {
            proof {
                assert(focus_path(v) == Some(p@));
                lemma_focus_points(v);
                self.lemma_reachable_all(b@, p@);
                let n = node_at(v.root, p@);
                lemma_node_at_wf(b@, v.root, p@);
                lemma_toggled_wf(b@, n);
                lemma_grafted_wf(b@, v.root, p@, toggled(n));
                lemma_grown_toggled(n);
                lemma_grown_grafted(v.root, p@, toggled(n));
                lemma_grown_pane_wf(b@, v, focus_toggled(v));
                lemma_rows_point_grown(v, focus_toggled(v));
            }
            let n = get_mut(&mut self.root, p.as_slice());
            assert(n.model(b@) == node_at(v.root, p@));
            n.toggle();
        }
    }

    /// If the focused row is a scalar leaf, open the value-peek overlay on it and
    /// return `true`; containers return `false` so the caller expands/collapses
    /// instead. The full value is decoded once here (bounded by `PEEK_MAX_BYTES`,
    /// escapes rendered) so the overlay reads and scrolls without re-touching the
    /// source.
    pub fn peek_focused(&mut self, b: &[u8]) -> (r: bool)
        requires
            old(self).wf(b@),
            rows_point(old(self).model(b@)),
        ensures
            final(self).links() == old(self).links(),
            final(self).wf(b@),
            rows_point(final(self).model(b@)),
            r == on_leaf(old(self).model(b@)),
            final(self).model(b@) == peeked(b@, old(self).model(b@)),
    {
        proof {
            reveal(peeked);
            reveal(rows_point_in);
            reveal(tree_ok);
        }
        let ghost v = self.model(b@);
        if self.focus >= self.rows.len() {
            return false;
        }
        let ghost i = self.focus as int;
        assert(v.rows[i] == self.rows@[i]@);
        let row = &self.rows[self.focus];
        if row.kind.is_container() {
            return false;
        }
        proof {
            assert(row_points(v.root, v.rows[i]));
            self.lemma_reachable_all(b@, row.path@);
            lemma_node_at_wf(b@, v.root, row.path@);
        }
        let node = get(&self.root, row.path.as_slice());
        assert(node.model(b@) == node_at(v.root, row.path@));
        let long = node.end - node.start > PEEK_MAX_BYTES;
        let e: usize = if long {
            node.start + PEEK_MAX_BYTES
        } else {
            node.end
        };
        let text = match node.kind {
            Kind::Str => decode_str(b, node.start, e),
            // Other scalars are their literal bytes (a long bignum, say).
            _ => {
                let e: usize = if e <= b.len() {
                    e
                } else {
                    b.len()
                };
                text_from(vstd::slice::slice_subrange(b, node.start, e))
            },
        };
        let title = row.label.clone();
        self.peek = Some(Peek { title, text, truncated: long, scroll: 0 });
        self.mode = Mode::Peek;
        true
    }

    /// The focused container's subtree as a search scope, or `None` if the focus
    /// isn't a container (nothing to scope into).
    pub fn scope_of_focus(&self, b: &[u8]) -> (r: Option<Scope>)
        requires
            self.wf(b@),
            rows_point(self.model(b@)),
        ensures
            match focus_scope(self.model(b@)) {
                Some(s) => r matches Some(x) && x.model() == s && value_range(
                    b@,
                    s.start,
                    s.end,
                    s.kind,
                ),
                None => r is None,
            },
    {
        proof {
            reveal(focus_scope);
            reveal(rows_point_in);
            reveal(tree_ok);
        }
        let ghost v = self.model(b@);
        if self.focus >= self.rows.len() {
            return None;
        }
        let ghost i = self.focus as int;
        assert(v.rows[i] == self.rows@[i]@);
        let row = &self.rows[self.focus];
        proof {
            assert(row_points(v.root, v.rows[i]));
            self.lemma_reachable_all(b@, row.path@);
            lemma_node_at_wf(b@, v.root, row.path@);
        }
        let node = get(&self.root, row.path.as_slice());
        assert(node.model(b@) == node_at(v.root, row.path@));
        if node.jsonl || node.is_container() {
            Some(
                Scope {
                    start: node.start,
                    end: node.end,
                    kind: node.kind,
                    jsonl: node.jsonl,
                    path: row.path.clone(),
                    label: row.label.clone(),
                },
            )
        } else {
            None
        }
    }
}

// ---------------------------------------------------------------------------
// Jumps
// ---------------------------------------------------------------------------
/// A pane with the way to `path` opened, and `path` queued for focus.
#[verifier::opaque]
pub open spec fn jumped(b: Seq<u8>, v: PaneV, path: Seq<usize>) -> PaneV {
    PaneV { root: expanded_to(b, v.root, path), want_path: Some(path), ..v }
}

/// The typed `goto` path, with the tree as far as it had to be opened for it.
pub open spec fn goto_target(b: Seq<u8>, v: PaneV) -> (NodeV, Option<Seq<usize>>) {
    let (up, segs) = parsed_path(v.goto.before + v.goto.after);
    let focus = match focus_path(v) {
        Some(p) => p,
        None => Seq::empty(),
    };
    resolved_climbing(b, v.root, focus, up, segs)
}

/// A pane that has jumped to the typed `goto` path, and what to say about it.
#[verifier::opaque]
pub open spec fn gone_to(b: Seq<u8>, v: PaneV) -> (PaneV, Seq<char>) {
    let (up, segs) = parsed_path(v.goto.before + v.goto.after);
    if up is None && segs.len() == 0 {
        (v, "empty path"@)
    } else {
        let (root, found) = goto_target(b, v);
        let w = PaneV { root, ..v };
        match found {
            Some(p) => {
                let x = jumped(b, w, p);
                (x, "jumped to "@ + path_title(""@, crumbs(x.root, p)))
            },
            None => (w, "path not found: "@ + trimmed(v.goto.before + v.goto.after)),
        }
    }
}

/// The sibling in front of or behind the focused node, as a path, and the tree
/// as far as it had to be scanned for it.
pub open spec fn sibling(b: Seq<u8>, v: PaneV, forward: bool) -> (NodeV, Option<Seq<usize>>) {
    match focus_path(v) {
        Some(p) if p.len() > 0 && (forward && p.last() < usize::MAX || !forward && p.last() > 0) => {
            let up = p.drop_last();
            let target: int = if forward {
                p.last() + 1
            } else {
                p.last() - 1
            };
            let m = scanned_to(b, node_at(v.root, up), target);
            (
                grafted(v.root, up, m),
                if target < m.children.len() {
                    Some(up.push(target as usize))
                } else {
                    None
                },
            )
        },
        _ => (v.root, None),
    }
}

/// A pane that has jumped to a sibling of the focused node, if there is one.
#[verifier::opaque]
pub open spec fn sibling_visited(b: Seq<u8>, v: PaneV, forward: bool) -> PaneV {
    let (root, found) = sibling(b, v, forward);
    let w = PaneV { root, ..v };
    match found {
        Some(p) => jumped(b, w, p),
        None => w,
    }
}

/// The first row from number `i` on with the given path.
pub open spec fn row_at(rows: Seq<RowV>, path: Seq<usize>, i: int) -> Option<int>
    decreases rows.len() - i,
{
    if i >= rows.len() {
        None
    } else if rows[i].path == path {
        Some(i)
    } else {
        row_at(rows, path, i + 1)
    }
}

/// A pane with the focused container collapsed, or the focus on its parent where
/// there is nothing to collapse.
#[verifier::opaque]
pub open spec fn collapsed_or_parent(v: PaneV) -> PaneV {
    match focus_path(v) {
        None => v,
        Some(p) => {
            let n = node_at(v.root, p);
            if n.expanded && n.kind.is_container() {
                focus_toggled(v)
            } else if p.len() == 0 {
                v
            } else {
                match row_at(v.rows, p.drop_last(), 0) {
                    Some(i) => PaneV { focus: i, ..v },
                    None => v,
                }
            }
        },
    }
}

pub open spec fn position(paths: Seq<Seq<usize>>, p: Seq<usize>, i: int) -> Option<int>
    decreases paths.len() - i,
{
    if i >= paths.len() {
        None
    } else if paths[i] == p {
        Some(i)
    } else {
        position(paths, p, i + 1)
    }
}

/// A path has a position among those that hold it.
pub proof fn lemma_position(paths: Seq<Seq<usize>>, p: Seq<usize>, i: int)
    requires
        0 <= i,
    ensures
        match position(paths, p, i) {
            Some(k) => i <= k < paths.len() && paths[k] == p,
            None => forall|k: int| i <= k < paths.len() ==> #[trigger] paths[k] != p,
        },
    decreases paths.len() - i,
{
    if i < paths.len() && paths[i] != p {
        lemma_position(paths, p, i + 1);
    }
}

/// An index into a list brought back into it.
pub open spec fn kept_in(i: int, n: int) -> int {
    if i < n {
        i
    } else if n > 0 {
        n - 1
    } else {
        0
    }
}

/// A pane with the focused node's bookmark added or removed, and what to say
/// about it.
#[verifier::opaque]
pub open spec fn bookmark_toggled(v: PaneV) -> (PaneV, Seq<char>) {
    match focus_path(v) {
        None => (v, "nothing to bookmark"@),
        Some(p) => match position(v.bookmarks, p, 0) {
            Some(i) => (
                PaneV {
                    bookmarks: v.bookmarks.remove(i),
                    mark_idx: kept_in(v.mark_idx, v.bookmarks.len() - 1),
                    ..v
                },
                "bookmark removed"@,
            ),
            None => (
                PaneV { bookmarks: v.bookmarks.push(p), ..v },
                "bookmarked "@ + path_title(""@, crumbs(v.root, p)),
            ),
        },
    }
}

pub fn same_path(a: &[usize], c: &[usize]) -> (r: bool)
    ensures
        r == (a@ == c@),
{
    if a.len() != c.len() {
        return false;
    }
    let mut i: usize = 0;
    while i < a.len()
        invariant
            a@.len() == c@.len(),
            i <= a@.len(),
            forall|k: int| 0 <= k < i ==> a@[k] == c@[k],
        decreases a@.len() - i,
    {
        if a[i] != c[i] {
            return false;
        }
        i += 1;
    }
    assert(a@ =~= c@);
    true
}

/// The first row with the given path.
fn find_row(rows: &Vec<Row>, path: &[usize]) -> (r: Option<usize>)
    ensures
        match r {
            Some(i) => row_at(row_views(rows@), path@, 0) == Some(i as int) && i < rows@.len(),
            None => row_at(row_views(rows@), path@, 0) is None,
        },
{
    let mut i: usize = 0;
    while i < rows.len()
        invariant
            i <= rows@.len(),
            row_at(row_views(rows@), path@, 0) == row_at(row_views(rows@), path@, i as int),
        decreases rows@.len() - i,
    {
        assert(row_views(rows@)[i as int].path == rows@[i as int].path@);
        if same_path(rows[i].path.as_slice(), path) {
            return Some(i);
        }
        i += 1;
    }
    None
}

pub fn find_path(paths: &Vec<Vec<usize>>, p: &[usize]) -> (r: Option<usize>)
    ensures
        match r {
            Some(i) => position(path_views(paths@), p@, 0) == Some(i as int) && i < paths@.len(),
            None => position(path_views(paths@), p@, 0) is None,
        },
{
    let mut i: usize = 0;
    while i < paths.len()
        invariant
            i <= paths@.len(),
            position(path_views(paths@), p@, 0) == position(path_views(paths@), p@, i as int),
        decreases paths@.len() - i,
    {
        if same_path(paths[i].as_slice(), p) {
            return Some(i);
        }
        i += 1;
    }
    None
}

/// Scan the children of the node at `parent` as far as number `target`, and tell
/// whether there is such a one.
fn scan_sibling(root: &mut Node, b: &[u8], parent: &[usize], target: usize) -> (r: bool)
    requires
        old(root).wf(b@),
        reachable(old(root).model(b@), parent@),
    ensures
        final(root).wf(b@),
        grown(old(root).model(b@), final(root).model(b@)),
        ({
            let m = scanned_to(b@, node_at(old(root).model(b@), parent@), target as int);
            &&& final(root).model(b@) == grafted(old(root).model(b@), parent@, m)
            &&& r == (target < m.children.len())
        }),
{
    let ghost r0 = root.model(b@);
    let ghost p0 = node_at(r0, parent@);
    let ghost m = scanned_to(b@, p0, target as int);
    proof {
        assert forall|x: Seq<u8>| #[trigger] reachable(root.model(x), parent@) by {
            lemma_reachable_any(root, b@, x, parent@);
        }
        lemma_node_at_wf(b@, r0, parent@);
        lemma_scanned_to_keeps(b@, p0, target as int);
    }
    let node = get_mut(root, parent);
    assert(node.model(b@) == p0);
    node.ensure_child(b, target);
    let there = target < node.children.len();
    proof {
        lemma_grafted_wf(b@, r0, parent@, m);
        lemma_grown_scan(b@, p0, target as int);
        lemma_grown_grafted(r0, parent@, m);
    }
    there
}

proof fn lemma_climbed_pane(
    b: Seq<u8>,
    v: PaneV,
    focus: Seq<usize>,
    up: Option<int>,
    segs: Seq<SegV>,
)
    requires
        pane_wf(b, v),
        rows_point(v),
        reachable(v.root, focus),
        up matches Some(n) ==> 0 <= n,
    ensures
        ({
            let w = PaneV { root: resolved_climbing(b, v.root, focus, up, segs).0, ..v };
            (node_wf(b, w.root) ==> pane_wf(b, w)) && rows_point(w)
        }),
{
    reveal(tree_ok);
    let w = PaneV { root: resolved_climbing(b, v.root, focus, up, segs).0, ..v };
    law_climb_keeps_tree(b, v.root, focus, up, segs);
    lemma_rows_point_grown(v, w);
    if node_wf(b, w.root) {
        lemma_grown_pane_wf(b, v, w);
    }
}

impl Pane {
    /// Expand the ancestors of `path` and queue the row for focus next frame.
    pub fn jump_to(&mut self, path: &[usize], b: &[u8])
        requires
            old(self).wf(b@),
            rows_point(old(self).model(b@)),
        ensures
            final(self).links() == old(self).links(),
            final(self).wf(b@),
            rows_point(final(self).model(b@)),
            final(self).model(b@) == jumped(b@, old(self).model(b@), path@),
    {
        proof {
            reveal(jumped);
        }
        let ghost v = self.model(b@);
        proof {
            lemma_pane_tree(b@, v);
        }
        expand_to(&mut self.root, b, path);
        self.want_path = Some(vstd::slice::slice_to_vec(path));
        proof {
            law_expand_to_keeps_tree(b@, v.root, path@);
            lemma_grown_pane_wf(b@, v, self.model(b@));
            lemma_rows_point_grown(v, self.model(b@));
        }
    }

    /// Resolve the typed `goto` path and jump to it. Returns a footer status line.
    /// Absolute paths resolve from the root; relative ones (leading dots) start at
    /// the focused node, climbed `up` levels. On a miss the resolution climbs toward
    /// the root and retries (see [`resolve_with_climb`]), so `:city` falls back to
    /// `..city`, `...city`, … relative to the cursor.
    pub fn goto_path(&mut self, b: &[u8]) -> (r: String)
        requires
            old(self).wf(b@),
            rows_point(old(self).model(b@)),
        ensures
            final(self).links() == old(self).links(),
            final(self).wf(b@),
            rows_point(final(self).model(b@)),
            gone_to(b@, old(self).model(b@)) == (final(self).model(b@), r@),
    {
        proof {
            reveal(gone_to);
        }
        let ghost v = self.model(b@);
        assert(self.goto.text@ =~= v.goto.before + v.goto.after);
        let parsed = parse_path(self.goto.as_str());
        if parsed.up.is_none() && parsed.segs.len() == 0 {
            return "empty path".to_owned();
        }
        match self.resolve_goto(b, &parsed) {
            Some(path) => {
                self.jump_to(path.as_slice(), b);
                let segs = breadcrumb_segments(&self.root, path.as_slice());
                assert(segment_views(segs@) == crumbs(self.root.model(b@), path@));
                joint("jumped to ", join_path("", segs.as_slice()).as_str())
            },
            None => joint("path not found: ", trim(self.goto.as_str()).as_str()),
        }
    }

    /// Find the node that a parsed path leads to from the focus.
    fn resolve_goto(&mut self, b: &[u8], parsed: &ParsedPath) -> (r: Option<Vec<usize>>)
        requires
            old(self).wf(b@),
            rows_point(old(self).model(b@)),
        ensures
            final(self).links() == old(self).links(),
            final(self).wf(b@),
            rows_point(final(self).model(b@)),
            final(self).goto == old(self).goto,
            ({
                let v = old(self).model(b@);
                let focus = match focus_path(v) {
                    Some(p) => p,
                    None => Seq::empty(),
                };
                let (root, found) = resolved_climbing(
                    b@,
                    v.root,
                    focus,
                    parsed.model().0,
                    parsed.model().1,
                );
                &&& final(self).model(b@) == (PaneV { root, ..v })
                &&& found == opt_path(r)
            }),
    {
        let ghost v = self.model(b@);
        proof {
            lemma_pane_tree(b@, v);
        }
        let focused = self.focused_path();
        assert(focus_path(v) == opt_path(focused));
        let focus: Vec<usize> = match focused {
            Some(p) => p,
            None => Vec::new(),
        };
        proof {
            if focus_path(v) is Some {
                lemma_focus_points(v);
            } else {
                assert(focus@ =~= Seq::empty());
            }
        }
        let found = resolve_with_climb(&mut self.root, b, focus.as_slice(), parsed);
        proof {
            lemma_climbed_pane(b@, v, focus@, parsed.model().0, parsed.model().1);
            assert(self.model(b@) == (PaneV { root: self.root.model(b@), ..v }));
        }
        found
    }

    /// Remove a bookmark, and keep the picker on one that is there.
    pub fn remove_bookmark(&mut self, i: usize)
        requires
            i < old(self).bookmarks@.len(),
        ensures
            final(self).links() == old(self).links(),
            old(self).inputs_wf() ==> final(self).inputs_wf(),
            final(self).rows@ == old(self).rows@,
            final(self).root == old(self).root,
            forall|b: Seq<u8>| #[trigger]
                final(self).model(b) == (PaneV {
                    bookmarks: old(self).model(b).bookmarks.remove(i as int),
                    mark_idx: kept_in(
                        old(self).model(b).mark_idx,
                        old(self).model(b).bookmarks.len() - 1,
                    ),
                    ..old(self).model(b)
                }),
    {
        let ghost before = path_views(self.bookmarks@);
        self.bookmarks.remove(i);
        assert(path_views(self.bookmarks@) =~= before.remove(i as int));
        if self.mark_idx >= self.bookmarks.len() {
            self.mark_idx = if self.bookmarks.len() > 0 {
                self.bookmarks.len() - 1
            } else {
                0
            };
        }
    }

    /// Toggle a bookmark on the focused node (add if absent, else remove).
    pub fn toggle_bookmark(&mut self, b: &[u8]) -> (r: String)
        requires
            old(self).wf(b@),
        ensures
            final(self).links() == old(self).links(),
            final(self).wf(b@),
            final(self).rows@ == old(self).rows@,
            final(self).root == old(self).root,
            bookmark_toggled(old(self).model(b@)) == (final(self).model(b@), r@),
    {
        proof {
            reveal(bookmark_toggled);
        }
        let ghost v = self.model(b@);
        let path = match self.focused_path() {
            Some(p) => p,
            None => {
                return "nothing to bookmark".to_owned();
            },
        };
        match find_path(&self.bookmarks, path.as_slice()) {
            Some(i) => {
                self.remove_bookmark(i);
                "bookmark removed".to_owned()
            },
            None => {
                let segs = breadcrumb_segments(&self.root, path.as_slice());
                let label = join_path("", segs.as_slice());
                let ghost p = path@;
                self.bookmarks.push(path);
                assert(path_views(self.bookmarks@) =~= v.bookmarks.push(p));
                assert(segment_views(segs@) == crumbs(v.root, p));
                joint("bookmarked ", label.as_str())
            },
        }
    }

    /// Jump to the next (`forward`) or previous sibling at the focused node's
    /// level, stepping over its (possibly expanded) subtree. A no-op at either end
    /// of the level, or on the root (which has no siblings).
    pub fn nav_sibling(&mut self, b: &[u8], forward: bool)
        requires
            old(self).wf(b@),
            rows_point(old(self).model(b@)),
        ensures
            final(self).links() == old(self).links(),
            final(self).wf(b@),
            rows_point(final(self).model(b@)),
            final(self).model(b@) == sibling_visited(b@, old(self).model(b@), forward),
    {
        proof {
            reveal(sibling_visited);
        }
        let ghost v = self.model(b@);
        let focused = self.focused_path();
        assert(focus_path(v) == opt_path(focused));
        let path = match focused {
            Some(p) => p,
            None => {
                return ;
            },
        };
        let n: usize = path.len();
        if n == 0 {
            return ;  // root has no siblings
        }
        let last: usize = path[n - 1];
        if (forward && last == usize::MAX) || (!forward && last == 0) {
            return ;
        }
        let target: usize = if forward {
            last + 1
        } else {
            last - 1
        };
        let parent: &[usize] = vstd::slice::slice_subrange(path.as_slice(), 0, n - 1);
        let ghost up = path@.drop_last();
        proof {
            assert(parent@ =~= up);
            assert(path@.take(n - 1) =~= up);
            lemma_focus_points(v);
            lemma_reachable_prefix(v.root, path@, n - 1);
            lemma_pane_tree(b@, v);
        }
        let there = scan_sibling(&mut self.root, b, parent, target);
        proof {
            let w = PaneV { root: self.root.model(b@), ..v };
            assert(self.model(b@) == w);
            lemma_grown_pane_wf(b@, v, w);
            lemma_rows_point_grown(v, w);
        }
        if !there {
            return ;
        }
        let mut cand: Vec<usize> = vstd::slice::slice_to_vec(parent);
        cand.push(target);
        self.jump_to(cand.as_slice(), b);
    }

    pub fn collapse_or_parent(&mut self, b: &[u8])
        requires
            old(self).wf(b@),
            rows_point(old(self).model(b@)),
        ensures
            final(self).links() == old(self).links(),
            final(self).wf(b@),
            rows_point(final(self).model(b@)),
            final(self).model(b@) == collapsed_or_parent(old(self).model(b@)),
    {
        proof {
            reveal(collapsed_or_parent);
            reveal(tree_ok);
        }
        let ghost v = self.model(b@);
        let path = match self.focused_path() {
            Some(p) => p,
            None => {
                return ;
            },
        };
        proof {
            lemma_focus_points(v);
            self.lemma_reachable_all(b@, path@);
        }
        let node = get(&self.root, path.as_slice());
        assert(node.model(b@) == node_at(v.root, path@));
        if node.expanded && node.is_container() {
            self.toggle_focus(b);
        } else if path.len() > 0 {
            let up: &[usize] = vstd::slice::slice_subrange(path.as_slice(), 0, path.len() - 1);
            assert(up@ =~= path@.drop_last());
            if let Some(i) = find_row(&self.rows, up) {
                self.focus = i;
            }
        }
    }
}

// ---------------------------------------------------------------------------
// Searching
// ---------------------------------------------------------------------------
/// What a search worker needs to know.
pub struct SearchJob {
    pub pattern: Pattern,
    pub start: usize,
    pub end: usize,
    pub kind: Kind,
    pub jsonl: bool,
}

pub struct SearchJobV {
    pub pattern: PatternV,
    pub start: int,
    pub end: int,
    pub kind: Kind,
    pub jsonl: bool,
}

impl SearchJob {
    pub open spec fn model(&self) -> SearchJobV {
        SearchJobV {
            pattern: self.pattern@,
            start: self.start as int,
            end: self.end as int,
            kind: self.kind,
            jsonl: self.jsonl,
        }
    }
}

/// A pane with the results of its search dropped.
pub open spec fn results_dropped(v: PaneV) -> PaneV {
    PaneV {
        search: None,
        match_set: Seq::empty(),
        indexed: 0,
        match_idx: 0,
        landed: false,
        want_path: None,
        query_error: None,
        ..v
    }
}

/// A pane with the search for its query launched anew, and the job that is to be
/// done for it. An empty query clears the results; one that does not compile
/// leaves its error.
#[verifier::opaque]
pub open spec fn search_launched(v: PaneV) -> (PaneV, Option<SearchJobV>) {
    let w = results_dropped(v);
    let query = v.query.before + v.query.after;
    if query.len() == 0 {
        (w, None)
    } else {
        match query_pattern(query) {
            Err(e) => (PaneV { query_error: Some(e), ..w }, None),
            Ok(pattern) => (
                PaneV { search: Some(FoundV { matches: Seq::empty(), finished: false }), ..w },
                Some(
                    match v.search_scope {
                        Some(s) if v.scoped => SearchJobV {
                            pattern,
                            start: s.start,
                            end: s.end,
                            kind: s.kind,
                            jsonl: s.jsonl,
                        },
                        _ => SearchJobV {
                            pattern,
                            start: v.root.start,
                            end: v.root.end,
                            kind: v.root.kind,
                            jsonl: v.root.jsonl,
                        },
                    },
                ),
            ),
        }
    }
}

/// A worker's match path as an absolute one: a scoped search scans a subtree and
/// numbers its children from 0.
pub open spec fn absolute_match(v: PaneV, p: Seq<usize>) -> Seq<usize> {
    match v.search_scope {
        Some(s) if v.scoped => s.path + p,
        _ => p,
    }
}

/// A pane with more matches, and whether these were all.
pub open spec fn matches_received(v: PaneV, more: Seq<Seq<usize>>, finished: bool) -> PaneV {
    match v.search {
        Some(s) => PaneV {
            search: Some(
                FoundV { matches: s.matches + more, finished: s.finished || finished },
            ),
            ..v
        },
        None => v,
    }
}

/// A pane with the matches that are new marked for highlighting.
pub open spec fn matches_indexed(v: PaneV) -> PaneV {
    match v.search {
        Some(s) if v.indexed < s.matches.len() => PaneV {
            match_set: v.match_set + Seq::new(
                (s.matches.len() - v.indexed) as nat,
                |k: int| absolute_match(v, s.matches[v.indexed + k]),
            ),
            indexed: s.matches.len() as int,
            ..v
        },
        _ => v,
    }
}

/// The number behind `i` of `n`, wrapping around.
#[verifier::opaque]
pub open spec fn next_in(i: int, n: int) -> int {
    (i + 1) % n
}

/// The number in front of `i` of `n`, wrapping around.
#[verifier::opaque]
pub open spec fn prev_in(i: int, n: int) -> int {
    (i + n - 1) % n
}

pub fn next_of(i: usize, n: usize) -> (r: usize)
    requires
        i < n,
    ensures
        r == next_in(i as int, n as int),
        r < n,
{
    proof {
        reveal(next_in);
        if i + 1 < n {
            vstd::arithmetic::div_mod::lemma_small_mod((i + 1) as nat, n as nat);
        } else {
            vstd::arithmetic::div_mod::lemma_mod_self_0(n as int);
        }
    }
    if i + 1 < n {
        i + 1
    } else {
        0
    }
}

pub fn prev_of(i: usize, n: usize) -> (r: usize)
    requires
        i < n,
    ensures
        r == prev_in(i as int, n as int),
        r < n,
{
    proof {
        reveal(prev_in);
        if i == 0 {
            vstd::arithmetic::div_mod::lemma_small_mod((n - 1) as nat, n as nat);
        } else {
            vstd::arithmetic::div_mod::lemma_mod_add_multiples_vanish(i - 1, n as int);
            vstd::arithmetic::div_mod::lemma_small_mod((i - 1) as nat, n as nat);
        }
    }
    if i == 0 {
        n - 1
    } else {
        i - 1
    }
}

/// A pane that has jumped to the next or the previous match, wrapping around. The
/// first step goes to the first or the last one.
#[verifier::opaque]
pub open spec fn match_visited(b: Seq<u8>, v: PaneV, forward: bool) -> PaneV {
    let n = match_count(v);
    if n == 0 {
        v
    } else {
        let i = if !v.landed {
            if forward {
                0
            } else {
                n - 1
            }
        } else if forward {
            next_in(v.match_idx, n)
        } else {
            prev_in(v.match_idx, n)
        };
        jumped(
            b,
            PaneV { match_idx: i, landed: true, ..v },
            absolute_match(v, v.search->0.matches[i]),
        )
    }
}

impl Pane {
    /// (Re)launch the live search for the current `query`. The results of the
    /// previous one are dropped; an empty query just clears them. A `re:`/`g:` query
    /// that fails to compile is treated as zero matches: the footer surfaces the
    /// parse error so the user can fix the expression without losing what they've
    /// typed. Returns the job for the worker.
    pub fn start_search(&mut self, b: &[u8]) -> (r: Option<SearchJob>)
        requires
            old(self).wf(b@),
        ensures
            final(self).links() == old(self).links(),
            final(self).wf(b@),
            final(self).rows@ == old(self).rows@,
            final(self).root == old(self).root,
            ({
                let (v, job) = search_launched(old(self).model(b@));
                &&& final(self).model(b@) == v
                &&& match r {
                    Some(j) => job == Some(j.model()) && value_range(
                        b@,
                        j.start as int,
                        j.end as int,
                        j.kind,
                    ),
                    None => job is None,
                }
            }),
    {
        proof {
            reveal(search_launched);
            reveal(tree_ok);
        }
        let ghost v = self.model(b@);
        assert(self.query.text@ =~= v.query.before + v.query.after);
        self.search = None;
        self.match_set = Vec::new();
        self.indexed = 0;
        self.match_idx = 0;
        self.landed = false;
        self.want_path = None;
        self.query_error = None;
        assert(path_views(self.match_set@) =~= Seq::empty());
        if self.query.is_empty() {
            return None;
        }
        let pattern = match Pattern::parse(self.query.as_str()) {
            Ok(p) => p,
            Err(e) => {
                self.query_error = Some(e);
                return None;
            },
        };
        let none: Vec<Vec<usize>> = Vec::new();
        assert(path_views(none@) =~= Seq::empty());
        self.search = Some(Found { matches: none, finished: false });
        // Scan just the focused subtree when scoped, else the whole pane root.
        match &self.search_scope {
            Some(s) => {
                if self.scoped {
                    return Some(
                        SearchJob {
                            pattern,
                            start: s.start,
                            end: s.end,
                            kind: s.kind,
                            jsonl: s.jsonl,
                        },
                    );
                }
            },
            None => {},
        }
        Some(
            SearchJob {
                pattern,
                start: self.root.start,
                end: self.root.end,
                kind: self.root.kind,
                jsonl: self.root.jsonl,
            },
        )
    }

    /// Lift a worker match path to absolute.
    pub fn abs_match(&self, p: &Vec<usize>) -> (r: Vec<usize>)
        ensures
            forall|b: Seq<u8>| #[trigger] absolute_match(self.model(b), p@) == r@,
    {
        match &self.search_scope {
            Some(s) => {
                if self.scoped {
                    let mut full = s.path.clone();
                    full.extend_from_slice(p.as_slice());
                    return full;
                }
            },
            None => {},
        }
        p.clone()
    }

    /// Take in the match paths that a worker has found.
    pub fn receive_matches(&mut self, more: Vec<Vec<usize>>, finished: bool)
        ensures
            final(self).links() == old(self).links(),
            old(self).inputs_wf() ==> final(self).inputs_wf(),
            final(self).rows@ == old(self).rows@,
            final(self).root == old(self).root,
            forall|b: Seq<u8>| #[trigger]
                final(self).model(b) == matches_received(
                    old(self).model(b),
                    path_views(more@),
                    finished,
                ),
            forall|b: Seq<u8>| old(self).wf(b) ==> #[trigger] final(self).wf(b),
    {
        let ghost all = path_views(more@);
        let mut more = more;
        if let Some(s) = &mut self.search {
            let ghost before = path_views(s.matches@);
            s.matches.append(&mut more);
            s.finished = s.finished || finished;
            assert(path_views(s.matches@) =~= before + all);
        }
    }

    /// Mark newly-found matches so that rows can be highlighted.
    pub fn index_matches(&mut self)
        ensures
            final(self).links() == old(self).links(),
            old(self).inputs_wf() ==> final(self).inputs_wf(),
            final(self).rows@ == old(self).rows@,
            final(self).root == old(self).root,
            forall|b: Seq<u8>| #[trigger]
                final(self).model(b) == matches_indexed(old(self).model(b)),
            forall|b: Seq<u8>| old(self).wf(b) ==> #[trigger] final(self).wf(b),
    {
        let ghost v0 = self.model(Seq::empty());
        let ghost first = self.indexed as int;
        let ghost set0 = path_views(self.match_set@);
        let n: usize = match &self.search {
            Some(s) => s.matches.len(),
            None => 0,
        };
        let ghost me = *self;
        assert(set0 + Seq::<Seq<usize>>::empty() =~= set0);
        while self.indexed < n
            invariant
                first <= self.indexed,
                self.indexed <= n || self.indexed == first,
                n == match_count(v0),
                v0 == me.model(Seq::empty()),
                first == me.indexed,
                set0 == path_views(me.match_set@),
                *self == (Pane { match_set: self.match_set, indexed: self.indexed, ..me }),
                path_views(self.match_set@) == set0 + Seq::new(
                    (self.indexed - first) as nat,
                    |k: int| absolute_match(v0, v0.search->0.matches[first + k]),
                ),
            decreases n - self.indexed,
        {
            let ghost at = self.indexed as int;
            let ghost before = path_views(self.match_set@);
            if let Some(s) = &self.search {
                let p = self.abs_match(&s.matches[self.indexed]);
                proof {
                    let now = self.model(Seq::empty());
                    assert(absolute_match(now, s.matches@[at]@) == p@);
                    assert(v0.search->0.matches[at] == s.matches@[at]@);
                }
                self.match_set.push(p);
                assert(path_views(self.match_set@) =~= before.push(p@));
            }
            self.indexed = self.indexed + 1;
            proof {
                assert(path_views(self.match_set@) =~= set0 + Seq::new(
                    (self.indexed - first) as nat,
                    |k: int| absolute_match(v0, v0.search->0.matches[first + k]),
                ));
            }
        }
        proof {
            assert forall|b: Seq<u8>| #[trigger] self.model(b) == matches_indexed(me.model(b)) by {
                assert(self.model(b).match_set =~= matches_indexed(me.model(b)).match_set);
            }
        }
    }

    /// Jump to the next/previous match, wrapping around. The first press after a
    /// (re)search lands on the first (or last) match; later presses step from there.
    pub fn nav_match(&mut self, forward: bool, b: &[u8])
        requires
            old(self).wf(b@),
            rows_point(old(self).model(b@)),
        ensures
            final(self).links() == old(self).links(),
            final(self).wf(b@),
            rows_point(final(self).model(b@)),
            final(self).model(b@) == match_visited(b@, old(self).model(b@), forward),
    {
        proof {
            reveal(match_visited);
        }
        let ghost v = self.model(b@);
        let n: usize = match &self.search {
            Some(s) => s.matches.len(),
            None => 0,
        };
        if n == 0 {
            return ;
        }
        let i: usize = if !self.landed {
            if forward {
                0
            } else {
                n - 1
            }
        } else if forward {
            next_of(self.match_idx, n)
        } else {
            prev_of(self.match_idx, n)
        };
        self.landed = true;
        self.match_idx = i;
        let path = match &self.search {
            Some(s) => self.abs_match(&s.matches[i]),
            None => Vec::new(),
        };
        proof {
            let w = self.model(b@);
            assert(path@ == absolute_match(w, v.search->0.matches[i as int]));
            assert(absolute_match(w, v.search->0.matches[i as int]) == absolute_match(
                v,
                v.search->0.matches[i as int],
            ));
        }
        self.jump_to(path.as_slice(), b);
    }
}

// ---------------------------------------------------------------------------
// Filter results
// ---------------------------------------------------------------------------
/// A pane with more filter hits, and whether these were all.
pub open spec fn hits_received(v: PaneV, more: Seq<HitV>, finished: bool) -> PaneV {
    match v.filter {
        Some(f) => PaneV {
            filter: Some(HitsV { hits: f.hits + more, finished: f.finished || finished }),
            ..v
        },
        None => v,
    }
}

/// The node of hit number `i`. One without a path of its own is labelled by its
/// number.
pub open spec fn hit_node(b: Seq<u8>, h: HitV, i: int) -> NodeV {
    NodeV {
        label: if h.label.len() == 0 {
            decimal(i as nat)
        } else {
            h.label
        },
        start: h.start,
        end: h.end,
        end_exact: h.end_exact,
        kind: h.kind,
        is_index: false,
        jsonl: false,
        has_children: h.kind.is_container() && !empty_container(b, h.start, h.end),
        expanded: false,
        done: false,
        children: Seq::empty(),
        cursor: None,
    }
}

/// The nodes of the hits from number `from` up to number `to`.
pub open spec fn hit_nodes(b: Seq<u8>, hits: Seq<HitV>, from: int, to: int) -> Seq<NodeV> {
    Seq::new((to - from) as nat, |k: int| hit_node(b, hits[from + k], from + k))
}

/// A result pane with the hits that are new as children of its root. The children
/// that are there keep their place and what is expanded of them.
pub open spec fn hits_adopted(b: Seq<u8>, v: PaneV) -> PaneV {
    match v.filter {
        None => v,
        Some(f) => {
            let n = if v.filter_added < f.hits.len() {
                f.hits.len() as int
            } else {
                v.filter_added
            };
            PaneV {
                root: NodeV {
                    children: v.root.children + hit_nodes(b, f.hits, v.filter_added, n),
                    has_children: v.root.has_children || n > 0,
                    ..v.root
                },
                filter_added: n,
                ..v
            }
        },
    }
}

proof fn lemma_more_children_point(v: PaneV, w: PaneV)
    requires
        rows_point(v),
        w.rows == v.rows,
        w.root.kind == v.root.kind,
        v.root.children.len() <= w.root.children.len(),
        w.root.children.take(v.root.children.len() as int) == v.root.children,
    ensures
        rows_point(w),
{
    reveal(rows_point_in);
    assert forall|i: int| 0 <= i < w.rows.len() implies row_points(w.root, #[trigger] w.rows[i]) by {
        let p = v.rows[i].path;
        assert(row_points(v.root, v.rows[i]));
        if p.len() > 0 {
            assert(w.root.children.take(v.root.children.len() as int)[p[0] as int]
                == w.root.children[p[0] as int]);
        }
    }
}

impl Pane {
    /// Take in the hits that a worker has selected.
    pub fn receive_hits(&mut self, b: &[u8], more: Vec<FilterHit>, finished: bool)
        requires
            old(self).wf(b@),
            hits_wf(b@, hit_views(more@)),
        ensures
            final(self).links() == old(self).links(),
            final(self).wf(b@),
            final(self).rows@ == old(self).rows@,
            final(self).root == old(self).root,
            final(self).model(b@) == hits_received(
                old(self).model(b@),
                hit_views(more@),
                finished,
            ),
    {
        proof {
            reveal(tree_ok);
        }
        let ghost all = hit_views(more@);
        let ghost v = self.model(b@);
        let mut more = more;
        if let Some(f) = &mut self.filter {
            let ghost before = hit_views(f.hits@);
            f.hits.append(&mut more);
            f.finished = f.finished || finished;
            proof {
                assert(hit_views(f.hits@) =~= before + all);
                assert forall|i: int| 0 <= i < (before + all).len() implies value_range(
                    b@,
                    (#[trigger] (before + all)[i]).start,
                    (before + all)[i].end,
                    (before + all)[i].kind,
                ) by {
                    if i >= before.len() {
                        assert((before + all)[i] == all[i - before.len()]);
                    } else {
                        assert((before + all)[i] == before[i]);
                    }
                }
            }
        }
    }

    /// The node of one hit.
    fn make_hit_node(b: &[u8], h: &FilterHit, i: usize) -> (r: Node)
        requires
            value_range(b@, h.start as int, h.end as int, h.kind),
        ensures
            r.model(b@) == hit_node(b@, h@, i as int),
            r.wf(b@),
            !r.jsonl,
    {
        let label = if h.label.as_str().unicode_len() == 0 {
            decimal_string(i as u64)
        } else {
            h.label.clone()
        };
        let has = h.kind.is_container() && !container_empty(b, h.start, h.end);
        let r = Node {
            label,
            start: h.start,
            end: h.end,
            end_exact: h.end_exact,
            kind: h.kind,
            is_index: false,
            jsonl: false,
            has_children: has,
            expanded: false,
            done: false,
            children: Vec::new(),
            cursor: None,
        };
        assert(r.model(b@).children =~= Seq::empty());
        r
    }

    /// Fold any newly-selected filter hits into the result pane's synthetic array
    /// root as fresh children. Appending (never rebuilding) keeps already-expanded
    /// children, and their indices, stable as more results stream in.
    pub fn adopt_hits(&mut self, b: &[u8])
        requires
            old(self).wf(b@),
        ensures
            final(self).links() == old(self).links(),
            final(self).wf(b@),
            rows_point(old(self).model(b@)) ==> rows_point(final(self).model(b@)),
            final(self).model(b@) == hits_adopted(b@, old(self).model(b@)),
    {
        proof {
            reveal(tree_ok);
        }
        let ghost v = self.model(b@);
        let ghost kids = v.root.children;
        if let Some(f) = &self.filter {
            let n: usize = f.hits.len();
            if n > 0 || self.filter_added > 0 {
                self.root.has_children = true;
                proof {
                    assert(self.root.model(b@).children =~= kids);
                    lemma_flag_children_wf(b@, v.root, self.root.model(b@));
                }
            }
            if self.filter_added < n {
                give_hits(&mut self.root, &f.hits, self.filter_added, b);
                self.filter_added = n;
            } else {
                assert(kids + hit_nodes(b@, hit_views(f.hits@), v.filter_added, v.filter_added)
                    =~= kids);
            }
        }
        proof {
            lemma_adopted_pane(b@, v);
            assert(self.model(b@) == hits_adopted(b@, v));
        }
    }
}

proof fn lemma_adopted_pane(b: Seq<u8>, v: PaneV)
    requires
        pane_wf(b, v),
    ensures
        ({
            let w = hits_adopted(b, v);
            (node_wf(b, w.root) ==> pane_wf(b, w)) && (rows_point(v) ==> rows_point(w))
        }),
{
    reveal(tree_ok);
    let w = hits_adopted(b, v);
    if v.filter is Some && rows_point(v) {
        assert(w.root.children.take(v.root.children.len() as int) =~= v.root.children);
        lemma_more_children_point(v, w);
    }
}

/// Append the nodes of the hits from number `from` on.
fn give_hits(root: &mut Node, hits: &Vec<FilterHit>, from: usize, b: &[u8])
    requires
        old(root).wf(b@),
        old(root).cursor is None,
        old(root).has_children,
        hits_wf(b@, hit_views(hits@)),
        from <= hits@.len(),
    ensures
        final(root).wf(b@),
        final(root).model(b@) == (NodeV {
            children: old(root).model(b@).children + hit_nodes(
                b@,
                hit_views(hits@),
                from as int,
                hits@.len() as int,
            ),
            ..old(root).model(b@)
        }),
{
    let ghost r0 = root.model(b@);
    let ghost views = hit_views(hits@);
    let mut i: usize = from;
    assert(r0.children + hit_nodes(b@, views, from as int, from as int) =~= r0.children);
    while i < hits.len()
        invariant
            from <= i <= hits@.len(),
            views == hit_views(hits@),
            hits_wf(b@, views),
            root.wf(b@),
            root.cursor is None,
            r0.has_children,
            root.model(b@) == (NodeV {
                children: r0.children + hit_nodes(b@, views, from as int, i as int),
                ..r0
            }),
        decreases hits@.len() - i,
    {
        let ghost r1 = root.model(b@);
        assert(views[i as int] == hits@[i as int]@);
        let node = Pane::make_hit_node(b, &hits[i], i);
        let ghost m = node.model(b@);
        proof {
            lemma_give_child_wf(b@, r1, m);
        }
        root.children.push(node);
        proof {
            assert(root.model(b@).children =~= r1.children.push(m));
            assert(hit_nodes(b@, views, from as int, i + 1) =~= hit_nodes(
                b@,
                views,
                from as int,
                i as int,
            ).push(m));
            assert(root.model(b@).children =~= r0.children + hit_nodes(
                b@,
                views,
                from as int,
                i + 1,
            ));
        }
        i += 1;
    }
}

proof fn lemma_give_child_wf(b: Seq<u8>, n: NodeV, c: NodeV)
    requires
        node_wf(b, n),
        n.cursor is None,
        n.has_children,
        node_wf(b, c),
        !c.jsonl,
    ensures
        node_wf(b, NodeV { children: n.children.push(c), ..n }),
{
    let m = NodeV { children: n.children.push(c), ..n };
    assert forall|i: int| 0 <= i < m.children.len() implies !(#[trigger] m.children[i]).jsonl
        && node_wf(b, m.children[i]) by {
        if i < n.children.len() {
            assert(m.children[i] == n.children[i]);
        }
    }
}

proof fn lemma_flag_children_wf(b: Seq<u8>, n: NodeV, m: NodeV)
    requires
        node_wf(b, n),
        n.kind.is_container(),
        m == (NodeV { has_children: true, ..n }),
    ensures
        node_wf(b, m),
{
    assert(m.children == n.children);
}

// ---------------------------------------------------------------------------
// The window
// ---------------------------------------------------------------------------
/// `x`, but no more than a machine integer holds.
pub open spec fn capped(x: int) -> int {
    if x <= usize::MAX {
        x
    } else {
        usize::MAX as int
    }
}

pub open spec fn path_sum(p: Seq<usize>) -> int
    decreases p.len(),
{
    if p.len() == 0 {
        0
    } else {
        path_sum(p.drop_last()) + p.last()
    }
}

/// How many rows a jump to `p` flattens at first.
pub open spec fn jump_budget(p: Seq<usize>, h: int) -> int {
    capped(path_sum(p) + p.len() + h + ROW_HEADROOM)
}

/// The rows of a tree flattened far enough to hold the one at `target`, with
/// twice the budget where it was not enough, or all of them where it is not there.
pub open spec fn flat_to(b: Seq<u8>, root: NodeV, target: Seq<usize>, budget: int) -> FlatV
    decreases usize::MAX - budget,
{
    let f = flat(b, root, 0, budget, Seq::empty(), 0, None);
    if row_at(f.rows, target, 0) is Some || f.rows.len() < budget || budget <= 0 || budget
        >= usize::MAX {
        f
    } else {
        flat_to(b, f.node, target, capped(budget * 2))
    }
}

/// The last row that is no placeholder, up to number `i`.
pub open spec fn last_real(rows: Seq<RowV>, i: int) -> int
    decreases i,
{
    if i <= 0 {
        0
    } else if 0 <= i < rows.len() && !rows[i].loading {
        i
    } else {
        last_real(rows, i - 1)
    }
}

/// A pane with the focus on a row that exists, and on screen.
pub open spec fn focus_settled(v: PaneV, h: int) -> PaneV {
    let last = last_real(v.rows, v.rows.len() - 1);
    let focus = if v.focus > last {
        last
    } else {
        v.focus
    };
    PaneV {
        focus,
        scroll: if focus < v.scroll {
            focus
        } else if focus >= v.scroll + h {
            focus + 1 - h
        } else {
            v.scroll
        },
        ..v
    }
}

/// A pane that has landed on the path it was to jump to.
pub open spec fn window_landed(b: Seq<u8>, v: PaneV, h: int) -> PaneV {
    let target = v.want_path->0;
    let f = flat_to(b, v.root, target, jump_budget(target, h));
    focus_settled(
        PaneV {
            root: f.node,
            rows: f.rows,
            want_path: None,
            flatten_incomplete: false,
            focus: match row_at(f.rows, target, 0) {
                Some(i) => i,
                None => v.focus,
            },
            ..v
        },
        h,
    )
}

pub open spec fn window_budget(v: PaneV, h: int) -> int {
    let a = capped(v.scroll + h + ROW_HEADROOM);
    let c = capped(v.focus + ROW_HEADROOM);
    if a >= c {
        a
    } else {
        c
    }
}

/// A pane with as many rows as its viewport needs, against a deadline that is met
/// after `patience` looks at the clock.
pub open spec fn window_shown(b: Seq<u8>, v: PaneV, h: int, patience: nat) -> PaneV {
    let f = flat(b, v.root, 0, window_budget(v, h), Seq::empty(), 0, Some(patience));
    focus_settled(
        PaneV { root: f.node, rows: f.rows, flatten_incomplete: f.cut_short, ..v },
        h,
    )
}

pub fn saturating_sum(a: usize, c: usize) -> (r: usize)
    ensures
        r == capped(a + c),
{
    if a <= usize::MAX - c {
        a + c
    } else {
        usize::MAX
    }
}

/// How many rows a jump to `p` flattens at first.
fn first_budget(p: &Vec<usize>, h: usize) -> (r: usize)
    ensures
        r == jump_budget(p@, h as int),
        r > 0,
{
    let mut sum: usize = 0;
    let mut i: usize = 0;
    assert(p@.take(0) =~= Seq::empty());
    while i < p.len()
        invariant
            i <= p@.len(),
            sum == capped(path_sum(p@.take(i as int))),
            path_sum(p@.take(i as int)) >= 0,
        decreases p@.len() - i,
    {
        assert(p@.take(i + 1).drop_last() =~= p@.take(i as int));
        sum = saturating_sum(sum, p[i]);
        i += 1;
    }
    assert(p@.take(p@.len() as int) =~= p@);
    saturating_sum(saturating_sum(saturating_sum(sum, p.len()), h), ROW_HEADROOM)
}

proof fn lemma_flat_points(b: Seq<u8>, n: NodeV, budget: int, patience: Option<nat>)
    requires
        0 <= budget <= usize::MAX,
    ensures
        ({
            let f = flat(b, n, 0, budget, Seq::empty(), 0, patience);
            rows_point_in(f.node, f.rows)
        }),
{
    reveal(rows_point_in);
    let f = flat(b, n, 0, budget, Seq::empty(), 0, patience);
    law_rows_lead_to_nodes(b, n, 0, budget, Seq::empty(), 0, patience);
    assert forall|i: int| 0 <= i < f.rows.len() implies row_points(f.node, #[trigger] f.rows[i]) by {
        let r = f.rows[i];
        assert(row_leads(b, f.node, 0, Seq::empty(), r));
        assert(r.path.skip(0) =~= r.path);
    }
}

/// Flatten with the given budget, in one go.
fn flatten_all(root: &mut Node, b: &[u8], budget: usize) -> (rows: Vec<Row>)
    requires
        old(root).wf(b@),
    ensures
        final(root).wf(b@),
        ({
            let f = flat(b@, old(root).model(b@), 0, budget as int, Seq::empty(), 0, None);
            &&& final(root).model(b@) == f.node
            &&& row_views(rows@) == f.rows
            &&& rows_point_in(f.node, f.rows)
            &&& grown(old(root).model(b@), f.node)
        }),
{
    let ghost n0 = root.model(b@);
    let mut rows: Vec<Row> = Vec::new();
    let mut path: Vec<usize> = Vec::new();
    let mut ignore = false;
    assert(row_views(rows@) =~= Seq::empty());
    assert(path@ =~= Seq::empty());
    flatten(root, b, 0, budget, &mut rows, &mut path, None, &mut ignore);
    proof {
        let f = flat(b@, n0, 0, budget as int, Seq::empty(), 0, None);
        assert(Seq::<RowV>::empty() + f.rows =~= f.rows);
        lemma_flat_points(b@, n0, budget as int, None);
        law_flatten_keeps_tree(b@, n0, 0, budget as int, Seq::empty(), 0, None);
    }
    rows
}

/// Flatten far enough to include the target's row. A static estimate undershoots
/// once sibling subtrees are expanded (e.g. cycling search matches expands each
/// visited node, pushing later rows down), so grow the budget until the target
/// appears, or the tree is fully walked (target unreachable, or not arrived yet).
fn flatten_to(root: &mut Node, b: &[u8], target: &Vec<usize>, h: usize) -> (rows: Vec<Row>)
    requires
        old(root).wf(b@),
    ensures
        final(root).wf(b@),
        ({
            let f = flat_to(
                b@,
                old(root).model(b@),
                target@,
                jump_budget(target@, h as int),
            );
            &&& final(root).model(b@) == f.node
            &&& row_views(rows@) == f.rows
            &&& rows_point_in(f.node, f.rows)
            &&& grown(old(root).model(b@), f.node)
        }),
{
    let ghost n0 = root.model(b@);
    let mut budget: usize = first_budget(target, h);
    let ghost want = flat_to(b@, n0, target@, budget as int);
    proof {
        lemma_grown_self(n0);
    }
    loop
        invariant
            root.wf(b@),
            budget > 0,
            n0 == old(root).model(b@),
            want == flat_to(b@, n0, target@, jump_budget(target@, h as int)),
            want == flat_to(b@, root.model(b@), target@, budget as int),
            grown(n0, root.model(b@)),
        decreases usize::MAX - budget,
    {
        let ghost n1 = root.model(b@);
        let rows = flatten_all(root, b, budget);
        proof {
            lemma_grown_step(n0, n1, root.model(b@));
        }
        if find_row(&rows, target.as_slice()).is_some() || rows.len() < budget || budget
            == usize::MAX {
            return rows;
        }
        budget = saturating_sum(budget, budget);
    }
}

/// Flatten with the given budget, as far as the deadline allows. The flag tells
/// whether it was met.
fn flatten_some(root: &mut Node, b: &[u8], budget: usize, deadline: Instant) -> (r: (
    Vec<Row>,
    bool,
))
    requires
        old(root).wf(b@),
    ensures
        final(root).wf(b@),
        rows_point_in(final(root).model(b@), row_views(r.0@)),
        grown(old(root).model(b@), final(root).model(b@)),
        exists|patience: nat|
            ({
                let f = #[trigger] flat_patient(b@, old(root).model(b@), budget as int, patience);
                &&& final(root).model(b@) == f.node
                &&& row_views(r.0@) == f.rows
                &&& r.1 == f.cut_short
            }),
{
    let ghost n0 = root.model(b@);
    let mut rows: Vec<Row> = Vec::new();
    let mut path: Vec<usize> = Vec::new();
    let mut incomplete = false;
    assert(row_views(rows@) =~= Seq::empty());
    assert(path@ =~= Seq::empty());
    flatten(root, b, 0, budget, &mut rows, &mut path, Some(deadline), &mut incomplete);
    proof {
        let p = choose|p: Option<nat>|
            {
                &&& p is Some
                &&& flat_outcome(
                    #[trigger] flat(b@, n0, 0, budget as int, Seq::empty(), 0, p),
                    Seq::empty(),
                    root.model(b@),
                    row_views(rows@),
                    incomplete,
                )
            };
        let f = flat_patient(b@, n0, budget as int, p->0);
        assert(f == flat(b@, n0, 0, budget as int, Seq::empty(), 0, p));
        assert(Seq::<RowV>::empty() + f.rows =~= f.rows);
        lemma_flat_points(b@, n0, budget as int, p);
        law_flatten_keeps_tree(b@, n0, 0, budget as int, Seq::empty(), 0, p);
    }
    (rows, incomplete)
}

/// [`flat`] of a whole tree with the given patience.
pub open spec fn flat_patient(b: Seq<u8>, n: NodeV, budget: int, patience: nat) -> FlatV {
    flat(b, n, 0, budget, Seq::empty(), 0, Some(patience))
}

impl Pane {
    /// Clamp focus to the last real row, never the trailing loading placeholder
    /// (it's not a navigable node, and its path is empty), and scroll to it.
    fn settle_focus(&mut self, h: usize)
        ensures
            final(self).links() == old(self).links(),
            final(self).root == old(self).root,
            old(self).inputs_wf() ==> final(self).inputs_wf(),
            forall|b: Seq<u8>| #[trigger]
                final(self).model(b) == focus_settled(old(self).model(b), h as int),
    {
        let ghost rows = row_views(self.rows@);
        let n: usize = self.rows.len();
        let mut last: usize = if n > 0 {
            n - 1
        } else {
            0
        };
        while last > 0 && self.rows[last].loading
            invariant
                rows == row_views(self.rows@),
                n == self.rows@.len(),
                last < n || last == 0,
                last_real(rows, n - 1) == last_real(rows, last as int),
            decreases last,
        {
            assert(rows[last as int].loading == self.rows@[last as int].loading);
            last -= 1;
        }
        proof {
            if last > 0 {
                assert(rows[last as int].loading == self.rows@[last as int].loading);
            }
            assert(last_real(rows, n - 1) == last);
        }
        if self.focus > last {
            self.focus = last;
        }
        if self.focus < self.scroll {
            self.scroll = self.focus;
        } else if self.focus - self.scroll >= h {
            self.scroll = self.focus - h + 1;
        }
    }

    /// Flatten this pane's visible window, land any pending jump, and clamp
    /// focus/scroll into range. `h` is the pane's content height. Without a jump
    /// the work stops at `deadline` where one value is too big to step over before
    /// it; with one, the row must be reached now.
    pub fn flatten_window(&mut self, b: &[u8], h: usize, deadline: Instant)
        requires
            old(self).wf(b@),
            h > 0,
        ensures
            final(self).links() == old(self).links(),
            final(self).wf(b@),
            rows_point(final(self).model(b@)),
            old(self).want_path is Some ==> final(self).model(b@) == window_landed(
                b@,
                old(self).model(b@),
                h as int,
            ),
            old(self).want_path is None ==> exists|patience: nat|
                final(self).model(b@) == #[trigger] window_shown(
                    b@,
                    old(self).model(b@),
                    h as int,
                    patience,
                ),
    {
        match self.want_path.take() {
            Some(target) => self.land(b, h, &target),
            None => self.show(b, h, deadline),
        }
    }

    /// Flatten as far as the row of `target`, and put the focus on it.
    fn land(&mut self, b: &[u8], h: usize, target: &Vec<usize>)
        requires
            old(self).wf(b@),
            h > 0,
            old(self).want_path is None,
        ensures
            final(self).links() == old(self).links(),
            final(self).wf(b@),
            rows_point(final(self).model(b@)),
            final(self).model(b@) == window_landed(
                b@,
                PaneV { want_path: Some(target@), ..old(self).model(b@) },
                h as int,
            ),
    {
        let ghost v = self.model(b@);
        proof {
            lemma_pane_tree(b@, v);
        }
        let rows = flatten_to(&mut self.root, b, target, h);
        self.rows = rows;
        self.flatten_incomplete = false;
        if let Some(i) = find_row(&self.rows, target.as_slice()) {
            self.focus = i;
        }
        proof {
            lemma_grown_pane_wf(b@, v, self.model(b@));
        }
        self.settle_focus(h);
    }

    /// Flatten as far as the viewport needs, and cooperatively: if a huge value
    /// sits between visible rows, paint what there is and resume next frame.
    #[verifier::rlimit(60)]
    #[verifier::spinoff_prover]
    fn show(&mut self, b: &[u8], h: usize, deadline: Instant)
        requires
            old(self).wf(b@),
            h > 0,
        ensures
            final(self).links() == old(self).links(),
            final(self).wf(b@),
            rows_point(final(self).model(b@)),
            exists|patience: nat|
                final(self).model(b@) == #[trigger] window_shown(
                    b@,
                    old(self).model(b@),
                    h as int,
                    patience,
                ),
    {
        let ghost v = self.model(b@);
        proof {
            lemma_pane_tree(b@, v);
        }
        let a: usize = saturating_sum(saturating_sum(self.scroll, h), ROW_HEADROOM);
        let c: usize = saturating_sum(self.focus, ROW_HEADROOM);
        let budget: usize = if a >= c {
            a
        } else {
            c
        };
        let (rows, incomplete) = flatten_some(&mut self.root, b, budget, deadline);
        let ghost patience = choose|patience: nat|
            ({
                let f = #[trigger] flat_patient(b@, v.root, budget as int, patience);
                &&& self.root.model(b@) == f.node
                &&& row_views(rows@) == f.rows
                &&& incomplete == f.cut_short
            });
        self.rows = rows;
        self.flatten_incomplete = incomplete;
        let ghost w = self.model(b@);
        proof {
            lemma_grown_pane_wf(b@, v, w);
            let f = flat_patient(b@, v.root, budget as int, patience);
            assert(w == (PaneV {
                root: f.node,
                rows: f.rows,
                flatten_incomplete: f.cut_short,
                ..v
            }));
        }
        self.settle_focus(h);
        assert(self.model(b@) == window_shown(b@, v, h as int, patience));
    }
}

/// Going on and back again leads to the same place, whether among matches, bookmarks
/// or panes.
pub proof fn law_next_then_prev(i: int, n: int)
    requires
        0 <= i < n,
    ensures
        0 <= next_in(i, n) < n,
        0 <= prev_in(i, n) < n,
        prev_in(next_in(i, n), n) == i,
        next_in(prev_in(i, n), n) == i,
{
    reveal(next_in);
    reveal(prev_in);
    if i + 1 < n {
        assert((i + 1) % n == i + 1) by (nonlinear_arith)
            requires
                0 <= i + 1 < n,
        ;
        assert((i + 1 + n - 1) % n == i) by (nonlinear_arith)
            requires
                0 <= i < n,
        ;
    } else {
        assert(n % n == 0) by (nonlinear_arith)
            requires
                n > 0,
        ;
        assert((0 + n - 1) % n == n - 1) by (nonlinear_arith)
            requires
                n > 0,
        ;
    }
    if i > 0 {
        assert((i + n - 1) % n == i - 1) by (nonlinear_arith)
            requires
                0 < i < n,
        ;
        assert((i - 1 + 1) % n == i) by (nonlinear_arith)
            requires
                0 <= i < n,
        ;
    } else {
        assert((n - 1) % n == n - 1) by (nonlinear_arith)
            requires
                n > 0,
        ;
        assert((n - 1 + 1) % n == 0) by (nonlinear_arith)
            requires
                n > 0,
        ;
    }
}

/// Bookmarking a node that is not bookmarked, and again, leaves the pane as it was.
pub proof fn law_bookmark_twice(b: Seq<u8>, v: PaneV)
    requires
        pane_wf(b, v),
        focus_path(v) matches Some(p) ==> !v.bookmarks.contains(p),
    ensures
        bookmark_toggled(bookmark_toggled(v).0).0 == v,
{
    reveal(bookmark_toggled);
    if let Some(p) = focus_path(v) {
        let n = v.bookmarks.len() as int;
        lemma_position(v.bookmarks, p, 0);
        let w = v.bookmarks.push(p);
        lemma_position(w, p, 0);
        assert(w[n] == p);
        assert forall|k: int| 0 <= k < n implies #[trigger] w[k] != p by {
            assert(w[k] == v.bookmarks[k]);
        }
        assert(position(w, p, 0) == Some(n));
        assert(w.remove(n) =~= v.bookmarks);
    }
}

} // verus!
