//! What a key does to the pane that has the focus, mode by mode.

use crate::input::{edit_of, edited, whole, KeyCode};
use crate::overlay::{less, lower, wrap_for_peek, wrapped};
use crate::pane::{
    jumped, kept_in, match_visited, next_in, next_of, prev_in, prev_of, rows_point, search_cleared,
    Mode, Pane, PaneV, PeekV, SchemaViewV,
};
use crate::text::texts;
use vstd::prelude::*;

verus! {

/// What a key press asks the run loop to do that it can't do itself.
#[derive(Clone, Copy, PartialEq, Eq, Debug, Structural)]
pub enum KeyOutcome {
    Continue,
    Quit,
    /// (Re)launch the search of the active pane.
    Relaunch,
    /// Run the pipeline stashed in the pending filter, opening a result pane.
    LaunchFilter,
    /// Sum up the numbers below the focused node.
    Aggregate,
}

// ---------------------------------------------------------------------------
// The search prompt
// ---------------------------------------------------------------------------
/// The search box stays open so that matches cycle in place: Enter and Down go to
/// the next, Shift-Enter and Up to the previous; Tab flips the scope, where there
/// is one; typing refines the query and searches anew; Esc closes.
pub open spec fn search_key(b: Seq<u8>, v: PaneV, code: KeyCode, ctrl: bool, shift: bool) -> (
    PaneV,
    KeyOutcome,
) {
    match code {
        KeyCode::Esc => (
            search_cleared(PaneV { mode: Mode::Normal, ..v }),
            KeyOutcome::Continue,
        ),
        KeyCode::Enter => (match_visited(b, v, !shift), KeyOutcome::Continue),
        KeyCode::Down => (match_visited(b, v, true), KeyOutcome::Continue),
        KeyCode::Up => (match_visited(b, v, false), KeyOutcome::Continue),
        KeyCode::Tab | KeyCode::BackTab => if v.search_scope is Some {
            (PaneV { scoped: !v.scoped, ..v }, KeyOutcome::Relaunch)
        } else {
            (v, KeyOutcome::Continue)
        },
        _ => match edit_of(code, ctrl) {
            None => (v, KeyOutcome::Continue),
            Some(e) => (
                PaneV { query: edited(v.query, e), ..v },
                if whole(edited(v.query, e)).len() != whole(v.query).len() {
                    KeyOutcome::Relaunch
                } else {
                    KeyOutcome::Continue
                },
            ),
        },
    }
}

pub fn on_search_key(v: &mut Pane, code: KeyCode, ctrl: bool, shift: bool, b: &[u8]) -> (r:
    KeyOutcome)
    requires
        old(v).wf(b@),
        rows_point(old(v).model(b@)),
    ensures
        final(v).links() == old(v).links(),
        final(v).wf(b@),
        rows_point(final(v).model(b@)),
        search_key(b@, old(v).model(b@), code, ctrl, shift) == (final(v).model(b@), r),
{
    match code {
        KeyCode::Esc => {
            v.mode = Mode::Normal;
            v.clear_search();
        },
        KeyCode::Enter => v.nav_match(!shift, b),
        KeyCode::Down => v.nav_match(true, b),
        KeyCode::Up => v.nav_match(false, b),
        KeyCode::Tab | KeyCode::BackTab => {
            if v.search_scope.is_some() {
                v.scoped = !v.scoped;
                return KeyOutcome::Relaunch;
            }
        },
        // Editing and caret keys go to the input; only a text change relaunches the
        // live search (a caret move leaves the query, and the results, put).
        _ => {
            if let Some(changed) = v.query.edit(code, ctrl) {
                if changed {
                    return KeyOutcome::Relaunch;
                }
            }
        },
    }
    KeyOutcome::Continue
}

// ---------------------------------------------------------------------------
// The bookmark picker
// ---------------------------------------------------------------------------
/// The bookmark picker one step down or up.
pub open spec fn mark_stepped(v: PaneV, down: bool) -> PaneV {
    let n = v.bookmarks.len() as int;
    if n == 0 {
        v
    } else {
        PaneV {
            mark_idx: if down {
                next_in(v.mark_idx, n)
            } else {
                prev_in(v.mark_idx, n)
            },
            ..v
        }
    }
}

/// The picked bookmark deleted; the picker closes with the last one.
pub open spec fn mark_dropped(v: PaneV) -> PaneV {
    let n = v.bookmarks.len() as int;
    if v.mark_idx < n {
        PaneV {
            bookmarks: v.bookmarks.remove(v.mark_idx),
            mark_idx: kept_in(v.mark_idx, n - 1),
            mode: if n == 1 {
                Mode::Normal
            } else {
                v.mode
            },
            ..v
        }
    } else {
        v
    }
}

/// The picked bookmark jumped to, and the picker closed.
pub open spec fn mark_picked(b: Seq<u8>, v: PaneV) -> PaneV {
    let w = if v.mark_idx < v.bookmarks.len() {
        jumped(b, v, v.bookmarks[v.mark_idx])
    } else {
        v
    };
    PaneV { mode: Mode::Normal, ..w }
}

/// What a key asks of the bookmark picker.
pub enum MarkKey {
    Close,
    Down,
    Up,
    Drop,
    Pick,
    Nothing,
}

/// Down and `j` go to the next bookmark, Up and `k` to the previous; `d` deletes,
/// Enter jumps, Esc, `q` and `'` close.
pub open spec fn mark_key_of(code: KeyCode) -> MarkKey {
    match code {
        KeyCode::Esc => MarkKey::Close,
        KeyCode::Down => MarkKey::Down,
        KeyCode::Up => MarkKey::Up,
        KeyCode::Enter => MarkKey::Pick,
        KeyCode::Char(c) => if c == '\'' || c == 'q' {
            MarkKey::Close
        } else if c == 'j' {
            MarkKey::Down
        } else if c == 'k' {
            MarkKey::Up
        } else if c == 'd' {
            MarkKey::Drop
        } else {
            MarkKey::Nothing
        },
        _ => MarkKey::Nothing,
    }
}

pub open spec fn marks_key(b: Seq<u8>, v: PaneV, code: KeyCode) -> PaneV {
    match mark_key_of(code) {
        MarkKey::Close => PaneV { mode: Mode::Normal, ..v },
        MarkKey::Down => mark_stepped(v, true),
        MarkKey::Up => mark_stepped(v, false),
        MarkKey::Drop => mark_dropped(v),
        MarkKey::Pick => mark_picked(b, v),
        MarkKey::Nothing => v,
    }
}

fn step_mark(v: &mut Pane, down: bool, b: &[u8])
    requires
        old(v).wf(b@),
    ensures
        final(v).links() == old(v).links(),
        final(v).wf(b@),
        final(v).rows == old(v).rows,
        final(v).root == old(v).root,
        final(v).model(b@) == mark_stepped(old(v).model(b@), down),
{
    let n: usize = v.bookmarks.len();
    if n > 0 {
        v.mark_idx = if down {
            next_of(v.mark_idx, n)
        } else {
            prev_of(v.mark_idx, n)
        };
    }
}

fn drop_mark(v: &mut Pane, b: &[u8])
    requires
        old(v).wf(b@),
    ensures
        final(v).links() == old(v).links(),
        final(v).wf(b@),
        final(v).rows@ == old(v).rows@,
        final(v).root == old(v).root,
        final(v).model(b@) == mark_dropped(old(v).model(b@)),
{
    if v.mark_idx < v.bookmarks.len() {
        let ghost w = v.model(b@);
        v.remove_bookmark(v.mark_idx);
        assert(v.model(b@).bookmarks.len() == w.bookmarks.len() - 1);
        if v.bookmarks.len() == 0 {
            v.mode = Mode::Normal;
        }
    }
}

fn pick_mark(v: &mut Pane, b: &[u8])
    requires
        old(v).wf(b@),
        rows_point(old(v).model(b@)),
    ensures
        final(v).links() == old(v).links(),
        final(v).wf(b@),
        rows_point(final(v).model(b@)),
        final(v).model(b@) == mark_picked(b@, old(v).model(b@)),
{
    if v.mark_idx < v.bookmarks.len() {
        let p = v.bookmarks[v.mark_idx].clone();
        assert(v.model(b@).bookmarks[v.mark_idx as int] == p@);
        v.jump_to(p.as_slice(), b);
    }
    v.mode = Mode::Normal;
}

pub fn on_marks_key(v: &mut Pane, code: KeyCode, b: &[u8])
    requires
        old(v).wf(b@),
        rows_point(old(v).model(b@)),
    ensures
        final(v).links() == old(v).links(),
        final(v).wf(b@),
        rows_point(final(v).model(b@)),
        final(v).model(b@) == marks_key(b@, old(v).model(b@), code),
{
    match code {
        KeyCode::Esc | KeyCode::Char('\'') | KeyCode::Char('q') => {
            v.mode = Mode::Normal;
        },
        KeyCode::Down | KeyCode::Char('j') => step_mark(v, true, b),
        KeyCode::Up | KeyCode::Char('k') => step_mark(v, false, b),
        KeyCode::Char('d') => drop_mark(v, b),
        KeyCode::Enter => pick_mark(v, b),
        _ => {},
    }
}

// ---------------------------------------------------------------------------
// Scrolling an overlay
// ---------------------------------------------------------------------------
/// Where a scroll key takes an overlay whose last top line is `max`, with `page`
/// lines on screen. None where the key is no scroll key.
pub open spec fn scrolled_to(scroll: int, max: int, page: int, code: KeyCode, ctrl: bool) -> Option<
    int,
> {
    match code {
        KeyCode::Down => Some(lower(scroll + 1, max)),
        KeyCode::Up => Some(less(scroll, 1)),
        KeyCode::PageDown => Some(lower(scroll + page, max)),
        KeyCode::PageUp => Some(less(scroll, page)),
        KeyCode::Home => Some(0),
        KeyCode::End => Some(max),
        KeyCode::Char(c) => if c == 'j' {
            Some(lower(scroll + 1, max))
        } else if c == 'k' {
            Some(less(scroll, 1))
        } else if c == ' ' || c == 'f' && ctrl {
            Some(lower(scroll + page, max))
        } else if c == 'b' && ctrl {
            Some(less(scroll, page))
        } else if c == 'g' {
            Some(0)
        } else if c == 'G' {
            Some(max)
        } else {
            None
        },
        _ => None,
    }
}

fn scroll_by(scroll: usize, max: usize, page: usize, code: KeyCode, ctrl: bool) -> (r: Option<usize>)
    ensures
        match scrolled_to(scroll as int, max as int, page as int, code, ctrl) {
            Some(s) => r == Some(s as usize) && s == s as usize,
            None => r is None,
        },
{
    let down: usize = if scroll < max {
        scroll + 1
    } else {
        max
    };
    let up: usize = if scroll > 0 {
        scroll - 1
    } else {
        0
    };
    let page_down: usize = if scroll < max && page < max - scroll {
        scroll + page
    } else {
        max
    };
    let page_up: usize = if scroll > page {
        scroll - page
    } else {
        0
    };
    match code {
        KeyCode::Down | KeyCode::Char('j') => Some(down),
        KeyCode::Up | KeyCode::Char('k') => Some(up),
        KeyCode::PageDown | KeyCode::Char(' ') => Some(page_down),
        KeyCode::PageUp => Some(page_up),
        KeyCode::Home | KeyCode::Char('g') => Some(0),
        KeyCode::End | KeyCode::Char('G') => Some(max),
        KeyCode::Char('f') => if ctrl {
            Some(page_down)
        } else {
            None
        },
        KeyCode::Char('b') => if ctrl {
            Some(page_up)
        } else {
            None
        },
        _ => None,
    }
}

/// The keys that close the peek overlay.
pub open spec fn closes_peek(code: KeyCode) -> bool {
    code is Esc || code is Enter || code == KeyCode::Char('q')
}

/// The peek overlay: scroll keys move within it, Esc, `q` and Enter close it. The
/// last top line is that of the value wrapped to the card.
pub open spec fn peek_key(v: PaneV, code: KeyCode, ctrl: bool, inner_w: int, inner_h: int) -> PaneV {
    match v.peek {
        None => PaneV { mode: Mode::Normal, ..v },
        Some(p) => if closes_peek(code) {
            PaneV { mode: Mode::Normal, peek: None, ..v }
        } else {
            let max = less(wrapped(p.text, inner_w).len() as int, inner_h);
            match scrolled_to(p.scroll, max, inner_h, code, ctrl) {
                Some(s) => PaneV { peek: Some(PeekV { scroll: s, ..p }), ..v },
                None => v,
            }
        },
    }
}

pub fn on_peek_key(v: &mut Pane, code: KeyCode, ctrl: bool, inner_w: usize, inner_h: usize)
    ensures
        final(v).links() == old(v).links(),
        final(v).root == old(v).root,
        final(v).rows == old(v).rows,
        old(v).inputs_wf() ==> final(v).inputs_wf(),
        forall|b: Seq<u8>| #[trigger]
            final(v).model(b) == peek_key(
                old(v).model(b),
                code,
                ctrl,
                inner_w as int,
                inner_h as int,
            ),
{
    match &mut v.peek {
        None => {
            v.mode = Mode::Normal;  // no state, nothing to show
        },
        Some(pk) => {
            if matches!(code, KeyCode::Esc | KeyCode::Enter | KeyCode::Char('q')) {
                v.mode = Mode::Normal;
                v.peek = None;
                return ;
            }
            let lines = wrap_for_peek(pk.text.as_str(), inner_w);
            let total: usize = lines.len();
            let max: usize = if total > inner_h {
                total - inner_h
            } else {
                0
            };
            assert(texts(lines@).len() == total);
            if let Some(s) = scroll_by(pk.scroll, max, inner_h, code, ctrl) {
                pk.scroll = s;
            }
        },
    }
}

/// The keys that close the schema overlay.
pub open spec fn closes_schema(code: KeyCode) -> bool {
    code is Esc || code is Enter || code == KeyCode::Char('q') || code == KeyCode::Char('t')
}

/// The schema overlay, for any key but the one that copies: scroll keys move
/// within it, Esc, `q`, `t` and Enter close it.
pub open spec fn schema_key(v: PaneV, code: KeyCode, ctrl: bool, inner_h: int) -> PaneV {
    match v.schema {
        None => PaneV { mode: Mode::Normal, ..v },
        Some(s) => if closes_schema(code) {
            PaneV { mode: Mode::Normal, schema: None, ..v }
        } else {
            let max = less(s.lines.len() as int, inner_h);
            match scrolled_to(s.scroll, max, inner_h, code, ctrl) {
                Some(at) => PaneV { schema: Some(SchemaViewV { scroll: at, ..s }), ..v },
                None => v,
            }
        },
    }
}

pub fn on_schema_key(v: &mut Pane, code: KeyCode, ctrl: bool, inner_h: usize)
    ensures
        final(v).links() == old(v).links(),
        final(v).root == old(v).root,
        final(v).rows == old(v).rows,
        old(v).inputs_wf() ==> final(v).inputs_wf(),
        forall|b: Seq<u8>| #[trigger]
            final(v).model(b) == schema_key(old(v).model(b), code, ctrl, inner_h as int),
{
    match &mut v.schema {
        None => {
            v.mode = Mode::Normal;
        },
        Some(sc) => {
            if matches!(
                code,
                KeyCode::Esc | KeyCode::Enter | KeyCode::Char('q') | KeyCode::Char('t')
            ) {
                v.mode = Mode::Normal;
                v.schema = None;
                return ;
            }
            let total: usize = sc.lines.len();
            let max: usize = if total > inner_h {
                total - inner_h
            } else {
                0
            };
            assert(texts(sc.lines@).len() == total);
            if let Some(s) = scroll_by(sc.scroll, max, inner_h, code, ctrl) {
                sc.scroll = s;
            }
        },
    }
}

} // verus!
