//! What comes of key presses: one alone, and one behind another.

use crate::clip::grouped;
use crate::control::{
    coalesced, command_done, counted, extracted, key_processed, schema_opened, wheeled,
};
use crate::input::{
    edited, law_editing_keys, newer_line, older_line, whole, EditV, InputV, KeyCode,
};
use crate::keys::{marks_key, scrolled_to, search_key, KeyOutcome};
use crate::layout::{law_the_pane_under_a_cell, pane_of_cell};
use crate::moving::law_next_and_previous;
use crate::overlay::Area;
use crate::pane::{
    focus_node, focus_path, focus_scope, gone_to, jumped, peek_of, peeked, Mode, PaneV,
};
use crate::paths::{parsed_path, resolved_climbing};
use crate::program::pipeline;
use crate::prompts::{
    filter_key, filter_submitted, goto_key, newer_filter_recalled, newer_path_recalled,
    older_filter_recalled, older_path_recalled, path_submitted,
};
use crate::scanner::{children_from, decoded};
use crate::session::{active_pane, closed_active, law_last_pane_stays, with_active, AppV};
use crate::text::{text_of, trimmed};
use crate::tree::{expanded_to, fresh_cursor, NodeV};
use vstd::prelude::*;
use vstd::utf8::*;

verus! {

/// A workspace whose active pane takes commands.
pub open spec fn at_rest(a: AppV) -> bool {
    0 <= a.active < a.views.len() && active_pane(a).mode == Mode::Normal
}

/// The workspace with the status line blank.
pub open spec fn quiet(a: AppV) -> AppV {
    AppV { flash: None, ..a }
}

/// The workspace with the focus of the active pane on another row.
pub open spec fn focused_on(a: AppV, row: int) -> AppV {
    with_active(quiet(a), PaneV { focus: row, ..active_pane(a) })
}

// ---------------------------------------------------------------------------
// Normal mode
// ---------------------------------------------------------------------------
/// Down and `j` move the focus a row down, Up and `k` a row up; PageDown and Ctrl-f, PageUp
/// and Ctrl-b move it by the rows on the screen; upwards it stops at the first row. Nothing
/// else changes.
pub proof fn law_keys_move_the_focus(
    b: Seq<u8>,
    a: AppV,
    ctrl: bool,
    shift: bool,
    h: int,
    screen: Area,
)
    requires
        at_rest(a),
        1 <= h,
        0 <= active_pane(a).focus,
        active_pane(a).focus + h <= usize::MAX,
    ensures
        ({
            let f = active_pane(a).focus;
            let up = if f == 0 {
                0
            } else {
                f - 1
            };
            let page_up = if f <= h {
                0
            } else {
                f - h
            };
            let go_on = KeyOutcome::Continue;
            let press = |code: KeyCode, ctrl: bool|
                key_processed(b, a, code, ctrl, shift, h, screen);
            &&& press(KeyCode::Down, ctrl) == (focused_on(a, f + 1), go_on)
            &&& press(KeyCode::Char('j'), ctrl) == (focused_on(a, f + 1), go_on)
            &&& press(KeyCode::Up, ctrl) == (focused_on(a, up), go_on)
            &&& press(KeyCode::Char('k'), ctrl) == (focused_on(a, up), go_on)
            &&& press(KeyCode::PageDown, ctrl) == (focused_on(a, f + h), go_on)
            &&& press(KeyCode::Char('f'), true) == (focused_on(a, f + h), go_on)
            &&& press(KeyCode::PageUp, ctrl) == (focused_on(a, page_up), go_on)
            &&& press(KeyCode::Char('b'), true) == (focused_on(a, page_up), go_on)
        }),
{
    reveal(command_done);
}

/// Two presses of Ctrl-d go as far as a page, or a row less where that is odd, and two of
/// Ctrl-u go back.
pub proof fn law_half_pages(
    b: Seq<u8>,
    a: AppV,
    shift: bool,
    h: int,
    screen: Area,
)
    requires
        at_rest(a),
        0 <= h,
        0 <= active_pane(a).focus,
        active_pane(a).focus + h <= usize::MAX,
    ensures
        ({
            let once = key_processed(b, a, KeyCode::Char('d'), true, shift, h, screen).0;
            let twice = key_processed(b, once, KeyCode::Char('d'), true, shift, h, screen).0;
            let back = key_processed(b, twice, KeyCode::Char('u'), true, shift, h, screen).0;
            let f = active_pane(a).focus;
            &&& active_pane(twice).focus == f + h || active_pane(twice).focus == f + h - 1
            &&& h % 2 == 0 ==> active_pane(twice).focus == f + h
            &&& back == once
            &&& key_processed(b, back, KeyCode::Char('u'), true, shift, h, screen).0 == quiet(a)
        }),
{
    let f = active_pane(a).focus;
    lemma_half_page(b, a, shift, h, screen);
    let once = focused_on(a, f + h / 2);
    lemma_half_page(b, once, shift, h, screen);
    let twice = focused_on(once, f + 2 * (h / 2));
    lemma_half_page(b, twice, shift, h, screen);
    assert(focused_on(twice, f + h / 2).views =~= once.views);
    assert(focused_on(once, f).views =~= a.views);
}

proof fn lemma_half_page(b: Seq<u8>, a: AppV, shift: bool, h: int, screen: Area)
    requires
        at_rest(a),
        0 <= h,
        0 <= active_pane(a).focus,
    ensures
        ({
            let f = active_pane(a).focus;
            let down = key_processed(b, a, KeyCode::Char('d'), true, shift, h, screen).0;
            let up = key_processed(b, a, KeyCode::Char('u'), true, shift, h, screen).0;
            &&& f + h / 2 <= usize::MAX ==> down == focused_on(a, f + h / 2)
            &&& f >= h / 2 ==> up == focused_on(a, f - h / 2)
        }),
{
    reveal(command_done);
}

/// `g` and Home go to the first row, and nothing is above it any more.
pub proof fn law_going_to_the_top(
    b: Seq<u8>,
    a: AppV,
    ctrl: bool,
    shift: bool,
    h: int,
    screen: Area,
)
    requires
        at_rest(a),
    ensures
        ({
            let w = key_processed(b, a, KeyCode::Home, ctrl, shift, h, screen);
            let v = active_pane(w.0);
            &&& w == key_processed(b, a, KeyCode::Char('g'), ctrl, shift, h, screen)
            &&& w.1 == KeyOutcome::Continue
            &&& v.focus == 0
            &&& v.scroll == 0
            &&& w.0 == with_active(
                quiet(a),
                PaneV { focus: v.focus, scroll: v.scroll, ..active_pane(a) },
            )
        }),
{
    reveal(command_done);
}

/// The characters that are a command whether or not Ctrl is held.
pub open spec fn plain_commands() -> Seq<char> {
    seq![
        'y', 'Y', 'p', 'c', '#', 't', ':', '|', 'm', '?', '\'', 'q', 'x', 's', 'o', '\\', '+',
        '=', '-', '_', '/', 'j', 'k', 'J', 'K', 'g', ' ',
    ]
}

/// The letters that page are commands only with Ctrl, and no other command asks for Ctrl. A
/// key that is no command does nothing.
pub proof fn law_what_is_no_command(
    b: Seq<u8>,
    a: AppV,
    code: KeyCode,
    ctrl: bool,
    shift: bool,
    h: int,
    screen: Area,
)
    requires
        at_rest(a),
    ensures
        ({
            let pages = code == KeyCode::Char('f') || code == KeyCode::Char('b') || code
                == KeyCode::Char('d') || code == KeyCode::Char('u');
            let idle = match code {
                KeyCode::Char(c) => !plain_commands().contains(c) && !(pages && ctrl),
                KeyCode::End | KeyCode::Backspace | KeyCode::Delete | KeyCode::Other => true,
                _ => false,
            };
            let w = key_processed(b, a, code, ctrl, shift, h, screen);
            &&& idle ==> w == (quiet(a), KeyOutcome::Continue)
            &&& !pages ==> w == key_processed(b, a, code, !ctrl, shift, h, screen)
        }),
{
    reveal(command_done);
    if let KeyCode::Char(c) = code {
        let s = plain_commands();
        if !s.contains(c) {
            assert forall|i: int| 0 <= i < 27 implies s[i] != c by {
                assert(s.contains(s[i]));
            }
            assert(s[0] == 'y' && s[1] == 'Y' && s[2] == 'p' && s[3] == 'c' && s[4] == '#');
            assert(s[5] == 't' && s[6] == ':' && s[7] == '|' && s[8] == 'm' && s[9] == '?');
            assert(s[10] == '\'' && s[11] == 'q' && s[12] == 'x' && s[13] == 's' && s[14] == 'o');
            assert(s[15] == '\\' && s[16] == '+' && s[17] == '=' && s[18] == '-' && s[19] == '_');
            assert(s[20] == '/' && s[21] == 'j' && s[22] == 'k' && s[23] == 'J' && s[24] == 'K');
            assert(s[25] == 'g' && s[26] == ' ');
        }
    }
}

/// Any key closes the help again, and leaves the rest as it was.
pub proof fn law_help_closes_again(
    b: Seq<u8>,
    a: AppV,
    code: KeyCode,
    ctrl: bool,
    shift: bool,
    h: int,
    screen: Area,
)
    requires
        at_rest(a),
    ensures
        ({
            let help = key_processed(b, a, KeyCode::Char('?'), ctrl, shift, h, screen).0;
            &&& active_pane(help).mode == Mode::Help
            &&& key_processed(b, help, code, ctrl, shift, h, screen) == (
                quiet(a),
                KeyOutcome::Continue,
            )
        }),
{
    reveal(command_done);
    let help = key_processed(b, a, KeyCode::Char('?'), ctrl, shift, h, screen).0;
    let w = key_processed(b, help, code, ctrl, shift, h, screen).0;
    assert(w.views =~= a.views);
}

/// Tab gives the keys to the next pane, and to the first behind the last; BackTab gives them
/// back. A backslash lays the panes out the other way, and a second one as before.
pub proof fn law_going_round_the_panes(
    b: Seq<u8>,
    a: AppV,
    ctrl: bool,
    shift: bool,
    h: int,
    screen: Area,
)
    requires
        0 <= a.active < a.views.len(),
        forall|i: int| 0 <= i < a.views.len() ==> (#[trigger] a.views[i]).mode == Mode::Normal,
    ensures
        ({
            let tab = key_processed(b, a, KeyCode::Tab, ctrl, shift, h, screen).0;
            let other = key_processed(b, a, KeyCode::Char('\\'), ctrl, shift, h, screen).0;
            &&& tab.views == a.views
            &&& tab.active == (if a.active == a.views.len() - 1 {
                0
            } else {
                a.active + 1
            })
            &&& key_processed(b, tab, KeyCode::BackTab, ctrl, shift, h, screen).0 == quiet(a)
            &&& other.stacked != a.stacked
            &&& other == (AppV { stacked: other.stacked, ..quiet(a) })
            &&& key_processed(b, other, KeyCode::Char('\\'), ctrl, shift, h, screen).0 == quiet(a)
        }),
{
    reveal(command_done);
    let n = a.views.len() as int;
    law_next_and_previous(a.active, n);
    let tab = key_processed(b, a, KeyCode::Tab, ctrl, shift, h, screen).0;
    law_next_and_previous(tab.active, n);
}

/// `q` and Esc close the active pane, and quit only where none would be left; `x` closes it
/// too and never quits. A workspace with a single pane stays as it is.
pub proof fn law_closing_keys(
    b: Seq<u8>,
    a: AppV,
    ctrl: bool,
    shift: bool,
    h: int,
    screen: Area,
)
    requires
        at_rest(a),
    ensures
        ({
            let q = key_processed(b, a, KeyCode::Char('q'), ctrl, shift, h, screen);
            let x = key_processed(b, a, KeyCode::Char('x'), ctrl, shift, h, screen);
            &&& q == key_processed(b, a, KeyCode::Esc, ctrl, shift, h, screen)
            &&& q.0 == x.0
            &&& x.1 == KeyOutcome::Continue
            &&& q.1 == KeyOutcome::Quit || q.1 == KeyOutcome::Continue
            &&& q.1 == KeyOutcome::Quit ==> q.0 == quiet(a)
            &&& q.1 == KeyOutcome::Continue <==> closed_active(a).1
            &&& a.views.len() == 1 ==> q == (quiet(a), KeyOutcome::Quit)
        }),
{
    reveal(command_done);
    assert(closed_active(quiet(a)).0 == quiet(closed_active(a).0));
    if a.views.len() == 1 {
        law_last_pane_stays(a);
    }
}

/// A search starts with an empty line, on the whole document, and with the container in
/// focus, if it is one, to narrow it to; the path prompt starts with an empty line, and so
/// does that for filters.
pub proof fn law_prompts_start_empty(
    b: Seq<u8>,
    a: AppV,
    ctrl: bool,
    shift: bool,
    h: int,
    screen: Area,
)
    requires
        at_rest(a),
    ensures
        ({
            let (s, out) = key_processed(b, a, KeyCode::Char('/'), ctrl, shift, h, screen);
            let g = key_processed(b, a, KeyCode::Char(':'), ctrl, shift, h, screen).0;
            let f = key_processed(b, a, KeyCode::Char('|'), ctrl, shift, h, screen).0;
            &&& out == KeyOutcome::Relaunch
            &&& active_pane(s).mode == Mode::Search
            &&& active_pane(s).query.before.len() == 0
            &&& active_pane(s).query.after.len() == 0
            &&& !active_pane(s).scoped
            &&& active_pane(s).search_scope is Some <==> (focus_node(active_pane(a)) matches Some(n)
                && (n.jsonl || n.kind.is_container()))
            &&& active_pane(s).search_scope matches Some(x) ==> {
                let n = focus_node(active_pane(a))->0;
                x.start == n.start && x.end == n.end && x.kind == n.kind && x.jsonl == n.jsonl
                    && x.path == active_pane(a).rows[active_pane(a).focus].path
            }
            &&& active_pane(g).mode == Mode::Goto
            &&& active_pane(g).goto.before.len() == 0
            &&& active_pane(g).goto.after.len() == 0
            &&& active_pane(f).mode == Mode::Filter
            &&& active_pane(f).filter_query.before.len() == 0
            &&& active_pane(f).filter_query.after.len() == 0
        }),
{
    reveal(command_done);
    reveal(focus_scope);
}

// ---------------------------------------------------------------------------
// What is handed on
// ---------------------------------------------------------------------------
/// What `p` hands on: on a pane of filter hits all of them, in their order; elsewhere the
/// range of the node in focus. It quits exactly where there is something to hand on and
/// somewhere to hand it, and changes nothing but that and the status line.
pub proof fn law_what_is_handed_on(
    b: Seq<u8>,
    a: AppV,
    ctrl: bool,
    shift: bool,
    h: int,
    screen: Area,
)
    requires
        at_rest(a),
    ensures
        ({
            let (w, out) = key_processed(b, a, KeyCode::Char('p'), ctrl, shift, h, screen);
            let v = active_pane(a);
            &&& out == KeyOutcome::Quit <==> a.can_extract && match v.filter {
                Some(f) => f.hits.len() > 0,
                None => focus_node(v) is Some,
            }
            &&& out == KeyOutcome::Quit || out == KeyOutcome::Continue
            &&& out == KeyOutcome::Continue ==> w == (AppV { flash: w.flash, ..a }) && w.flash
                is Some
            &&& out == KeyOutcome::Quit ==> match v.filter {
                Some(f) => {
                    &&& w.extract_batch matches Some(r) && r.len() == f.hits.len() && forall|i: int|
                        0 <= i < r.len() ==> (#[trigger] r[i]).0 == f.hits[i].start as usize
                            && r[i].1 == f.hits[i].end as usize
                    &&& w == (AppV { extract_batch: w.extract_batch, ..quiet(a) })
                },
                None => {
                    let n = focus_node(v)->0;
                    &&& w.extract == Some((n.start as usize, n.end as usize))
                    &&& w == (AppV { extract: w.extract, ..quiet(a) })
                },
            }
        }),
{
    reveal(command_done);
    reveal(extracted);
}

/// `c` says how many children the node in focus has: on the root of a result pane those that
/// it has been given, and elsewhere those that are in the document; elements of an array,
/// entries of an object. Nothing else changes.
pub proof fn law_what_is_counted(
    b: Seq<u8>,
    a: AppV,
    ctrl: bool,
    shift: bool,
    h: int,
    screen: Area,
)
    requires
        at_rest(a),
    ensures
        ({
            let w = key_processed(b, a, KeyCode::Char('c'), ctrl, shift, h, screen).0;
            let v = active_pane(a);
            let label = v.rows[v.focus].label;
            let given = v.filter is Some && v.rows[v.focus].path.len() == 0;
            &&& w == (AppV { flash: w.flash, ..a })
            &&& focus_node(v) is None ==> w.flash is None
            &&& focus_node(v) matches Some(n) ==> {
                let count = if given {
                    n.children.len()
                } else {
                    children_from(b, fresh_cursor(n).level).len()
                };
                &&& n.kind is Array ==> w.flash == Some(
                    label + seq![':', ' '] + grouped(count) + " elements"@,
                )
                &&& n.kind is Object ==> w.flash == Some(
                    label + seq![':', ' '] + grouped(count) + " entries"@,
                )
                &&& !n.kind.is_container() ==> w.flash == Some(label + ": not a container"@)
            }
        }),
{
    reveal(command_done);
    reveal(counted);
    reveal_strlit(": ");
    assert(": "@ =~= seq![':', ' ']);
    let v = active_pane(a);
    if focus_node(v) is Some {
        let p = v.rows[v.focus].path;
        assert(p.len() == 0 <==> p =~= Seq::<usize>::empty());
    }
}

/// Enter, Space and Right open a closed container and close an open one; on a leaf they show
/// its value, and Esc or another Enter puts that away.
pub proof fn law_enter_and_back(
    b: Seq<u8>,
    a: AppV,
    ctrl: bool,
    shift: bool,
    h: int,
    screen: Area,
)
    requires
        at_rest(a),
        0 <= active_pane(a).focus < active_pane(a).rows.len(),
        !active_pane(a).rows[active_pane(a).focus].kind.is_container(),
        active_pane(a).peek is None,
    ensures
        ({
            let w = key_processed(b, a, KeyCode::Enter, ctrl, shift, h, screen).0;
            &&& w == key_processed(b, a, KeyCode::Char(' '), ctrl, shift, h, screen).0
            &&& w == key_processed(b, a, KeyCode::Right, ctrl, shift, h, screen).0
            &&& active_pane(w).mode == Mode::Peek
            &&& active_pane(w).peek is Some
            &&& active_pane(w).peek->0.title == active_pane(a).rows[active_pane(a).focus].label
            &&& active_pane(w).peek->0.scroll == 0
            &&& key_processed(b, w, KeyCode::Enter, ctrl, shift, h, screen).0 == quiet(a)
            &&& key_processed(b, w, KeyCode::Esc, ctrl, shift, h, screen).0 == quiet(a)
            &&& key_processed(b, w, KeyCode::Char('q'), ctrl, shift, h, screen).0 == quiet(a)
        }),
{
    reveal(command_done);
    reveal(peeked);
    let w = key_processed(b, a, KeyCode::Enter, ctrl, shift, h, screen).0;
    assert(key_processed(b, w, KeyCode::Enter, ctrl, shift, h, screen).0.views =~= a.views);
    assert(key_processed(b, w, KeyCode::Esc, ctrl, shift, h, screen).0.views =~= a.views);
    assert(key_processed(b, w, KeyCode::Char('q'), ctrl, shift, h, screen).0.views =~= a.views);
}

/// What is shown of a leaf: of a string the text that it stands for, and of anything else the
/// bytes as they are. Only what is larger than eight mebibytes is cut off, and then said to
/// be.
pub proof fn law_what_is_peeked_at(b: Seq<u8>, n: NodeV, title: Seq<char>)
    requires
        0 <= n.start <= n.end <= b.len(),
    ensures
        ({
            let p = peek_of(b, n, title);
            let all = n.end - n.start <= 0x80_0000;
            &&& p.title == title
            &&& p.scroll == 0
            &&& p.truncated == !all
            &&& all && n.kind is Str ==> p.text == decoded(b, n.start, n.end)
            &&& all && !(n.kind is Str) ==> p.text == text_of(b.subrange(n.start, n.end))
        }),
{
}

/// `t` on a container shows its type, and `t`, `q`, Enter or Esc puts that away; `y` copies it
/// and leaves it open. On anything else `t` changes nothing but the status line.
pub proof fn law_the_type_and_back(
    b: Seq<u8>,
    a: AppV,
    ctrl: bool,
    shift: bool,
    h: int,
    screen: Area,
)
    requires
        at_rest(a),
        active_pane(a).schema is None,
    ensures
        ({
            let w = key_processed(b, a, KeyCode::Char('t'), ctrl, shift, h, screen).0;
            let shown = focus_node(active_pane(a)) matches Some(n) && n.kind.is_container();
            let y = key_processed(b, w, KeyCode::Char('y'), ctrl, shift, h, screen).0;
            &&& !shown ==> w == (AppV { flash: w.flash, ..a })
            &&& shown ==> {
                &&& active_pane(w).mode == Mode::Schema
                &&& active_pane(w).schema is Some
                &&& active_pane(w).schema->0.scroll == 0
                &&& key_processed(b, w, KeyCode::Char('t'), ctrl, shift, h, screen).0 == quiet(a)
                &&& key_processed(b, w, KeyCode::Char('q'), ctrl, shift, h, screen).0 == quiet(a)
                &&& key_processed(b, w, KeyCode::Enter, ctrl, shift, h, screen).0 == quiet(a)
                &&& key_processed(b, w, KeyCode::Esc, ctrl, shift, h, screen).0 == quiet(a)
                &&& y.clipboard == Some(encode_utf8(active_pane(w).schema->0.source))
                &&& y == (AppV { clipboard: y.clipboard, flash: y.flash, ..w })
            }
        }),
{
    reveal(command_done);
    reveal(schema_opened);
    let w = key_processed(b, a, KeyCode::Char('t'), ctrl, shift, h, screen).0;
    if active_pane(w).mode == Mode::Schema {
        let t = key_processed(b, w, KeyCode::Char('t'), ctrl, shift, h, screen).0;
        assert(t.views =~= a.views);
    }
}

// ---------------------------------------------------------------------------
// The prompts
// ---------------------------------------------------------------------------
/// Enter on a path closes the prompt and goes to the node that the path names, where it names
/// one: the way to it is opened, and the focus is to come to it. Otherwise the focus stays.
/// Esc closes the prompt and leaves the rest, the history included. No other pane changes.
pub proof fn law_the_path_prompt(b: Seq<u8>, a: AppV, ctrl: bool)
    requires
        0 <= a.active < a.views.len(),
        active_pane(a).mode == Mode::Goto,
    ensures
        ({
            let v = active_pane(a);
            let e = goto_key(b, a, KeyCode::Enter, ctrl);
            let w = active_pane(e);
            let q = goto_key(b, a, KeyCode::Esc, ctrl);
            let from = match focus_path(v) {
                Some(p) => p,
                None => Seq::empty(),
            };
            let (up, segs) = parsed_path(whole(v.goto));
            let (root, found) = resolved_climbing(b, v.root, from, up, segs);
            let blank = up is None && segs.len() == 0;
            &&& w.mode == Mode::Normal
            &&& whole(w.goto).len() == 0
            &&& e.flash is Some
            &&& e.active == a.active
            &&& e.views.len() == a.views.len()
            &&& forall|i: int|
                0 <= i < a.views.len() && i != a.active ==> #[trigger] e.views[i] == a.views[i]
            &&& w.rows == v.rows && w.focus == v.focus && w.scroll == v.scroll
            &&& blank ==> w.root == v.root && w.want_path == v.want_path
            &&& !blank && found is None ==> w.root == root && w.want_path == v.want_path
            &&& !blank && found is Some ==> w.root == expanded_to(b, root, found->0) && w.want_path
                == found
            &&& q == with_active(a, PaneV { mode: Mode::Normal, goto: active_pane(q).goto, ..v })
            &&& whole(active_pane(q).goto).len() == 0
        }),
{
    reveal(goto_key);
    reveal(path_submitted);
    reveal(gone_to);
    reveal(jumped);
}

/// Enter on a filter that reads as a program asks for it to be run, over the whole of the pane
/// that it was typed in, and closes the prompt; on one that does not, it says why and leaves
/// the line to be mended, and an edit takes that back; on a blank line it only closes the
/// prompt.
pub proof fn law_the_filter_prompt(a: AppV, ctrl: bool, c: char)
    requires
        0 <= a.active < a.views.len(),
        active_pane(a).mode == Mode::Filter,
    ensures
        ({
            let v = active_pane(a);
            let expr = trimmed(whole(v.filter_query));
            let (e, out) = filter_key(a, KeyCode::Enter, ctrl);
            let w = active_pane(e);
            let t = active_pane(filter_key(a, KeyCode::Char(c), false).0);
            let q = active_pane(filter_key(a, KeyCode::Esc, ctrl).0);
            &&& out == KeyOutcome::LaunchFilter <==> expr.len() > 0 && pipeline(expr) is Ok
            &&& out == KeyOutcome::LaunchFilter || out == KeyOutcome::Continue
            &&& out == KeyOutcome::LaunchFilter ==> {
                &&& w.mode == Mode::Normal
                &&& e.pending_filter matches Some(p) && p.program == pipeline(expr)->Ok_0 && p.expr
                    == expr && p.start == v.root.start && p.end == v.root.end && p.kind
                    == v.root.kind && p.jsonl == v.root.jsonl
            }
            &&& out == KeyOutcome::Continue ==> e.pending_filter == a.pending_filter
                && e.filter_history == a.filter_history
            &&& expr.len() > 0 && pipeline(expr) is Err ==> w == (PaneV {
                filter_error: Some(pipeline(expr)->Err_0),
                ..v
            })
            &&& expr.len() == 0 ==> w.mode == Mode::Normal && w.filter_error is None
            &&& t.filter_error is None
            &&& t.filter_query.before == v.filter_query.before.push(c)
            &&& t.filter_query.after == v.filter_query.after
            &&& q.mode == Mode::Normal && q.filter_error is None && whole(q.filter_query).len() == 0
        }),
{
    reveal(filter_key);
    reveal(filter_submitted);
    law_editing_keys(active_pane(a).filter_query, c);
}

/// Up and Down put the older and the newer entry of the history on the line, with the caret
/// behind it, and leave the line where there is none.
pub proof fn law_recalling(b: Seq<u8>, a: AppV, ctrl: bool)
    requires
        0 <= a.active < a.views.len(),
    ensures
        ({
            let v = active_pane(a);
            let gu = active_pane(goto_key(b, a, KeyCode::Up, ctrl)).goto;
            let gd = active_pane(goto_key(b, a, KeyCode::Down, ctrl)).goto;
            let fu = active_pane(filter_key(a, KeyCode::Up, ctrl).0).filter_query;
            let fd = active_pane(filter_key(a, KeyCode::Down, ctrl).0).filter_query;
            &&& on_the_line(v.goto, older_line(a.goto_history), gu)
            &&& on_the_line(v.goto, newer_line(a.goto_history), gd)
            &&& on_the_line(v.filter_query, older_line(a.filter_history), fu)
            &&& on_the_line(v.filter_query, newer_line(a.filter_history), fd)
        }),
{
    reveal(goto_key);
    reveal(filter_key);
    reveal(older_path_recalled);
    reveal(newer_path_recalled);
    reveal(older_filter_recalled);
    reveal(newer_filter_recalled);
    if let Some(s) = older_line(a.goto_history) {
        assert(s + Seq::<char>::empty() =~= s);
    }
    if let Some(s) = newer_line(a.goto_history) {
        assert(s + Seq::<char>::empty() =~= s);
    }
    if let Some(s) = older_line(a.filter_history) {
        assert(s + Seq::<char>::empty() =~= s);
    }
    if let Some(s) = newer_line(a.filter_history) {
        assert(s + Seq::<char>::empty() =~= s);
    }
}

/// A line with an entry put on it, if there is one.
pub open spec fn on_the_line(before: InputV, entry: Option<Seq<char>>, line: InputV) -> bool {
    match entry {
        Some(s) => whole(line) == s && line.after.len() == 0,
        None => line == before,
    }
}

// ---------------------------------------------------------------------------
// The search prompt, the picker and the overlays
// ---------------------------------------------------------------------------
/// Tab and BackTab flip the scope of a search that has one and search anew; a second press
/// flips it back. On a search without one they do nothing.
pub proof fn law_flipping_the_scope(b: Seq<u8>, v: PaneV, ctrl: bool, shift: bool)
    ensures
        ({
            let (w, out) = search_key(b, v, KeyCode::Tab, ctrl, shift);
            &&& (w, out) == search_key(b, v, KeyCode::BackTab, ctrl, shift)
            &&& out == KeyOutcome::Relaunch <==> v.search_scope is Some
            &&& w.scoped != v.scoped <==> v.search_scope is Some
            &&& w == (PaneV { scoped: w.scoped, ..v })
            &&& search_key(b, w, KeyCode::Tab, ctrl, shift).0 == v
        }),
{
}

/// A character typed into the search prompt stands in front of the caret and starts the
/// search anew; moving the caret leaves the text, and the search, as they are.
pub proof fn law_typing_searches_anew(b: Seq<u8>, v: PaneV, c: char, shift: bool)
    ensures
        search_key(b, v, KeyCode::Char(c), false, shift) == (
            PaneV {
                query: InputV { before: v.query.before.push(c), after: v.query.after },
                ..v
            },
            KeyOutcome::Relaunch,
        ),
        forall|code: KeyCode|
            code is Left || code is Right || code is Home || code is End ==> {
                let (w, out) = #[trigger] search_key(b, v, code, false, shift);
                out == KeyOutcome::Continue && whole(w.query) == whole(v.query)
            },
        search_key(b, v, KeyCode::Esc, false, shift).0.mode == Mode::Normal,
        search_key(b, v, KeyCode::Esc, false, shift).0.search is None,
{
    let l = v.query;
    assert(whole(edited(l, EditV::Insert(c))) =~= l.before + seq![c] + l.after);
    assert forall|code: KeyCode|
        code is Left || code is Right || code is Home || code is End implies ({
        let (w, out) = #[trigger] search_key(b, v, code, false, shift);
        out == KeyOutcome::Continue && whole(w.query) == whole(v.query)
    }) by {
        let w = search_key(b, v, code, false, shift).0;
        assert(whole(w.query) =~= whole(v.query));
    }
}

/// Scrolling an overlay stays between its first line and the last that may stand on top: a
/// line down and a line up undo each other, and so do a page down and a page up, unless the
/// one or the other end stops them. Home and End go to the ends.
pub proof fn law_scrolling_an_overlay(scroll: int, max: int, page: int, ctrl: bool)
    requires
        0 <= scroll <= max,
        0 <= page,
    ensures
        scrolled_to(scroll, max, page, KeyCode::Down, ctrl) == Some(if scroll == max {
            max
        } else {
            scroll + 1
        }),
        scroll < max ==> scrolled_to(scroll + 1, max, page, KeyCode::Up, ctrl) == Some(scroll),
        scrolled_to(0, max, page, KeyCode::Up, ctrl) == Some(0int),
        scroll + page <= max ==> scrolled_to(scroll, max, page, KeyCode::PageDown, ctrl) == Some(
            scroll + page,
        ) && scrolled_to(scroll + page, max, page, KeyCode::PageUp, ctrl) == Some(scroll),
        scroll + page > max ==> scrolled_to(scroll, max, page, KeyCode::PageDown, ctrl) == Some(
            max,
        ),
        scroll < page ==> scrolled_to(scroll, max, page, KeyCode::PageUp, ctrl) == Some(0int),
        scrolled_to(scroll, max, page, KeyCode::Home, ctrl) == Some(0int),
        scrolled_to(scroll, max, page, KeyCode::End, ctrl) == Some(max),
        forall|code: KeyCode| #[trigger]
            scrolled_to(scroll, max, page, code, ctrl) matches Some(s) ==> 0 <= s <= max,
{
}

/// The letters of an overlay do what keys of their own do: `j` and `k` a line, Space, Ctrl-f
/// and Ctrl-b a page, `g` and `G` the ends. No other character scrolls.
pub proof fn law_letters_that_scroll(scroll: int, max: int, page: int, c: char, ctrl: bool)
    ensures
        ({
            let at = |code: KeyCode, ctrl: bool| scrolled_to(scroll, max, page, code, ctrl);
            &&& at(KeyCode::Char('j'), ctrl) == at(KeyCode::Down, ctrl)
            &&& at(KeyCode::Char('k'), ctrl) == at(KeyCode::Up, ctrl)
            &&& at(KeyCode::Char(' '), ctrl) == at(KeyCode::PageDown, ctrl)
            &&& at(KeyCode::Char('f'), true) == at(KeyCode::PageDown, true)
            &&& at(KeyCode::Char('b'), true) == at(KeyCode::PageUp, true)
            &&& at(KeyCode::Char('g'), ctrl) == at(KeyCode::Home, ctrl)
            &&& at(KeyCode::Char('G'), ctrl) == at(KeyCode::End, ctrl)
            &&& at(KeyCode::Char(c), ctrl) is Some ==> c == 'j' || c == 'k' || c == ' ' || c == 'g'
                || c == 'G' || (ctrl && (c == 'f' || c == 'b'))
        }),
{
}

/// The bookmark picker goes round the bookmarks, down and up undoing each other. `d` takes
/// the picked one out and leaves the others in their order, with one of them picked as long
/// as there is one; with the last of them the picker closes.
pub proof fn law_the_bookmark_picker(b: Seq<u8>, v: PaneV)
    requires
        0 <= v.mark_idx < v.bookmarks.len(),
    ensures
        ({
            let n = v.bookmarks.len() as int;
            let down = marks_key(b, v, KeyCode::Down);
            let gone = marks_key(b, v, KeyCode::Char('d'));
            &&& down == (PaneV { mark_idx: down.mark_idx, ..v })
            &&& down.mark_idx == (if v.mark_idx == n - 1 {
                0
            } else {
                v.mark_idx + 1
            })
            &&& marks_key(b, down, KeyCode::Up) == v
            &&& marks_key(b, v, KeyCode::Char('j')) == down
            &&& marks_key(b, v, KeyCode::Char('k')) == marks_key(b, v, KeyCode::Up)
            &&& gone.bookmarks.len() == n - 1
            &&& forall|i: int|
                0 <= i < n - 1 ==> #[trigger] gone.bookmarks[i] == v.bookmarks[if i < v.mark_idx {
                    i
                } else {
                    i + 1
                }]
            &&& n > 1 ==> 0 <= gone.mark_idx < n - 1 && gone.mode == v.mode
            &&& n == 1 ==> gone.mode == Mode::Normal
            &&& forall|code: KeyCode|
                code is Esc || code == KeyCode::Char('q') || code == KeyCode::Char('\'')
                    ==> #[trigger] marks_key(b, v, code) == (PaneV { mode: Mode::Normal, ..v })
        }),
{
    let n = v.bookmarks.len() as int;
    law_next_and_previous(v.mark_idx, n);
    let down = marks_key(b, v, KeyCode::Down);
    law_next_and_previous(down.mark_idx, n);
}

// ---------------------------------------------------------------------------
// The run loop
// ---------------------------------------------------------------------------
/// Of a burst of keys the last request counts, however the burst is cut.
pub proof fn law_the_last_request_counts(x: KeyOutcome, y: KeyOutcome, z: KeyOutcome)
    ensures
        coalesced(x, KeyOutcome::Continue) == x,
        coalesced(KeyOutcome::Continue, x) == x,
        y != KeyOutcome::Continue ==> coalesced(x, y) == y,
        coalesced(coalesced(x, y), z) == coalesced(x, coalesced(y, z)),
{
}

/// A notch of the wheel moves the focus of the pane under the pointer by three rows, up no
/// further than to the first, and touches no other pane; over no pane it does nothing.
pub proof fn law_the_wheel(a: AppV, rects: Seq<Area>, col: u16, row: u16, down: bool, k: int)
    requires
        0 <= k < a.views.len(),
        0 <= a.views[k].focus,
        a.views[k].focus + 3 <= usize::MAX,
    ensures
        ({
            let w = wheeled(a, rects, col, row, down);
            let f = a.views[k].focus;
            let under = pane_of_cell(rects, a.views.len() as int, 0, col, row) == Some(k);
            &&& w.active == a.active
            &&& w.views.len() == a.views.len()
            &&& !under ==> w.views[k] == a.views[k]
            &&& under ==> w.views[k] == (PaneV { focus: w.views[k].focus, ..a.views[k] })
            &&& under && down ==> w.views[k].focus == f + 3
            &&& under && !down && f >= 3 ==> w.views[k].focus == f - 3
            &&& under && !down && f < 3 ==> w.views[k].focus == 0
        }),
{
    law_the_pane_under_a_cell(rects, a.views.len() as int, 0, col, row);
}

} // verus!
