//! What a key does in the path prompt and in the filter prompt.

use crate::input::{
    after_key, edit_of, newer_line, older_line, recorded, stepped_back, stepped_forward, whole,
    InputV, KeyCode,
};
use crate::keys::KeyOutcome;
use crate::pane::{empty_line, gone_to, lemma_pane_tree, opt_text, Mode, Pane, PaneV};
use crate::program::{parse_pipeline, pipeline};
use crate::session::{
    active_pane, lemma_active_twice, lemma_pane_changed, lemma_panes_at, with_active, App, AppV,
    PendingFilter, PendingV,
};
use crate::text::{trim, trimmed};
use vstd::prelude::*;
use vstd::utf8::*;

verus! {

// ---------------------------------------------------------------------------
// The path prompt
// ---------------------------------------------------------------------------
/// A line recalled into a prompt, with the caret at its end.
pub open spec fn recalled(line: InputV, s: Option<Seq<char>>) -> InputV {
    match s {
        Some(s) => InputV { before: s, after: Seq::empty() },
        None => line,
    }
}

/// The path in the prompt jumped to and remembered, and the prompt closed.
#[verifier::opaque]
pub open spec fn path_submitted(b: Seq<u8>, a: AppV) -> AppV {
    let v = active_pane(a);
    let (w, msg) = gone_to(b, v);
    AppV {
        flash: Some(msg),
        goto_history: recorded(a.goto_history, whole(v.goto)),
        ..with_active(a, PaneV { mode: Mode::Normal, goto: empty_line(), ..w })
    }
}

#[verifier::opaque]
pub open spec fn older_path_recalled(a: AppV) -> AppV {
    let v = active_pane(a);
    AppV {
        goto_history: stepped_back(a.goto_history, whole(v.goto)),
        ..with_active(a, PaneV { goto: recalled(v.goto, older_line(a.goto_history)), ..v })
    }
}

#[verifier::opaque]
pub open spec fn newer_path_recalled(a: AppV) -> AppV {
    let v = active_pane(a);
    AppV {
        goto_history: stepped_forward(a.goto_history),
        ..with_active(a, PaneV { goto: recalled(v.goto, newer_line(a.goto_history)), ..v })
    }
}

/// The path prompt: Enter jumps to the path and remembers it, Esc cancels, Up and
/// Down walk the paths submitted before, and other keys edit the line.
#[verifier::opaque]
pub open spec fn goto_key(b: Seq<u8>, a: AppV, code: KeyCode, ctrl: bool) -> AppV {
    let v = active_pane(a);
    match code {
        KeyCode::Esc => with_active(a, PaneV { mode: Mode::Normal, goto: empty_line(), ..v }),
        KeyCode::Enter => path_submitted(b, a),
        KeyCode::Up => older_path_recalled(a),
        KeyCode::Down => newer_path_recalled(a),
        _ => with_active(a, PaneV { goto: after_key(v.goto, code, ctrl), ..v }),
    }
}

fn close_goto(app: &mut App, Ghost(b): Ghost<Seq<u8>>)
    requires
        old(app).wf(b),
        old(app).drawn(b),
    ensures
        final(app).wf(b),
        final(app).drawn(b),
        final(app).model(b) == ({
            let a = old(app).model(b);
            with_active(
                a,
                PaneV { mode: Mode::Normal, goto: empty_line(), ..active_pane(a) },
            )
        }),
{
    let ghost views = app.views@;
    proof {
        lemma_panes_at(views, b, app.active as int);
    }
    let v = app.active_mut();
    v.mode = Mode::Normal;
    v.goto.clear();
    proof {
        let i = app.active as int;
        lemma_pane_changed(views, b, app.next_id as int, i, app.views@[i]);
    }
}

/// Put a line into the path prompt, where there is one to put.
fn recall_goto(app: &mut App, line: Option<String>, Ghost(b): Ghost<Seq<u8>>)
    requires
        old(app).wf(b),
        old(app).drawn(b),
    ensures
        final(app).wf(b),
        final(app).drawn(b),
        final(app).model(b) == ({
            let a = old(app).model(b);
            let v = active_pane(a);
            with_active(a, PaneV { goto: recalled(v.goto, opt_text(line)), ..v })
        }),
{
    let ghost views = app.views@;
    proof {
        lemma_panes_at(views, b, app.active as int);
        lemma_active_twice(app.model(b), active_pane(app.model(b)), active_pane(app.model(b)));
    }
    if let Some(s) = line {
        let v = app.active_mut();
        v.goto.set(s);
        proof {
            let i = app.active as int;
            lemma_pane_changed(views, b, app.next_id as int, i, app.views@[i]);
        }
    }
}

fn edit_goto(app: &mut App, code: KeyCode, ctrl: bool, Ghost(b): Ghost<Seq<u8>>)
    requires
        old(app).wf(b),
        old(app).drawn(b),
    ensures
        final(app).wf(b),
        final(app).drawn(b),
        final(app).model(b) == ({
            let a = old(app).model(b);
            let v = active_pane(a);
            with_active(a, PaneV { goto: after_key(v.goto, code, ctrl), ..v })
        }),
{
    let ghost views = app.views@;
    proof {
        lemma_panes_at(views, b, app.active as int);
    }
    let v = app.active_mut();
    v.goto.edit(code, ctrl);
    proof {
        let i = app.active as int;
        lemma_pane_changed(views, b, app.next_id as int, i, app.views@[i]);
    }
}

fn visit_path(app: &mut App, b: &[u8])
    requires
        old(app).wf(b@),
        old(app).drawn(b@),
    ensures
        final(app).wf(b@),
        final(app).drawn(b@),
        final(app).model(b@) == ({
            let a = old(app).model(b@);
            let (w, msg) = gone_to(b@, active_pane(a));
            AppV { flash: Some(msg), ..with_active(a, w) }
        }),
{
    let ghost views = app.views@;
    proof {
        lemma_panes_at(views, b@, app.active as int);
    }
    let v = app.active_mut();
    let msg = v.goto_path(b);
    proof {
        let i = app.active as int;
        lemma_pane_changed(views, b@, app.next_id as int, i, app.views@[i]);
    }
    app.flash = Some(msg);
}

fn submit_path(app: &mut App, b: &[u8])
    requires
        old(app).wf(b@),
        old(app).drawn(b@),
    ensures
        final(app).wf(b@),
        final(app).drawn(b@),
        final(app).model(b@) == path_submitted(b@, old(app).model(b@)),
{
    let ghost a = app.model(b@);
    proof {
        reveal(path_submitted);
        lemma_panes_at(app.views@, b@, app.active as int);
        let w = gone_to(b@, active_pane(a)).0;
        lemma_active_twice(a, w, PaneV { mode: Mode::Normal, goto: empty_line(), ..w });
    }
    let line = app.active_view().goto.as_str().to_owned();
    app.goto_history.record(line.as_str());
    visit_path(app, b);
    close_goto(app, Ghost(b@));
}

fn recall_older_path(app: &mut App, Ghost(b): Ghost<Seq<u8>>)
    requires
        old(app).wf(b),
        old(app).drawn(b),
    ensures
        final(app).wf(b),
        final(app).drawn(b),
        final(app).model(b) == older_path_recalled(old(app).model(b)),
{
    proof {
        reveal(older_path_recalled);
        lemma_panes_at(app.views@, b, app.active as int);
    }
    let line = app.active_view().goto.as_str().to_owned();
    let older = app.goto_history.prev(line.as_str());
    recall_goto(app, older, Ghost(b));
}

fn recall_newer_path(app: &mut App, Ghost(b): Ghost<Seq<u8>>)
    requires
        old(app).wf(b),
        old(app).drawn(b),
    ensures
        final(app).wf(b),
        final(app).drawn(b),
        final(app).model(b) == newer_path_recalled(old(app).model(b)),
{
    proof {
        reveal(newer_path_recalled);
    }
    let newer = app.goto_history.next();
    recall_goto(app, newer, Ghost(b));
}

pub fn on_goto_key(app: &mut App, code: KeyCode, ctrl: bool, b: &[u8])
    requires
        old(app).wf(b@),
        old(app).drawn(b@),
    ensures
        final(app).wf(b@),
        final(app).drawn(b@),
        final(app).model(b@) == goto_key(b@, old(app).model(b@), code, ctrl),
{
    proof {
        reveal(goto_key);
    }
    match code {
        KeyCode::Esc => close_goto(app, Ghost(b@)),
        KeyCode::Enter => submit_path(app, b),
        KeyCode::Up => recall_older_path(app, Ghost(b@)),
        KeyCode::Down => recall_newer_path(app, Ghost(b@)),
        _ => edit_goto(app, code, ctrl, Ghost(b@)),
    }
}

// ---------------------------------------------------------------------------
// The filter prompt
// ---------------------------------------------------------------------------
/// The filter prompt closed without a word.
pub open spec fn filter_cancelled(a: AppV) -> AppV {
    let v = active_pane(a);
    with_active(
        a,
        PaneV { mode: Mode::Normal, filter_query: empty_line(), filter_error: None, ..v },
    )
}

/// The filter in the prompt submitted. A blank line closes the prompt; a filter that
/// does not parse leaves it open, with the reason; one that does is remembered and
/// waits to be launched over the range of the pane.
#[verifier::opaque]
pub open spec fn filter_submitted(a: AppV) -> (AppV, KeyOutcome) {
    let v = active_pane(a);
    let expr = trimmed(whole(v.filter_query));
    if expr.len() == 0 {
        (
            with_active(a, PaneV { mode: Mode::Normal, filter_error: None, ..v }),
            KeyOutcome::Continue,
        )
    } else {
        match pipeline(expr) {
            Ok(program) => (
                AppV {
                    pending_filter: Some(
                        PendingV {
                            program,
                            expr,
                            start: v.root.start,
                            end: v.root.end,
                            kind: v.root.kind,
                            jsonl: v.root.jsonl,
                        },
                    ),
                    filter_history: recorded(a.filter_history, expr),
                    ..filter_cancelled(a)
                },
                KeyOutcome::LaunchFilter,
            ),
            Err(e) => (with_active(a, PaneV { filter_error: Some(e), ..v }), KeyOutcome::Continue),
        }
    }
}

/// A filter recalled into the prompt, where there is one to recall.
pub open spec fn filter_recalled(v: PaneV, s: Option<Seq<char>>) -> PaneV {
    match s {
        Some(_) => PaneV {
            filter_query: recalled(v.filter_query, s),
            filter_error: None,
            ..v
        },
        None => v,
    }
}

#[verifier::opaque]
pub open spec fn older_filter_recalled(a: AppV) -> AppV {
    let v = active_pane(a);
    AppV {
        filter_history: stepped_back(a.filter_history, whole(v.filter_query)),
        ..with_active(a, filter_recalled(v, older_line(a.filter_history)))
    }
}

#[verifier::opaque]
pub open spec fn newer_filter_recalled(a: AppV) -> AppV {
    let v = active_pane(a);
    AppV {
        filter_history: stepped_forward(a.filter_history),
        ..with_active(a, filter_recalled(v, newer_line(a.filter_history)))
    }
}

/// The filter prompt after an editing key, which also takes the reason away.
pub open spec fn filter_edited(v: PaneV, code: KeyCode, ctrl: bool) -> PaneV {
    PaneV {
        filter_query: after_key(v.filter_query, code, ctrl),
        filter_error: if edit_of(code, ctrl) is Some {
            None
        } else {
            v.filter_error
        },
        ..v
    }
}

/// The filter prompt: Enter submits, Esc cancels, Up and Down walk the filters
/// submitted before, and other keys edit the line.
#[verifier::opaque]
pub open spec fn filter_key(a: AppV, code: KeyCode, ctrl: bool) -> (AppV, KeyOutcome) {
    match code {
        KeyCode::Esc => (filter_cancelled(a), KeyOutcome::Continue),
        KeyCode::Enter => filter_submitted(a),
        KeyCode::Up => (older_filter_recalled(a), KeyOutcome::Continue),
        KeyCode::Down => (newer_filter_recalled(a), KeyOutcome::Continue),
        _ => (
            with_active(a, filter_edited(active_pane(a), code, ctrl)),
            KeyOutcome::Continue,
        ),
    }
}

fn empty_filter_prompt(v: &mut Pane, Ghost(b): Ghost<Seq<u8>>)
    requires
        old(v).wf(b),
    ensures
        final(v).wf(b),
        final(v).links() == old(v).links(),
        final(v).rows == old(v).rows,
        final(v).root == old(v).root,
        final(v).model(b) == (PaneV {
            mode: Mode::Normal,
            filter_query: empty_line(),
            filter_error: None,
            ..old(v).model(b)
        }),
{
    v.mode = Mode::Normal;
    v.filter_query.clear();
    v.filter_error = None;
}

fn cancel_filter(app: &mut App, Ghost(b): Ghost<Seq<u8>>)
    requires
        old(app).wf(b),
        old(app).drawn(b),
    ensures
        final(app).wf(b),
        final(app).drawn(b),
        final(app).model(b) == filter_cancelled(old(app).model(b)),
        final(app).filter_history == old(app).filter_history,
{
    let ghost views = app.views@;
    proof {
        lemma_panes_at(views, b, app.active as int);
    }
    empty_filter_prompt(app.active_mut(), Ghost(b));
    proof {
        let i = app.active as int;
        lemma_pane_changed(views, b, app.next_id as int, i, app.views@[i]);
    }
}

fn leave_filter(app: &mut App, Ghost(b): Ghost<Seq<u8>>)
    requires
        old(app).wf(b),
        old(app).drawn(b),
    ensures
        final(app).wf(b),
        final(app).drawn(b),
        final(app).model(b) == ({
            let a = old(app).model(b);
            with_active(a, PaneV { mode: Mode::Normal, filter_error: None, ..active_pane(a) })
        }),
{
    let ghost views = app.views@;
    proof {
        lemma_panes_at(views, b, app.active as int);
    }
    let v = app.active_mut();
    v.mode = Mode::Normal;
    v.filter_error = None;
    proof {
        let i = app.active as int;
        lemma_pane_changed(views, b, app.next_id as int, i, app.views@[i]);
    }
}

fn refuse_filter(app: &mut App, e: String, Ghost(b): Ghost<Seq<u8>>)
    requires
        old(app).wf(b),
        old(app).drawn(b),
    ensures
        final(app).wf(b),
        final(app).drawn(b),
        final(app).model(b) == ({
            let a = old(app).model(b);
            with_active(a, PaneV { filter_error: Some(e@), ..active_pane(a) })
        }),
{
    let ghost views = app.views@;
    proof {
        lemma_panes_at(views, b, app.active as int);
    }
    let v = app.active_mut();
    v.filter_error = Some(e);
    proof {
        let i = app.active as int;
        lemma_pane_changed(views, b, app.next_id as int, i, app.views@[i]);
    }
}

fn submit_filter(app: &mut App, b: &[u8]) -> (r: KeyOutcome)
    requires
        old(app).wf(b@),
        old(app).drawn(b@),
    ensures
        final(app).wf(b@),
        final(app).drawn(b@),
        filter_submitted(old(app).model(b@)) == (final(app).model(b@), r),
{
    let ghost a = app.model(b@);
    proof {
        reveal(filter_submitted);
        lemma_panes_at(app.views@, b@, app.active as int);
    }
    let expr = trim(app.active_view().filter_query.as_str());
    if expr.as_str().unicode_len() == 0 {
        leave_filter(app, Ghost(b@));
        return KeyOutcome::Continue;
    }
    match parse_pipeline(expr.as_str()) {
        Ok(program) => {
            proof {
                lemma_pane_tree(b@, active_pane(a));
            }
            let root = &app.active_view().root;
            assert(root.model(b@) == active_pane(a).root);
            let (start, end, kind, jsonl) = (root.start, root.end, root.kind, root.jsonl);
            app.filter_history.record(expr.as_str());
            cancel_filter(app, Ghost(b@));
            app.pending_filter = Some(PendingFilter { program, expr, start, end, kind, jsonl });
            KeyOutcome::LaunchFilter
        },
        Err(e) => {
            refuse_filter(app, e, Ghost(b@));
            KeyOutcome::Continue
        },
    }
}

/// Put a line into the filter prompt, where there is one to put.
fn recall_filter(app: &mut App, line: Option<String>, Ghost(b): Ghost<Seq<u8>>)
    requires
        old(app).wf(b),
        old(app).drawn(b),
    ensures
        final(app).wf(b),
        final(app).drawn(b),
        final(app).model(b) == ({
            let a = old(app).model(b);
            with_active(a, filter_recalled(active_pane(a), opt_text(line)))
        }),
{
    let ghost views = app.views@;
    proof {
        lemma_panes_at(views, b, app.active as int);
        lemma_active_twice(app.model(b), active_pane(app.model(b)), active_pane(app.model(b)));
    }
    if let Some(s) = line {
        let v = app.active_mut();
        v.filter_query.set(s);
        v.filter_error = None;
        proof {
            let i = app.active as int;
            lemma_pane_changed(views, b, app.next_id as int, i, app.views@[i]);
        }
    }
}

fn recall_older_filter(app: &mut App, Ghost(b): Ghost<Seq<u8>>)
    requires
        old(app).wf(b),
        old(app).drawn(b),
    ensures
        final(app).wf(b),
        final(app).drawn(b),
        final(app).model(b) == older_filter_recalled(old(app).model(b)),
{
    proof {
        reveal(older_filter_recalled);
        lemma_panes_at(app.views@, b, app.active as int);
    }
    let line = app.active_view().filter_query.as_str().to_owned();
    let older = app.filter_history.prev(line.as_str());
    recall_filter(app, older, Ghost(b));
}

fn recall_newer_filter(app: &mut App, Ghost(b): Ghost<Seq<u8>>)
    requires
        old(app).wf(b),
        old(app).drawn(b),
    ensures
        final(app).wf(b),
        final(app).drawn(b),
        final(app).model(b) == newer_filter_recalled(old(app).model(b)),
{
    proof {
        reveal(newer_filter_recalled);
    }
    let newer = app.filter_history.next();
    recall_filter(app, newer, Ghost(b));
}

fn edit_filter_prompt(v: &mut Pane, code: KeyCode, ctrl: bool, Ghost(b): Ghost<Seq<u8>>)
    requires
        old(v).wf(b),
    ensures
        final(v).wf(b),
        final(v).links() == old(v).links(),
        final(v).rows == old(v).rows,
        final(v).root == old(v).root,
        final(v).model(b) == filter_edited(old(v).model(b), code, ctrl),
{
    if v.filter_query.edit(code, ctrl).is_some() {
        v.filter_error = None;
    }
}

fn edit_filter(app: &mut App, code: KeyCode, ctrl: bool, Ghost(b): Ghost<Seq<u8>>)
    requires
        old(app).wf(b),
        old(app).drawn(b),
    ensures
        final(app).wf(b),
        final(app).drawn(b),
        final(app).model(b) == ({
            let a = old(app).model(b);
            with_active(a, filter_edited(active_pane(a), code, ctrl))
        }),
{
    let ghost views = app.views@;
    proof {
        lemma_panes_at(views, b, app.active as int);
    }
    edit_filter_prompt(app.active_mut(), code, ctrl, Ghost(b));
    proof {
        let i = app.active as int;
        lemma_pane_changed(views, b, app.next_id as int, i, app.views@[i]);
    }
}

pub fn on_filter_key(app: &mut App, code: KeyCode, ctrl: bool, b: &[u8]) -> (r: KeyOutcome)
    requires
        old(app).wf(b@),
        old(app).drawn(b@),
    ensures
        final(app).wf(b@),
        final(app).drawn(b@),
        filter_key(old(app).model(b@), code, ctrl) == (final(app).model(b@), r),
{
    proof {
        reveal(filter_key);
    }
    match code {
        KeyCode::Enter => {
            return submit_filter(app, b);
        },
        KeyCode::Esc => cancel_filter(app, Ghost(b@)),
        KeyCode::Up => recall_older_filter(app, Ghost(b@)),
        KeyCode::Down => recall_newer_filter(app, Ghost(b@)),
        _ => edit_filter(app, code, ctrl, Ghost(b@)),
    }
    KeyOutcome::Continue
}

} // verus!
