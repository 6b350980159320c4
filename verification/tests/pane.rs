use jview::pane::{Mode, Pane};
use std::time::{Duration, Instant};

fn soon() -> Instant {
    Instant::now() + Duration::from_secs(5)
}

fn pane(b: &[u8], jsonl: bool) -> Pane {
    let mut v = Pane::new(b, "t", jsonl);
    v.flatten_window(b, 40, soon());
    v
}

fn labels(v: &Pane) -> Vec<&str> {
    v.rows.iter().map(|r| r.label.as_str()).collect()
}

#[test]
fn nav_sibling_steps_over_subtrees() {
    let b = br#"{"a":{"x":1},"b":{"y":2},"c":3}"#;
    let mut v = Pane::new(b, "t", false);
    v.flatten_window(b, 40, soon());
    // Focus key "a" (path [0]) and expand it, so its child sits between it
    // and the next sibling.
    v.focus = v.rows.iter().position(|r| r.path == vec![0]).unwrap();
    v.toggle_focus(b);
    v.flatten_window(b, 40, soon());
    // Forward hops over a.x straight to "b" ([1]), then "c" ([2]).
    v.nav_sibling(b, true);
    v.flatten_window(b, 40, soon());
    assert_eq!(v.rows[v.focus].path, vec![1]);
    v.nav_sibling(b, true);
    v.flatten_window(b, 40, soon());
    assert_eq!(v.rows[v.focus].path, vec![2]);
    // At the last sibling, forward is a no-op.
    v.nav_sibling(b, true);
    v.flatten_window(b, 40, soon());
    assert_eq!(v.rows[v.focus].path, vec![2]);
    // Backward walks back to "b".
    v.nav_sibling(b, false);
    v.flatten_window(b, 40, soon());
    assert_eq!(v.rows[v.focus].path, vec![1]);
}

#[test]
fn a_fresh_pane_shows_the_root_open() {
    let v = pane(br#"{"a":1,"b":[2]}"#, false);
    assert_eq!(labels(&v), ["t", "a", "b"]);
    assert_eq!(v.focus, 0);
}

#[test]
fn toggling_the_focus_opens_and_closes_it() {
    let b = br#"{"a":{"x":1},"c":3}"#;
    let mut v = pane(b, false);
    v.focus = 1;
    v.toggle_focus(b);
    v.flatten_window(b, 40, soon());
    assert_eq!(labels(&v), ["t", "a", "x", "c"]);
    v.toggle_focus(b);
    v.flatten_window(b, 40, soon());
    assert_eq!(labels(&v), ["t", "a", "c"]);
}

#[test]
fn goto_lands_on_the_row_and_says_where() {
    let b = br#"{"data":{"users":[{"city":"X"}]}}"#;
    let mut v = pane(b, false);
    v.goto.set("data.users[0].city".to_string());
    assert_eq!(v.goto_path(b), "jumped to data.users[0].city");
    v.flatten_window(b, 40, soon());
    assert_eq!(v.rows[v.focus].label, "city");
    v.goto.set("nowhere".to_string());
    assert_eq!(v.goto_path(b), "path not found: nowhere");
}

#[test]
fn bookmarks_toggle() {
    let b = br#"{"a":1}"#;
    let mut v = pane(b, false);
    v.focus = 1;
    v.toggle_bookmark(b);
    assert_eq!(v.bookmarks, vec![vec![0]]);
    v.toggle_bookmark(b);
    assert!(v.bookmarks.is_empty());
}

#[test]
fn a_leaf_is_peeked_at_and_decoded() {
    let b = br#"{"a":"line\nbreak","n":[1]}"#;
    let mut v = pane(b, false);
    v.focus = 1;
    assert!(v.peek_focused(b));
    assert_eq!(v.mode, Mode::Peek);
    let peek = v.peek.as_ref().unwrap();
    assert_eq!(peek.text, "line\nbreak");
    assert_eq!(peek.title, "a");
    assert!(!peek.truncated);
    v.focus = 2;
    assert!(!v.peek_focused(b));
}

#[test]
fn collapse_goes_to_the_parent_second() {
    let b = br#"{"a":{"x":1},"c":3}"#;
    let mut v = pane(b, false);
    v.focus = 1;
    v.toggle_focus(b);
    v.flatten_window(b, 40, soon());
    v.focus = 2;
    v.collapse_or_parent(b);
    v.flatten_window(b, 40, soon());
    assert_eq!(v.rows[v.focus].label, "a");
    v.collapse_or_parent(b);
    v.flatten_window(b, 40, soon());
    assert_eq!(labels(&v), ["t", "a", "c"]);
}

#[test]
fn a_search_runs_over_the_pane_or_its_scope() {
    let b = br#"{"a":{"x":"hit"},"c":"hit"}"#;
    let mut v = pane(b, false);
    v.query.set("hit".to_string());
    let job = v.start_search(b).expect("a job");
    assert_eq!((job.start, job.end), (0, b.len()));
    v.receive_matches(vec![vec![0, 0], vec![1]], true);
    v.index_matches();
    v.nav_match(true, b);
    v.flatten_window(b, 40, soon());
    assert_eq!(v.rows[v.focus].path, vec![0, 0]);
    v.nav_match(true, b);
    v.flatten_window(b, 40, soon());
    assert_eq!(v.rows[v.focus].path, vec![1]);
    // Past the last one it starts over.
    v.nav_match(true, b);
    v.flatten_window(b, 40, soon());
    assert_eq!(v.rows[v.focus].path, vec![0, 0]);
    // Matches of a scoped search are those below the scope.
    v.focus = 1;
    v.search_scope = v.scope_of_focus(b);
    v.scoped = true;
    let job = v.start_search(b).expect("a job");
    assert_eq!(job.start, 5);
    v.receive_matches(vec![vec![0]], true);
    v.index_matches();
    assert_eq!(v.match_set, vec![vec![0, 0]]);
}

#[test]
fn a_bad_pattern_is_kept_as_the_reason() {
    let b = br#"{"a":1}"#;
    let mut v = pane(b, false);
    v.query.set("re:(".to_string());
    assert!(v.start_search(b).is_none());
    assert!(v.query_error.as_ref().unwrap().starts_with("bad pattern"));
}

#[test]
fn rebuilding_over_more_bytes_keeps_what_is_open() {
    let whole = br#"{"a":{"x":1},"b":2}"#;
    let part = &whole[..13];
    let mut v = pane(part, false);
    v.focus = 1;
    v.toggle_focus(part);
    v.flatten_window(part, 40, soon());
    v.focus = 2;
    v.rebuild(whole, false);
    v.flatten_window(whole, 40, soon());
    assert_eq!(labels(&v), ["t", "a", "x", "b"]);
    assert_eq!(v.rows[v.focus].label, "x");
}

#[test]
fn a_jump_far_down_reaches_its_row() {
    let doc = format!("[{}]", vec!["0"; 5000].join(","));
    let b = doc.as_bytes();
    let mut v = pane(b, false);
    assert!(v.rows.len() < 200);
    v.jump_to(&[4321], b);
    v.flatten_window(b, 40, soon());
    assert_eq!(v.rows[v.focus].path, vec![4321]);
    assert!(v.scroll <= v.focus && v.focus - v.scroll < 40);
}
