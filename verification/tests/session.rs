use jview::control::{coalesce, process_key, WHEEL_STEP};
use jview::filter::FilterHit;
use jview::input::KeyCode;
use jview::keys::KeyOutcome;
use jview::numbers::walk_focus;
use jview::overlay::Area;
use jview::pane::{Mode, Pane, WEIGHT_DEFAULT, WEIGHT_MAX, WEIGHT_MIN};
use jview::scanner::Kind;
use jview::session::{App, COPY_MAX_BYTES};
use std::time::{Duration, Instant};

const SCREEN: Area = Area {
    x: 0,
    y: 0,
    width: 80,
    height: 24,
};

fn draw(app: &mut App, b: &[u8]) {
    let rects = app.rects(SCREEN);
    let later = vec![Instant::now() + Duration::from_secs(5); app.views.len()];
    app.flatten_panes(b, &rects, &later);
}

fn open(b: &[u8]) -> App {
    let mut app = App::single(Pane::new(b, "t", false));
    draw(&mut app, b);
    app
}

fn press(app: &mut App, b: &[u8], code: KeyCode) -> KeyOutcome {
    let h = app.active_height(SCREEN);
    let outcome = process_key(app, code, false, false, b, h, SCREEN);
    draw(app, b);
    outcome
}

fn typed(app: &mut App, b: &[u8], text: &str) {
    for c in text.chars() {
        press(app, b, KeyCode::Char(c));
    }
}

fn copied(app: &App) -> String {
    String::from_utf8(app.clipboard.clone().unwrap()).unwrap()
}

#[test]
fn the_value_and_its_path_are_copied() {
    let b = b"{\"a\":{\"b\":[1,2,3]},\"c\":9}\n";
    let mut app = open(b);
    press(&mut app, b, KeyCode::Char('y'));
    assert_eq!(copied(&app), "{\"a\":{\"b\":[1,2,3]},\"c\":9}");
    assert_eq!(app.flash.as_deref(), Some("copied value (25 B)"));
    press(&mut app, b, KeyCode::Down);
    assert_eq!(app.flash, None);
    press(&mut app, b, KeyCode::Char('y'));
    assert_eq!(copied(&app), "{\"b\":[1,2,3]}");
    press(&mut app, b, KeyCode::Char('Y'));
    assert_eq!(copied(&app), "a");
    assert_eq!(app.flash.as_deref(), Some("copied path: a"));
}

#[test]
fn a_long_copy_is_cut_off_and_says_so() {
    let doc = format!("[\"{}\",1]", "x".repeat(COPY_MAX_BYTES + 10));
    let b = doc.as_bytes();
    let mut app = open(b);
    press(&mut app, b, KeyCode::Char('y'));
    assert_eq!(app.clipboard.as_ref().unwrap().len(), COPY_MAX_BYTES);
    assert_eq!(
        app.flash.as_deref(),
        Some("copied 1048576 B (truncated at 1024 KiB cap)")
    );
}

#[test]
fn counting_says_how_many_of_what() {
    let b = br#"{"a":[1,2,3],"o":{"k":1},"n":5}"#;
    let mut app = open(b);
    press(&mut app, b, KeyCode::Char('c'));
    assert_eq!(app.flash.as_deref(), Some("t: 3 entries"));
    press(&mut app, b, KeyCode::Down);
    press(&mut app, b, KeyCode::Char('c'));
    assert_eq!(app.flash.as_deref(), Some("a: 3 elements"));
    press(&mut app, b, KeyCode::Down);
    press(&mut app, b, KeyCode::Down);
    press(&mut app, b, KeyCode::Char('c'));
    assert_eq!(app.flash.as_deref(), Some("n: not a container"));
}

#[test]
fn extracting_needs_somewhere_to_go() {
    let b = br#"{"a":1}"#;
    let mut app = open(b);
    assert_eq!(press(&mut app, b, KeyCode::Char('p')), KeyOutcome::Continue);
    assert_eq!(
        app.flash.as_deref(),
        Some("pipe jview into a command (e.g. | jq) to extract a node")
    );
    app.can_extract = true;
    press(&mut app, b, KeyCode::Down);
    assert_eq!(press(&mut app, b, KeyCode::Char('p')), KeyOutcome::Quit);
    assert_eq!(app.extract, Some((5, 6)));
}

#[test]
fn the_schema_overlay_opens_scrolls_and_copies() {
    let b = br#"[{"a":1},{"a":2,"b":"x"}]"#;
    let mut app = open(b);
    press(&mut app, b, KeyCode::Char('t'));
    assert_eq!(app.active_view().mode, Mode::Schema);
    let source = app.active_view().schema.as_ref().unwrap().source.clone();
    press(&mut app, b, KeyCode::Char('y'));
    assert_eq!(copied(&app), source);
    assert_eq!(
        app.flash,
        Some(format!("copied type ({} B)", source.len()))
    );
    press(&mut app, b, KeyCode::Esc);
    assert_eq!(app.active_view().mode, Mode::Normal);
    assert!(app.active_view().schema.is_none());
    // A scalar has no shape.
    let n = b"7";
    let mut app = open(n);
    press(&mut app, n, KeyCode::Char('t'));
    assert_eq!(app.flash.as_deref(), Some("schema: focus an array or object"));
}

#[test]
fn splitting_opens_a_child_and_closing_returns_to_the_parent() {
    let b = br#"{"a":{"b":{"c":1}},"d":2}"#;
    let mut app = open(b);
    press(&mut app, b, KeyCode::Down);
    press(&mut app, b, KeyCode::Char('s'));
    assert_eq!(app.views.len(), 2);
    assert_eq!(app.active, 1);
    assert_eq!(app.active_view().name, "a");
    // Titles chain from one split to the next.
    press(&mut app, b, KeyCode::Down);
    press(&mut app, b, KeyCode::Char('s'));
    assert_eq!(app.active_view().name, "a.b");
    assert_eq!(app.views[2].parent, Some(app.views[1].id));
    // Closing the middle one takes its child along.
    app.active = 1;
    assert_eq!(press(&mut app, b, KeyCode::Char('q')), KeyOutcome::Continue);
    assert_eq!(app.views.len(), 1);
    assert_eq!(app.active, 0);
    // The last pane quits with q, and stays with x.
    press(&mut app, b, KeyCode::Char('x'));
    assert_eq!(app.views.len(), 1);
    assert_eq!(press(&mut app, b, KeyCode::Char('q')), KeyOutcome::Quit);
}

#[test]
fn a_scalar_does_not_split() {
    let b = br#"{"d":2}"#;
    let mut app = open(b);
    press(&mut app, b, KeyCode::Down);
    press(&mut app, b, KeyCode::Char('s'));
    assert_eq!(app.views.len(), 1);
}

#[test]
fn the_preview_pane_is_reused() {
    let b = br#"{"a":{"x":1},"b":{"y":2}}"#;
    let mut app = open(b);
    press(&mut app, b, KeyCode::Down);
    press(&mut app, b, KeyCode::Char('o'));
    assert_eq!((app.views.len(), app.active), (2, 0));
    let id = app.views[1].id;
    press(&mut app, b, KeyCode::Down);
    press(&mut app, b, KeyCode::Char('o'));
    assert_eq!((app.views.len(), app.active), (2, 0));
    assert_eq!(app.views[1].id, id);
    assert_eq!(app.views[1].name, "b");
    // Once it is closed, its link is gone and a new one opens.
    press(&mut app, b, KeyCode::Tab);
    press(&mut app, b, KeyCode::Char('x'));
    assert_eq!(app.views[0].preview_child, None);
    press(&mut app, b, KeyCode::Char('o'));
    assert_eq!(app.views.len(), 2);
    assert!(app.views[1].id != id);
}

#[test]
fn weights_stay_in_range() {
    let b = br#"{"a":1}"#;
    let mut app = open(b);
    assert_eq!(app.weights(), vec![WEIGHT_DEFAULT]);
    for _ in 0..40 {
        press(&mut app, b, KeyCode::Char('+'));
    }
    assert_eq!(app.weights(), vec![WEIGHT_MAX]);
    for _ in 0..40 {
        press(&mut app, b, KeyCode::Char('-'));
    }
    assert_eq!(app.weights(), vec![WEIGHT_MIN]);
}

#[test]
fn a_path_is_jumped_to_and_recalled() {
    let b = br#"{"data":{"users":[{"city":"X"}]}}"#;
    let mut app = open(b);
    press(&mut app, b, KeyCode::Char(':'));
    typed(&mut app, b, "data.users[0].city");
    press(&mut app, b, KeyCode::Enter);
    assert_eq!(app.active_view().mode, Mode::Normal);
    let v = app.active_view();
    assert_eq!(v.rows[v.focus].label, "city");
    // The path comes back with Up; the half-typed line with Down.
    press(&mut app, b, KeyCode::Char(':'));
    typed(&mut app, b, "da");
    press(&mut app, b, KeyCode::Up);
    assert_eq!(app.active_view().goto.as_str(), "data.users[0].city");
    press(&mut app, b, KeyCode::Down);
    assert_eq!(app.active_view().goto.as_str(), "da");
    press(&mut app, b, KeyCode::Esc);
    assert_eq!(app.active_view().mode, Mode::Normal);
}

#[test]
fn a_filter_opens_a_result_pane() {
    let b = br#"{"users":[{"n":1},{"n":2}]}"#;
    let mut app = open(b);
    press(&mut app, b, KeyCode::Char('|'));
    typed(&mut app, b, ".users[");
    assert_eq!(press(&mut app, b, KeyCode::Enter), KeyOutcome::Continue);
    assert!(app.active_view().filter_error.is_some());
    assert_eq!(app.active_view().mode, Mode::Filter);
    typed(&mut app, b, "]");
    assert!(app.active_view().filter_error.is_none());
    assert_eq!(press(&mut app, b, KeyCode::Enter), KeyOutcome::LaunchFilter);
    let job = app.launch_filter(b).expect("a filter");
    assert_eq!((job.start, job.end), (0, b.len()));
    assert_eq!(job.expr, ".users[]");
    assert_eq!(app.active_view().name, "| .users[]");
    let v = app.active_mut();
    v.receive_hits(
        b,
        vec![
            FilterHit {
                label: "0".to_string(),
                start: 10,
                end: 17,
                kind: Kind::Object,
                end_exact: true,
            },
            FilterHit {
                label: "1".to_string(),
                start: 18,
                end: 25,
                kind: Kind::Object,
                end_exact: true,
            },
        ],
        true,
    );
    v.adopt_hits(b);
    draw(&mut app, b);
    assert_eq!(app.active_view().rows.len(), 3);
    // All hits are extracted from there.
    app.can_extract = true;
    assert_eq!(press(&mut app, b, KeyCode::Char('p')), KeyOutcome::Quit);
    assert_eq!(app.extract_batch, Some(vec![(10, 17), (18, 25)]));
    // The filter is recalled in the next prompt.
    press(&mut app, b, KeyCode::Char('|'));
    press(&mut app, b, KeyCode::Up);
    assert_eq!(app.active_view().filter_query.as_str(), ".users[]");
}

#[test]
fn a_result_pane_sums_up_what_was_selected() {
    let b = br#"{"a":{"price":4},"b":{"price":6}}"#;
    let mut app = open(b);
    press(&mut app, b, KeyCode::Char('|'));
    typed(&mut app, b, ".[].price");
    press(&mut app, b, KeyCode::Enter);
    app.launch_filter(b).expect("a filter");
    let price = |start: usize| FilterHit {
        label: "price".to_string(),
        start,
        end: start + 1,
        kind: Kind::Number,
        end_exact: true,
    };
    let v = app.active_mut();
    v.receive_hits(b, vec![price(14), price(30)], true);
    v.adopt_hits(b);
    draw(&mut app, b);
    assert_eq!(press(&mut app, b, KeyCode::Char('#')), KeyOutcome::Aggregate);
    let mut walk = walk_focus(app.active_view(), b).expect("a container");
    assert_eq!(walk.next(b).as_deref(), Some("4"));
    assert_eq!(walk.next(b).as_deref(), Some("6"));
    assert_eq!(walk.next(b), None);
    assert_eq!(walk.total(), 2);
}

#[test]
fn the_search_prompt_asks_for_a_launch_on_every_change() {
    let b = br#"{"a":"x"}"#;
    let mut app = open(b);
    assert_eq!(press(&mut app, b, KeyCode::Char('/')), KeyOutcome::Relaunch);
    assert_eq!(press(&mut app, b, KeyCode::Char('x')), KeyOutcome::Relaunch);
    assert_eq!(press(&mut app, b, KeyCode::Left), KeyOutcome::Continue);
    // The focused container is the scope that Tab aims at.
    assert_eq!(press(&mut app, b, KeyCode::Tab), KeyOutcome::Relaunch);
    assert!(app.active_view().scoped);
    press(&mut app, b, KeyCode::Esc);
    assert_eq!(app.active_view().query.as_str(), "");
}

#[test]
fn any_key_closes_the_help() {
    let b = br#"{"a":1}"#;
    let mut app = open(b);
    press(&mut app, b, KeyCode::Char('?'));
    assert_eq!(app.active_view().mode, Mode::Help);
    press(&mut app, b, KeyCode::Char('q'));
    assert_eq!(app.active_view().mode, Mode::Normal);
}

#[test]
fn bookmarks_are_picked_and_dropped() {
    let b = br#"{"a":1,"b":2}"#;
    let mut app = open(b);
    press(&mut app, b, KeyCode::Char('\''));
    assert_eq!(
        app.flash.as_deref(),
        Some("no bookmarks — press m to add one")
    );
    press(&mut app, b, KeyCode::Down);
    press(&mut app, b, KeyCode::Char('m'));
    press(&mut app, b, KeyCode::Down);
    press(&mut app, b, KeyCode::Char('m'));
    press(&mut app, b, KeyCode::Home);
    press(&mut app, b, KeyCode::Char('\''));
    press(&mut app, b, KeyCode::Char('j'));
    press(&mut app, b, KeyCode::Enter);
    let v = app.active_view();
    assert_eq!(v.rows[v.focus].label, "b");
    press(&mut app, b, KeyCode::Char('\''));
    press(&mut app, b, KeyCode::Char('d'));
    press(&mut app, b, KeyCode::Char('d'));
    assert_eq!(app.active_view().mode, Mode::Normal);
    assert!(app.active_view().bookmarks.is_empty());
}

#[test]
fn paging_moves_a_screenful() {
    let doc = format!("[{}]", vec!["0"; 500].join(","));
    let b = doc.as_bytes();
    let mut app = open(b);
    assert_eq!(app.active_height(SCREEN), 22);
    press(&mut app, b, KeyCode::PageDown);
    assert_eq!(app.active_view().focus, 22);
    press(&mut app, b, KeyCode::PageUp);
    assert_eq!(app.active_view().focus, 0);
    let h = app.active_height(SCREEN);
    process_key(&mut app, KeyCode::Char('d'), true, false, b, h, SCREEN);
    assert_eq!(app.active_view().focus, 11);
    draw(&mut app, b);
    process_key(&mut app, KeyCode::Char('u'), true, false, b, h, SCREEN);
    assert_eq!(app.active_view().focus, 0);
    // Without Ctrl the letter does nothing.
    draw(&mut app, b);
    press(&mut app, b, KeyCode::Char('d'));
    assert_eq!(app.active_view().focus, 0);
}

#[test]
fn the_wheel_scrolls_the_pane_under_the_pointer() {
    let doc = format!("[[{}],1,2,3,4,5,6]", vec!["0"; 50].join(","));
    let b = doc.as_bytes();
    let mut app = open(b);
    press(&mut app, b, KeyCode::Down);
    press(&mut app, b, KeyCode::Char('s'));
    let rects = app.rects(SCREEN);
    assert_eq!(rects.len(), 3);
    assert_eq!(rects[1].width, 1);
    app.wheel(&rects, rects[2].x, 5, true, b);
    assert_eq!(app.views[1].focus, WHEEL_STEP);
    assert_eq!(app.views[0].focus, 1);
    app.wheel(&rects, 0, 5, false, b);
    assert_eq!(app.views[0].focus, 0);
    // The footer is no pane.
    app.wheel(&rects, 0, 23, true, b);
    assert_eq!(app.views[0].focus, 0);
}

#[test]
fn stacked_panes_share_the_height() {
    let b = br#"{"a":{"x":1}}"#;
    let mut app = open(b);
    press(&mut app, b, KeyCode::Down);
    press(&mut app, b, KeyCode::Char('s'));
    press(&mut app, b, KeyCode::Char('\\'));
    let rects = app.rects(SCREEN);
    assert_eq!(rects.len(), 3);
    assert!(rects.iter().all(|r| r.width == 80 && r.x == 0));
    assert_eq!(rects[1].height, 1);
    assert_eq!(rects[0].height + rects[2].height, 22);
    assert_eq!(rects[0].height, rects[2].height);
}

#[test]
fn a_burst_of_keys_asks_for_the_latest() {
    assert_eq!(
        coalesce(KeyOutcome::Relaunch, KeyOutcome::Continue),
        KeyOutcome::Relaunch
    );
    assert_eq!(
        coalesce(KeyOutcome::Relaunch, KeyOutcome::LaunchFilter),
        KeyOutcome::LaunchFilter
    );
}

#[test]
fn nothing_is_awaited_while_rows_are_missing() {
    let b = br#"{"a":1}"#;
    let mut app = open(b);
    assert_eq!(app.poll_ms(), 100);
    app.views[0].flatten_incomplete = true;
    assert_eq!(app.poll_ms(), 0);
}

#[test]
fn counting_and_typing_a_result_take_what_was_selected() {
    let b = br#"{"users":[{"n":1},{"n":2,"m":"x"}],"rest":[1,2,3]}"#;
    let mut app = open(b);
    press(&mut app, b, KeyCode::Char('|'));
    typed(&mut app, b, ".users[]");
    press(&mut app, b, KeyCode::Enter);
    app.launch_filter(b).expect("a filter");
    let hit = |label: &str, start: usize, end: usize| FilterHit {
        label: label.to_string(),
        start,
        end,
        kind: Kind::Object,
        end_exact: true,
    };
    let v = app.active_mut();
    v.receive_hits(b, vec![hit("0", 10, 17), hit("1", 18, 33)], true);
    v.adopt_hits(b);
    draw(&mut app, b);
    press(&mut app, b, KeyCode::Char('c'));
    assert_eq!(app.flash.as_deref(), Some("| .users[]: 2 elements"));
    press(&mut app, b, KeyCode::Char('t'));
    let source = app.active_view().schema.as_ref().unwrap().source.clone();
    assert!(source.contains("n: number"), "{source}");
    assert!(source.contains("m?: string"), "{source}");
    assert!(!source.contains("rest"), "{source}");
    press(&mut app, b, KeyCode::Esc);
    // A hit below the root is counted where it stands.
    press(&mut app, b, KeyCode::Down);
    press(&mut app, b, KeyCode::Down);
    press(&mut app, b, KeyCode::Char('c'));
    assert_eq!(app.flash.as_deref(), Some("1: 2 entries"));
}

#[test]
fn panes_lie_within_the_screen() {
    let b = br#"{"a":{"x":{"y":1}},"c":[[1]]}"#;
    let mut app = open(b);
    for stacked in [false, true] {
        app.stacked = stacked;
        for screen in [
            SCREEN,
            Area { x: 5, y: 3, width: 21, height: 9 },
            Area { x: 1, y: 1, width: 2, height: 2 },
            Area { x: 0, y: 0, width: 0, height: 0 },
        ] {
            for r in app.rects(screen) {
                assert!(screen.x <= r.x && r.x + r.width <= screen.x + screen.width);
                assert!(screen.y <= r.y && r.y + r.height <= screen.y + screen.height);
            }
        }
        app.stacked = false;
        press(&mut app, b, KeyCode::Down);
        press(&mut app, b, KeyCode::Char('s'));
        for _ in 0..3 {
            press(&mut app, b, KeyCode::Char('+'));
        }
    }
}

#[test]
fn a_copy_is_clamped_and_a_value_that_just_fits_is_whole() {
    // A collapsed array of as many bytes as are copied, and one of one more.
    for (extra, said) in [
        (0, "copied value (1048576 B)"),
        (1, "copied 1048576 B (truncated at 1024 KiB cap)"),
    ] {
        let text = "x".repeat(COPY_MAX_BYTES - 4 + extra);
        let doc = format!("[[\"{text}\"],1]");
        let b = doc.as_bytes();
        let mut app = open(b);
        press(&mut app, b, KeyCode::Down);
        press(&mut app, b, KeyCode::Char('y'));
        assert_eq!(app.flash.as_deref(), Some(said));
        assert_eq!(app.clipboard.as_ref().unwrap().len(), COPY_MAX_BYTES);
    }
    // An escape across the cap does not stretch it.
    let text = "x".repeat(COPY_MAX_BYTES - 3);
    let doc = format!("[[\"{text}\\n\"],1]");
    let b = doc.as_bytes();
    let mut app = open(b);
    press(&mut app, b, KeyCode::Down);
    press(&mut app, b, KeyCode::Char('y'));
    assert_eq!(app.clipboard.as_ref().unwrap().len(), COPY_MAX_BYTES);
}
