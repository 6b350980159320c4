use jview::pane::Pane;
use jview::session::App;
use jview::stream::{is_lines_name, sniff_multi, Feed, STREAM_REBUILD_MS};
use std::time::{Duration, Instant};

#[test]
fn several_values_are_told_from_one() {
    assert!(!sniff_multi(b""));
    assert!(!sniff_multi(b"  \n"));
    assert!(!sniff_multi(b" {\"a\":1} \n"));
    assert!(!sniff_multi(b"{\"a\":"));
    assert!(sniff_multi(b"{\"a\":1}\n{\"a\":2}\n"));
    assert!(sniff_multi(b"1 2"));
    assert!(sniff_multi(b"[1][2]"));
}

#[test]
fn names_of_line_files_are_known_in_any_case() {
    for name in ["a.jsonl", "b.NDJSON", "c.LdJson", "x/y.jsonlines"] {
        assert!(is_lines_name(name), "{name}");
    }
    for name in ["a.json", "jsonl", "a.jsonl.gz", ""] {
        assert!(!is_lines_name(name), "{name}");
    }
}

#[test]
fn a_stream_is_parsed_anew_on_a_throttle_and_at_its_end() {
    let mut feed = Feed::new();
    assert!(!feed.settle(b"", 10_000));
    feed.arrived();
    assert!(!feed.settle(b"{\"a\":1}", STREAM_REBUILD_MS - 1));
    assert!(feed.settle(b"{\"a\":1}", STREAM_REBUILD_MS));
    assert!(!feed.settle(b"{\"a\":1}", 10_000));
    assert!(!feed.jsonl);
    feed.arrived();
    feed.ended();
    assert!(feed.settle(b"{\"a\":1}\n{\"a\":2}", 0));
    assert!(feed.jsonl);
    // Once several documents, always several.
    feed.settle(b"{\"a\":1}", 0);
    assert!(feed.jsonl);
}

#[test]
fn only_the_document_pane_follows_the_stream() {
    let whole = br#"{"a":{"x":1},"b":2}"#;
    let part = &whole[..13];
    let later = || Instant::now() + Duration::from_secs(5);
    let mut app = App::single(Pane::new(part, "t", false));
    app.views[0].flatten_window(part, 20, later());
    app.views[0].focus = 1;
    app.split_active(part);
    assert_eq!(app.views.len(), 2);
    app.views[1].flatten_window(part, 20, later());
    app.rebuild_document(whole, false);
    for v in &mut app.views {
        v.flatten_window(whole, 20, later());
    }
    assert_eq!(app.views[0].rows.len(), 3);
    assert_eq!(app.views[1].rows.len(), 2);
}
