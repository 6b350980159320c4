use jview::pane::Pane;
use jview::scanner::Kind;
use jview::search::{self, glob_to_regex, Pattern, MAX_MATCHES};
use jview::tree::{expand_to, get, make_root};
use jview::worker::Outlet;
use std::sync::atomic::AtomicBool;
use std::sync::mpsc::channel;
use std::time::{Duration, Instant};

fn matches_of(b: &[u8], query: &str, jsonl: bool, kind: Kind) -> Vec<Vec<usize>> {
    let pattern = Pattern::parse(query).expect("pattern");
    let (tx, rx) = channel();
    let cancel = AtomicBool::new(false);
    let mut out = Outlet::new(&tx, &cancel);
    search::run(b, &pattern, jsonl, 0, b.len(), kind, &mut out);
    drop(tx);
    rx.iter().collect()
}

#[test]
fn search_pattern_parses_re_glob_and_literal() {
    // re: compiles a regex (case-insensitive).
    let p = Pattern::parse("re:^foo.*bar$").expect("regex");
    match p {
        Pattern::Regex(_) => {}
        _ => panic!("expected Regex"),
    }
    // Bad regex returns a footer-ready error.
    assert!(Pattern::parse("re:[unclosed").is_err());
    // g: turns into a regex (the `.` is escaped so it matches literal dot).
    let p = Pattern::parse("g:foo.*bar").expect("glob");
    match p {
        Pattern::Regex(_) => {}
        _ => panic!("expected Regex"),
    }
    // Plain query is literal substring (the default).
    let p = Pattern::parse("Hello").expect("literal");
    match p {
        Pattern::Literal(n) => assert_eq!(n, "hello"),
        _ => panic!("expected Literal"),
    }
}

/// A pathologically deep document (`[[[…"needle"…]]]`) must not overflow the
/// stack when searched. The match sits below the depth limit so it won't be found;
/// the point is that the search *finishes* instead of crashing.
#[test]
fn deep_nesting_search_does_not_overflow() {
    let n = 50_000;
    let mut s = String::with_capacity(n * 2 + 16);
    for _ in 0..n {
        s.push('[');
    }
    s.push_str("\"needle\"");
    for _ in 0..n {
        s.push(']');
    }
    let bytes = s.into_bytes();
    let (tx, rx) = channel();
    let cancel = AtomicBool::new(false);
    let pat = Pattern::parse("needle").unwrap();
    let mut out = Outlet::new(&tx, &cancel);
    search::run(&bytes, &pat, false, 0, bytes.len(), Kind::Array, &mut out);
    assert!(!out.is_stopped(), "search did not finish (possible hang)");
    drop(tx);
    assert_eq!(rx.iter().count(), 0);
}

/// A `re:` pattern actually filters the emitted paths. `^id_\d+$` matches the two
/// `id_42`/`id_99` string values but not the numeric `id` keys, so we should see
/// exactly the two matches.
#[test]
fn regex_pattern_filters_string_values() {
    let bytes = br#"{"items":[{"id":1,"tag":"id_42"},{"id":2,"tag":"id_99"},{"id":3,"tag":"x"}]}"#;
    let matches = matches_of(bytes, r"re:^id_\d+$", false, Kind::Object);
    // Each match's last index is the `tag` field (index 1 inside its object).
    assert_eq!(matches.len(), 2, "matches: {:?}", matches);
    for m in &matches {
        assert_eq!(m.last(), Some(&1));
    }
}

#[test]
fn matches_come_in_document_order_with_their_paths() {
    let b = br#"{"a":"needle","b":[1,{"Needle":2},"xNEEDLEy"]}"#;
    assert_eq!(
        matches_of(b, "needle", false, Kind::Object),
        vec![vec![0], vec![1, 1, 0], vec![1, 2]]
    );
}

#[test]
fn a_bad_pattern_says_why() {
    let message = Pattern::parse("re:(").err().unwrap();
    assert!(message.starts_with("bad pattern"), "{message}");
}

#[test]
fn globs_become_regexes() {
    assert_eq!(glob_to_regex("a*b?.c"), "a.*b.\\.c");
    let b = br#"["app.log","app-log","log"]"#;
    assert_eq!(matches_of(b, "g:p.l*", false, Kind::Array), vec![vec![0]]);
}

#[test]
fn lower_casing_goes_beyond_ascii() {
    let b = "[\"ÄRGER\",\"x\"]".as_bytes();
    assert_eq!(matches_of(b, "ärger", false, Kind::Array), vec![vec![0]]);
}

#[test]
fn every_document_of_a_stream_is_searched() {
    let b = b"{\"a\":\"hit\"}\n{\"b\":1}\n{\"c\":\"hit\"}\n";
    assert_eq!(
        matches_of(b, "hit", true, Kind::Array),
        vec![vec![0, 0], vec![2, 0]]
    );
}

#[test]
fn a_search_stops_at_its_limit() {
    let mut s = String::from("[");
    for i in 0..MAX_MATCHES + 10 {
        if i > 0 {
            s.push(',');
        }
        s.push_str("\"x\"");
    }
    s.push(']');
    let found = matches_of(s.as_bytes(), "x", false, Kind::Array);
    assert_eq!(found.len(), MAX_MATCHES);
    assert_eq!(found.last(), Some(&vec![MAX_MATCHES - 1]));
}

#[test]
fn a_cancelled_search_sends_nothing() {
    let b = br#"["x","x"]"#;
    let pattern = Pattern::parse("x").unwrap();
    let (tx, rx) = channel();
    let cancel = AtomicBool::new(true);
    let mut out = Outlet::new(&tx, &cancel);
    search::run(b, &pattern, false, 0, b.len(), Kind::Array, &mut out);
    let stopped = out.is_stopped();
    drop(tx);
    let found: Vec<Vec<usize>> = rx.iter().collect();
    assert!(stopped || found.len() == 2);
}

#[test]
fn a_search_without_a_receiver_stops() {
    let b = br#"["x","x"]"#;
    let pattern = Pattern::parse("x").unwrap();
    let (tx, rx) = channel();
    drop(rx);
    let cancel = AtomicBool::new(false);
    let mut out = Outlet::new(&tx, &cancel);
    search::run(b, &pattern, false, 0, b.len(), Kind::Array, &mut out);
    assert!(out.is_stopped());
}

#[test]
fn what_is_found_is_in_the_tree_and_a_jump_lands_on_it() {
    let b = br#"{"a":[{"hit":1},[2,"a hit"]],"b":{"c":{"hit":{"d":"no"}}},"e":"hit"}"#;
    let found = matches_of(b, "hit", false, Kind::Object);
    assert_eq!(found, vec![vec![0, 0, 0], vec![0, 1, 1], vec![1, 0, 0], vec![2]]);
    for path in &found {
        let mut root = make_root(b, "t", false);
        expand_to(&mut root, b, path);
        let node = get(&root, path);
        assert!(node.label == "hit" || node.preview(b).contains("hit"));
        // Whatever was open before, and however small the window.
        let mut pane = Pane::new(b, "t", false);
        for height in [1, 3, 40] {
            pane.jump_to(path, b);
            pane.flatten_window(b, height, Instant::now() + Duration::from_secs(5));
            assert_eq!(&pane.rows[pane.focus].path, path);
            assert!(pane.scroll <= pane.focus && pane.focus < pane.scroll + height);
        }
    }
}
