//! The laws of the library on concrete values.

use jview::clip::base64_encode;
use jview::extract::value_slice;
use jview::filter::{self, parse_pipeline, FilterHit};
use jview::input::KeyCode;
use jview::overlay::Area;
use jview::pane::Pane;
use jview::scanner::{skip_value, value_kind, Kind};
use jview::session::App;
use jview::tree::{
    collect_expanded, expand_to, flatten, get, get_mut, join_path, make_root, parse_path, resolve_path,
    set_expanded, Node, Row, Seg,
};
use jview::worker::Outlet;
use std::sync::atomic::AtomicBool;
use std::sync::mpsc::channel;
use std::time::{Duration, Instant};

fn rows(root: &mut Node, b: &[u8], budget: usize) -> Vec<Row> {
    let mut out = Vec::new();
    let mut path = Vec::new();
    let mut incomplete = false;
    flatten(
        root,
        b,
        0,
        budget,
        &mut out,
        &mut path,
        None,
        &mut incomplete,
    );
    assert!(!incomplete);
    out
}

fn labels(rows: &[Row]) -> Vec<String> {
    rows.iter().map(|r| r.label.clone()).collect()
}

fn hits(b: &[u8], expr: &str) -> Vec<FilterHit> {
    let program = parse_pipeline(expr).expect("parse");
    let (tx, rx) = channel();
    let cancel = AtomicBool::new(false);
    let read = |t: &str| t.parse::<f64>().map_or(0, f64::to_bits);
    let mut out = Outlet::new(&tx, &cancel);
    filter::run(
        b,
        &program,
        false,
        0,
        b.len(),
        value_kind(b, 0),
        &read,
        &mut out,
    );
    drop(tx);
    rx.iter().collect()
}

const DOC: &[u8] = br#"{"a":{"x":1,"y":[2,3]},"b":"s","c":[]}"#;

#[test]
fn toggling_twice_restores_the_rows() {
    let mut root = make_root(DOC, "t", false);
    let before = labels(&rows(&mut root, DOC, 100));
    root.toggle();
    assert_eq!(rows(&mut root, DOC, 100).len(), 1);
    root.toggle();
    assert_eq!(labels(&rows(&mut root, DOC, 100)), before);
    // A leaf and an empty container do not open.
    root.children[1].toggle();
    root.children[2].toggle();
    assert!(!root.children[1].expanded && !root.children[2].expanded);
}

#[test]
fn scanning_again_scans_nothing_more() {
    let mut root = make_root(DOC, "t", false);
    root.ensure_child(DOC, 1);
    assert_eq!(root.children.len(), 2);
    root.ensure_child(DOC, 0);
    assert_eq!(root.children.len(), 2);
    root.ensure_child(DOC, 99);
    assert_eq!(root.children.len(), 3);
    root.ensure_child(DOC, 99);
    assert_eq!(root.children.len(), 3);
}

#[test]
fn a_smaller_window_is_a_prefix_of_a_larger_one() {
    let all = labels(&rows(&mut make_root(DOC, "t", false), DOC, 100));
    for budget in 1..=all.len() {
        let part = labels(&rows(&mut make_root(DOC, "t", false), DOC, budget));
        assert_eq!(part[..], all[..budget]);
    }
}

#[test]
fn rows_lead_to_their_nodes() {
    let mut root = make_root(DOC, "t", false);
    set_expanded(&mut root, DOC, &[0]);
    set_expanded(&mut root, DOC, &[0, 1]);
    let shown = rows(&mut root, DOC, 100);
    assert_eq!(
        labels(&shown),
        ["t", "a", "x", "y", "0", "1", "b", "c"]
    );
    for row in &shown {
        let node = get(&root, &row.path);
        assert_eq!(node.label, row.label);
        assert_eq!(node.kind, row.kind);
        assert_eq!(node.is_index, row.is_index);
        assert_eq!(node.preview(DOC), row.value);
        assert_eq!(row.depth, row.path.len());
    }
}

#[test]
fn looking_for_a_path_keeps_what_is_open() {
    let mut root = make_root(DOC, "t", false);
    let before = labels(&rows(&mut root, DOC, 100));
    assert!(resolve_path(&mut root, DOC, &[], &parse_path("b").segs).is_some());
    assert_eq!(labels(&rows(&mut root, DOC, 100)), before);
    assert!(resolve_path(&mut root, DOC, &[], &parse_path("zz").segs).is_none());
    assert_eq!(labels(&rows(&mut root, DOC, 100)), before);
}

#[test]
fn a_copied_path_reads_back() {
    let segs = [
        ("data".to_string(), false),
        ("12".to_string(), true),
        ("0".to_string(), true),
        ("näme".to_string(), false),
    ];
    let text = join_path("", &segs);
    assert_eq!(text, "data[12][0].näme");
    let parsed = parse_path(&text);
    assert_eq!(parsed.up, None);
    assert_eq!(
        parsed.segs,
        vec![
            Seg::Key("data".to_string()),
            Seg::Index(12),
            Seg::Index(0),
            Seg::Key("näme".to_string())
        ]
    );
    // A key with a dot in it does not.
    let dotted = join_path("", &[("a.b".to_string(), false)]);
    assert_eq!(parse_path(&dotted).segs.len(), 2);
}

#[test]
fn a_value_that_ended_ends_there_whatever_follows() {
    for value in [&b"{\"a\":[1,2]}"[..], b"\"x\\\"y\"", b"12.5"] {
        let mut short = value.to_vec();
        short.extend_from_slice(b" ,");
        let mut long = short.clone();
        long.extend_from_slice(b"[{\"more\"}]");
        assert_eq!(skip_value(&short, 0, short.len()), value.len());
        assert_eq!(skip_value(&long, 0, long.len()), value.len());
    }
    // A string or a container may end right where the bytes do.
    for value in [&b"{\"a\":[1,2]}"[..], b"\"x\\\"y\""] {
        let mut long = value.to_vec();
        long.extend_from_slice(b"]\"}");
        assert_eq!(skip_value(value, 0, value.len()), value.len());
        assert_eq!(skip_value(&long, 0, long.len()), value.len());
    }
}

#[test]
fn what_is_selected_lies_in_the_document() {
    let b = br#"{"u":[{"n":"a","k":[1,{"n":"b"}]},{"m":2}],"n":null}"#;
    for expr in [".", "..", ".u[]", ".. | .n", ".u[] | select(.n == \"a\")", ".u[0:9]"] {
        let found = hits(b, expr);
        assert!(!found.is_empty(), "{expr}");
        for h in found {
            assert!(h.start < h.end && h.end <= b.len(), "{expr}");
            assert_eq!(value_kind(b, h.start), h.kind, "{expr}");
        }
    }
}

#[test]
fn a_pipe_feeds_one_stage_into_the_next() {
    let b = br#"[{"a":[1,2]},{"a":[3]},{"b":0}]"#;
    let whole: Vec<usize> = hits(b, ".[] | .a | .[]").iter().map(|h| h.start).collect();
    let mut chained = Vec::new();
    for h in hits(b, ".[] | .a") {
        let value = value_slice(b, h.start, h.end);
        chained.extend(hits(value, ".[]").iter().map(|g| h.start + g.start));
    }
    assert_eq!(whole, chained);
    assert_eq!(whole.len(), 3);
}

#[test]
fn kinds_are_unequal_and_unordered() {
    let b = br#"[1,"1",true,null,[1]]"#;
    let count = |expr: &str| hits(b, expr).len();
    assert_eq!(count(".[] | select(. == \"1\")"), 1);
    assert_eq!(count(".[] | select(. != \"1\")"), 4);
    assert_eq!(count(".[] | select(. < \"2\")"), 1);
    assert_eq!(count(".[] | select(. >= null)"), 1);
    assert_eq!(count(".[] | select(. ~ \"1\")"), 1);
    assert_eq!(count(".[] | select(. !~ \"1\")"), 4);
    assert_eq!(count(".[] | select(.x.y == null)"), 5);
}

#[test]
fn a_copy_is_what_would_be_extracted() {
    let b = b"{\"a\": {\"x\": [1, 2]} , \"b\": 3}\n\n";
    let mut app = App::single(Pane::new(b, "t", false));
    let screen = Area {
        x: 0,
        y: 0,
        width: 80,
        height: 24,
    };
    for _ in 0..3 {
        app.views[0].flatten_window(b, 20, Instant::now() + Duration::from_secs(5));
        app.yank_value(b);
        let (start, end) = app.focused_range(b).expect("a focus");
        assert_eq!(
            app.clipboard.as_deref(),
            Some(value_slice(b, start, end)),
        );
        jview::control::process_key(&mut app, KeyCode::Down, false, false, b, 20, screen);
    }
}

#[test]
fn base64_has_four_characters_for_three_bytes() {
    for n in 0..20usize {
        let data = vec![0xa5u8; n];
        assert_eq!(base64_encode(&data).len(), (n + 2) / 3 * 4);
    }
}

#[test]
fn a_result_of_a_kind_keeps_it() {
    let found = hits(br#"{"a":[1]}"#, ".a, .a[0]");
    assert_eq!(found[0].kind, Kind::Array);
    assert_eq!(found[1].kind, Kind::Number);
}

fn open_paths(root: &Node) -> Vec<Vec<usize>> {
    let mut out = Vec::new();
    collect_expanded(root, &mut Vec::new(), &mut out);
    out
}

#[test]
fn a_path_to_no_node_opens_nothing() {
    let mut root = make_root(DOC, "t", false);
    let before = open_paths(&root);
    assert_eq!(before, vec![Vec::<usize>::new()]);
    for path in [&[0, 9][..], &[7], &[1, 0], &[2, 0], &[0, 1, 5]] {
        set_expanded(&mut root, DOC, path);
        assert_eq!(open_paths(&root), before, "{path:?}");
    }
    set_expanded(&mut root, DOC, &[0, 1]);
    assert_eq!(open_paths(&root), vec![vec![], vec![0], vec![0, 1]]);
}

#[test]
fn what_is_open_survives_a_fresh_parse() {
    let mut root = make_root(DOC, "t", false);
    set_expanded(&mut root, DOC, &[0, 1]);
    let wanted = open_paths(&root);
    let mut again = make_root(DOC, "t", false);
    for path in &wanted {
        set_expanded(&mut again, DOC, path);
    }
    assert_eq!(open_paths(&again), wanted);
    // More bytes behind it change nothing either.
    let mut longer = DOC.to_vec();
    longer.extend_from_slice(b"  \n");
    let mut more = make_root(&longer, "t", false);
    for path in &wanted {
        set_expanded(&mut more, &longer, path);
    }
    assert_eq!(open_paths(&more), wanted);
}

#[test]
fn the_way_to_a_node_is_opened_and_its_row_shows() {
    let path = [0, 1, 1];
    let mut root = make_root(DOC, "t", false);
    root.toggle();
    expand_to(&mut root, DOC, &path);
    for k in 0..path.len() {
        assert!(get(&root, &path[..k]).expanded);
    }
    assert!(!get(&root, &path).expanded);
    let shown = rows(&mut root, DOC, 100);
    assert!(shown.iter().any(|r| r.path == path));
    // The node itself stays as it was.
    expand_to(&mut root, DOC, &[0]);
    assert!(get(&root, &[0]).expanded);
    get_mut(&mut root, &[0, 1]).toggle();
    expand_to(&mut root, DOC, &[0, 1]);
    assert!(!get(&root, &[0, 1]).expanded);
}

/// All of a tree, with every node that can be opened open.
fn unfold(node: &mut Node, b: &[u8]) -> serde_json::Value {
    if !node.kind.is_container() {
        return serde_json::from_slice(value_slice(b, node.start, node.end)).expect("a scalar");
    }
    if !node.expanded && node.has_children {
        node.toggle();
    }
    node.ensure_child(b, usize::MAX);
    if node.kind == Kind::Array {
        serde_json::Value::Array(node.children.iter_mut().map(|c| unfold(c, b)).collect())
    } else {
        let members = node.children.iter_mut();
        serde_json::Value::Object(members.map(|c| (c.label.clone(), unfold(c, b))).collect())
    }
}

#[test]
fn an_unfolded_tree_is_the_document() {
    for doc in [
        DOC,
        br#"{ "a" : [ {} , [ ] , { "b" : [[1]] } ] , "q\"\ud83e\udd80" : -1.5e3 }"#,
        b"[[[[\"deep\"]]], null, true]",
        b" 7 ",
    ] {
        let whole: serde_json::Value = serde_json::from_slice(doc).expect("a document");
        assert_eq!(unfold(&mut make_root(doc, "t", false), doc), whole);
    }
}
