use jview::scanner::value_kind;
use jview::schema::{columns, infer};
use jview::table::{Table, COL_GAP, ROW_LOOKAHEAD};
use jview::tree::{make_root, Node};

/// Build a table over the whole document, refreshed once at `vis` rows.
fn table_of(json: &str, vis: usize, width: usize) -> (Table, Node) {
    let b = json.as_bytes();
    let ty = infer(b, 0, b.len(), value_kind(b, 0), false);
    let (cols, total) = columns(&ty).expect("tabular");
    let mut root = make_root(b, "ROOT", false);
    root.toggle();
    let mut t = Table::new(Vec::new(), "ROOT".into(), cols, total);
    t.refresh(&mut root, b, vis, width);
    (t, root)
}

fn texts(t: &Table, row: usize) -> Vec<&str> {
    t.window[row]
        .cells
        .iter()
        .map(|c| c.text.as_str())
        .collect()
}

#[test]
fn rows_are_elements_and_columns_are_fields() {
    let (t, _) = table_of(r#"[{"id":1,"name":"ann"},{"id":2,"name":"bo"}]"#, 10, 80);
    let labels: Vec<&str> = t.cols.iter().map(|c| c.label.as_str()).collect();
    assert_eq!(labels, ["id", "name"]);
    assert_eq!(t.window.len(), 2);
    assert_eq!(t.window[0].label, "0");
    assert_eq!(texts(&t, 0), ["1", "\"ann\""]);
    assert_eq!(texts(&t, 1), ["2", "\"bo\""]);
}

#[test]
fn a_missing_field_leaves_an_empty_cell() {
    let (t, _) = table_of(r#"[{"a":1,"b":2},{"a":3}]"#, 10, 80);
    assert_eq!(texts(&t, 1), ["3", ""]);
    assert!(t.window[1].cells[1].kind.is_none());
}

#[test]
fn nested_records_flatten_into_dotted_columns() {
    let (t, _) = table_of(
        r#"[{"u":{"city":"NY","zip":1}},{"u":{"city":"LA","zip":2}}]"#,
        10,
        80,
    );
    let labels: Vec<&str> = t.cols.iter().map(|c| c.label.as_str()).collect();
    assert_eq!(labels, ["u.city", "u.zip"]);
    assert_eq!(texts(&t, 0), ["\"NY\"", "1"]);
}

#[test]
fn a_column_deeper_than_the_flatten_limit_shows_as_a_brief_value() {
    let (t, _) = table_of(r#"[{"a":{"b":{"c":1}}},{"a":{"b":{"c":2}}}]"#, 10, 80);
    let labels: Vec<&str> = t.cols.iter().map(|c| c.label.as_str()).collect();
    assert_eq!(labels, ["a.b"]);
    assert_eq!(texts(&t, 0), ["{…}"]);
}

#[test]
fn a_map_tabulates_with_its_keys_as_row_labels() {
    let (t, _) = table_of(
        r#"{"AAA":{"v":1},"BBB":{"v":2},"CCC":{"v":3},"DDD":{"v":4}}"#,
        10,
        80,
    );
    assert_eq!(t.cols.len(), 1);
    assert_eq!(t.window[0].label, "AAA");
    assert_eq!(texts(&t, 3), ["4"]);
}

#[test]
fn a_sequence_of_scalars_gets_one_value_column() {
    let (t, _) = table_of(r#"[1,2,3]"#, 10, 80);
    assert_eq!(t.cols[0].label, "value");
    assert_eq!(texts(&t, 2), ["3"]);
}

#[test]
fn only_the_visible_window_is_enumerated() {
    let json: String = format!(
        "[{}]",
        (0..5000)
            .map(|i| format!(r#"{{"i":{i}}}"#))
            .collect::<Vec<_>>()
            .join(",")
    );
    let (t, _) = table_of(&json, 10, 80);
    assert_eq!(t.window.len(), 10);
    assert!(
        t.known <= 10 + ROW_LOOKAHEAD + 2,
        "enumerated {} of 5000 rows for a 10-row window",
        t.known
    );
    assert!(!t.done);
}

#[test]
fn paging_moves_a_whole_page_at_a_time() {
    // The cursor may only land on an enumerated row, so the lookahead is what
    // keeps a page-down from crawling one row per press.
    let json: String = format!(
        "[{}]",
        (0..5000)
            .map(|i| format!(r#"{{"i":{i}}}"#))
            .collect::<Vec<_>>()
            .join(",")
    );
    let b = json.as_bytes();
    let (mut t, mut root) = table_of(&json, 30, 80);
    for page in 1..=5 {
        t.row = (t.row + 30).min(t.known - 1);
        t.refresh(&mut root, b, 30, 80);
        assert_eq!(t.row, page * 30, "page {page} fell short");
    }
}

#[test]
fn scrolling_follows_the_cursor_and_keeps_the_window_full() {
    let json: String = format!(
        "[{}]",
        (0..100)
            .map(|i| format!(r#"{{"i":{i}}}"#))
            .collect::<Vec<_>>()
            .join(",")
    );
    let b = json.as_bytes();
    let (mut t, mut root) = table_of(&json, 10, 80);
    t.row = 42;
    t.refresh(&mut root, b, 10, 80);
    assert_eq!(t.scroll, 33);
    assert_eq!(t.window.len(), 10);
    assert_eq!(t.window[9].label, "42");
}

#[test]
fn the_layout_pins_the_label_gutter_and_pages_columns_sideways() {
    let (mut t, _) = table_of(
        r#"[{"aaaaaaaa":"xxxxxxxxxx","bbbbbbbb":"yyyyyyyyyy","cccccccc":"zzzzzzzzzz"}]"#,
        10,
        30,
    );
    let first = t.layout(30);
    assert_eq!(first[0].0, 0);
    assert!(first.len() < 3, "a 30-col pane can't fit every column");
    // Every visible column starts past the pinned gutter.
    assert!(first.iter().all(|&(_, x, _)| x >= t.label_w + COL_GAP));
    t.hscroll = 2;
    assert_eq!(t.layout(30)[0].0, 2);
}

#[test]
fn a_narrow_pane_still_shows_one_column() {
    let (t, _) = table_of(r#"[{"aaaaaaaaaaaaaaaaaaaa":1}]"#, 10, 4);
    assert_eq!(t.layout(4).len(), 1);
}

#[test]
fn the_cursor_finds_its_cell() {
    let json = r#"[{"u":{"city":"NY"},"n":1},{"n":2}]"#;
    let b = json.as_bytes();
    let (mut t, root) = table_of(json, 10, 80);
    let labels: Vec<&str> = t.cols.iter().map(|c| c.label.as_str()).collect();
    assert_eq!(labels, ["u.city", "n"]);
    assert_eq!(t.cursor_label(), "0.u.city");
    let (start, end, _) = t.cursor_range(&root, b).expect("a cell");
    assert_eq!(&json[start..end], "\"NY\"");
    t.row = 1;
    assert_eq!(t.cursor_range(&root, b), None);
    t.col = 1;
    assert_eq!(t.cursor_label(), "1.n");
    let (start, end, _) = t.cursor_range(&root, b).expect("a cell");
    assert_eq!(&json[start..end], "2");
    t.col = 9;
    assert_eq!(t.cursor_label(), "ROOT");
    assert_eq!(t.cursor_row().map(|r| r.label.as_str()), Some("1"));
}
