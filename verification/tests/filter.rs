use jview::filter::{self, parse_pipeline, FilterHit};
use jview::scanner::{skip_value, skip_ws, value_kind, Kind};
use jview::worker::Outlet;
use std::sync::atomic::AtomicBool;
use std::sync::mpsc::channel;

fn hits(src: &[u8], expr: &str, jsonl: bool) -> Vec<FilterHit> {
    let program = parse_pipeline(expr).expect("parse");
    let end = src.len();
    let (start, kind) = if jsonl {
        (0, Kind::Array)
    } else {
        let s = skip_ws(src, 0, end);
        (s, value_kind(src, s))
    };
    let (tx, rx) = channel();
    let cancel = AtomicBool::new(false);
    let read = |t: &str| t.parse::<f64>().map_or(0, f64::to_bits);
    let mut out = Outlet::new(&tx, &cancel);
    filter::run(src, &program, jsonl, start, end, kind, &read, &mut out);
    drop(tx);
    rx.iter().collect()
}

fn run(src: &[u8], expr: &str, jsonl: bool) -> Vec<String> {
    hits(src, expr, jsonl)
        .iter()
        .map(|h| {
            // Container hits carry a provisional end; the viewer resolves the real
            // closer lazily, so do the same here.
            let end = skip_value(src, h.start, src.len());
            String::from_utf8_lossy(&src[h.start..end]).into_owned()
        })
        .collect()
}

#[test]
fn field_access() {
    let b = br#"{"a":{"b":42},"c":7}"#;
    assert_eq!(run(b, ".a.b", false), vec!["42"]);
    assert_eq!(run(b, ".c", false), vec!["7"]);
}

#[test]
fn iterate_and_project() {
    let b = br#"{"users":[{"name":"amy"},{"name":"bob"}]}"#;
    assert_eq!(
        run(b, ".users[] | .name", false),
        vec!["\"amy\"", "\"bob\""]
    );
}

#[test]
fn iterate_object_values() {
    let b = br#"{"x":1,"y":2,"z":3}"#;
    assert_eq!(run(b, ".[]", false), vec!["1", "2", "3"]);
}

#[test]
fn select_numeric_comparison() {
    let b = br#"[{"age":20},{"age":40},{"age":60}]"#;
    assert_eq!(
        run(b, ".[] | select(.age > 30) | .age", false),
        vec!["40", "60"]
    );
}

#[test]
fn select_string_equality() {
    let b = br#"[{"t":"x"},{"t":"y"},{"t":"x"}]"#;
    let hits = run(b, ".[] | select(.t == \"x\")", false);
    assert_eq!(hits, vec![r#"{"t":"x"}"#, r#"{"t":"x"}"#]);
}

#[test]
fn select_truthy() {
    let b = br#"[{"ok":true,"n":1},{"ok":false,"n":2},{"n":3}]"#;
    assert_eq!(run(b, ".[] | select(.ok) | .n", false), vec!["1"]);
}

#[test]
fn index_and_bracket_key() {
    let b = br#"{"a.b":[10,20,30]}"#;
    assert_eq!(run(b, r#"["a.b"][1]"#, false), vec!["20"]);
    assert_eq!(run(b, r#"["a.b"] | .[2]"#, false), vec!["30"]);
}

#[test]
fn missing_paths_are_lenient() {
    let b = br#"[{"a":1},{"b":2},{"a":3}]"#;
    assert_eq!(run(b, ".[] | .a", false), vec!["1", "3"]);
}

#[test]
fn ndjson_feeds_each_document() {
    let b = b"{\"n\":1}\n{\"n\":2}\n{\"n\":3}\n";
    assert_eq!(run(b, ".n", true), vec!["1", "2", "3"]);
    assert_eq!(run(b, "select(.n >= 2) | .n", true), vec!["2", "3"]);
}

#[test]
fn identity_returns_the_whole_value() {
    let b = br#"{"a":1}"#;
    assert_eq!(run(b, ".", false), vec![r#"{"a":1}"#]);
}

// --- new: recursive descent, slices, negatives, comma, boolean select ----

#[test]
fn recursive_descent_visits_every_descendant() {
    let b = br#"{"x":[1,2],"y":{"z":3}}"#;
    // `.. | numbers`-style: keep only the number nodes anywhere in the tree.
    assert_eq!(run(b, ".. | select(. >= 2)", false), vec!["2", "3"]);
}

#[test]
fn recursive_descent_finds_a_key_at_any_depth() {
    let b = br#"{"a":{"id":1},"b":[{"id":2},{"id":3}]}"#;
    assert_eq!(run(b, ".. | .id", false), vec!["1", "2", "3"]);
}

#[test]
fn negative_index_counts_from_the_end() {
    let b = br#"[10,20,30,40]"#;
    assert_eq!(run(b, ".[-1]", false), vec!["40"]);
    assert_eq!(run(b, ".[-2]", false), vec!["30"]);
}

#[test]
fn slices_stream_the_elements_in_range() {
    let b = br#"[10,20,30,40,50]"#;
    assert_eq!(run(b, ".[1:3]", false), vec!["20", "30"]);
    assert_eq!(run(b, ".[:2]", false), vec!["10", "20"]);
    assert_eq!(run(b, ".[3:]", false), vec!["40", "50"]);
    assert_eq!(run(b, ".[-2:]", false), vec!["40", "50"]);
}

#[test]
fn comma_unions_outputs() {
    let b = br#"{"a":1,"b":2,"c":3}"#;
    assert_eq!(run(b, ".a, .c", false), vec!["1", "3"]);
    // comma binds tighter than pipe: (.a, .b) each piped to the next stage
    let d = br#"{"a":{"n":1},"b":{"n":2}}"#;
    assert_eq!(run(d, ".a, .b | .n", false), vec!["1", "2"]);
}

#[test]
fn select_boolean_and_or_and_grouping() {
    let b = br#"[{"age":25,"vip":false},{"age":70,"vip":false},{"age":18,"vip":true}]"#;
    // over 65 OR vip
    assert_eq!(
        run(b, ".[] | select(.age > 65 or .vip) | .age", false),
        vec!["70", "18"]
    );
    // between 20 and 30
    assert_eq!(
        run(b, ".[] | select(.age >= 20 and .age <= 30) | .age", false),
        vec!["25"]
    );
    // grouping: (young or vip) and not-70 — expressed with and/or + parens
    assert_eq!(
        run(b, ".[] | select((.vip or .age < 20)) | .age", false),
        vec!["18"]
    );
}

#[test]
fn select_path_vs_path_comparison() {
    let b = br#"[{"lo":1,"hi":5},{"lo":9,"hi":2}]"#;
    assert_eq!(run(b, ".[] | select(.lo < .hi) | .lo", false), vec!["1"]);
}

#[test]
fn select_missing_is_null() {
    let b = br#"[{"x":1},{"y":2}]"#;
    // The element lacking `x` reads as x==null and is kept.
    assert_eq!(
        run(b, ".[] | select(.x == null)", false),
        vec![r#"{"y":2}"#]
    );
}

#[test]
fn select_regex_match() {
    let b = br#"[{"name":"amy"},{"name":"bob"},{"name":"al"}]"#;
    // `re:` anchors a real regex: names starting with 'a'.
    assert_eq!(
        run(b, r#".[] | select(.name ~ "re:^a") | .name"#, false),
        vec!["\"amy\"", "\"al\""]
    );
}

#[test]
fn select_substring_and_glob_match() {
    let b = br#"[{"f":"report.pdf"},{"f":"notes.txt"},{"f":"scan.pdf"}]"#;
    // Plain text is a case-insensitive substring (same as `/`).
    assert_eq!(
        run(b, r#".[] | select(.f ~ "PDF") | .f"#, false),
        vec!["\"report.pdf\"", "\"scan.pdf\""]
    );
    // `g:` is a shell-style glob, so the literal dot must match.
    assert_eq!(
        run(b, r#".[] | select(.f ~ "g:*.txt") | .f"#, false),
        vec!["\"notes.txt\""]
    );
}

#[test]
fn select_negated_match_and_non_strings() {
    let b = br#"[{"t":"aa"},{"t":"bb"},{"t":7},{"x":1}]"#;
    // `!~` keeps strings that don't match; the number and the missing field
    // are non-strings, so they never match and `!~` keeps them too.
    assert_eq!(
        run(b, r#".[] | select(.t !~ "aa")"#, false),
        vec![r#"{"t":"bb"}"#, r#"{"t":7}"#, r#"{"x":1}"#]
    );
}

#[test]
fn select_match_composes_with_boolean_ops() {
    let b = br#"[{"name":"amy","age":40},{"name":"al","age":10},{"name":"bo","age":50}]"#;
    assert_eq!(
        run(
            b,
            r#".[] | select(.name ~ "re:^a" and .age > 30) | .name"#,
            false
        ),
        vec!["\"amy\""]
    );
}

#[test]
fn parse_errors_are_reported() {
    assert!(parse_pipeline(".foo[").is_err());
    assert!(parse_pipeline("select(.a >)").is_err());
    assert!(parse_pipeline("select(.a and)").is_err());
    assert!(parse_pipeline("select((.a)").is_err());
    // `~` needs a string pattern, and a bad regex is reported at parse time.
    assert!(parse_pipeline("select(.a ~ 3)").is_err());
    assert!(parse_pipeline(r#"select(.a ~ "re:(")"#).is_err());
}

#[test]
fn errors_say_what_is_wrong() {
    for expr in [
        ".foo[", "foo(", ".[x]", "select(", "select()", "select(.a ~ 3)",
    ] {
        assert!(parse_pipeline(expr).is_err(), "{expr}");
    }
    let e = parse_pipeline("select(.a ~ \"re:(\")").err().unwrap();
    assert!(e.starts_with("bad pattern"), "{e}");
}

#[test]
fn numbers_compare_by_value() {
    let b = br#"[1, 1.0, 1e0, -0.0, 0, 2.5e1, -3]"#;
    assert_eq!(run(b, ".[] | select(. == 1)", false), vec!["1", "1.0", "1e0"]);
    assert_eq!(run(b, ".[] | select(. == 0)", false), vec!["-0.0", "0"]);
    assert_eq!(run(b, ".[] | select(. < 0)", false), vec!["-3"]);
    assert_eq!(run(b, ".[] | select(. >= 25)", false), vec!["2.5e1"]);
}

#[test]
fn hits_carry_their_labels() {
    let b = br#"{"a":{"k":1},"b":[7]}"#;
    let found = hits(b, ".a.k, .b[0]", false);
    let labels: Vec<&str> = found.iter().map(|h| h.label.as_str()).collect();
    assert_eq!(labels, ["a.k", "b[0]"]);
}

#[test]
fn a_filter_stops_at_its_limit() {
    let doc = format!("[{}]", vec!["0"; filter::MAX_HITS + 7].join(","));
    assert_eq!(hits(doc.as_bytes(), ".[]", false).len(), filter::MAX_HITS);
}

#[test]
fn an_index_outside_the_array_selects_nothing() {
    let b = b"[10,20,30]";
    assert_eq!(run(b, ".[2]", false), vec!["30"]);
    assert!(run(b, ".[3]", false).is_empty());
    assert!(run(b, ".[99]", false).is_empty());
    assert_eq!(run(b, ".[-3]", false), vec!["10"]);
    assert!(run(b, ".[-4]", false).is_empty());
    assert_eq!(run(b, ".[1:99]", false), vec!["20", "30"]);
    assert!(run(b"[]", ".[0]", false).is_empty());
}
