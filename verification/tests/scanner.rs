use jview::scanner::{
    container_empty, decode_str, is_ws, skip_container, skip_string, skip_value, skip_ws,
    value_kind, Cursor, Kind, Step,
};

fn children(b: &[u8], mut cur: Cursor) -> Vec<(String, String)> {
    let mut out = Vec::new();
    while let Some(c) = cur.next(b) {
        out.push((
            c.label,
            String::from_utf8_lossy(&b[c.start..c.end]).into_owned(),
        ));
    }
    out
}

fn pair(label: &str, value: &str) -> (String, String) {
    (label.to_string(), value.to_string())
}

#[test]
fn whitespace_strings_and_containers_are_skipped() {
    let b = br#"  {"a\"}":[1,{"b":"]"}]} ,"#;
    assert!(is_ws(b' ') && is_ws(b'\n') && !is_ws(b'x'));
    assert_eq!(skip_ws(b, 0, b.len()), 2);
    assert_eq!(skip_string(b, 3, b.len()), 9);
    assert_eq!(skip_container(b, 2, b.len()), 24);
    assert_eq!(skip_value(b, 0, b.len()), 24);
    assert_eq!(skip_value(b"12.5e3,4", 0, 8), 6);
    // What never ends ends with the buffer.
    assert_eq!(skip_value(b"[1,2", 0, 4), 4);
}

#[test]
fn the_first_byte_tells_the_kind() {
    assert_eq!(value_kind(b"{}", 0), Kind::Object);
    assert_eq!(value_kind(b"[]", 0), Kind::Array);
    assert_eq!(value_kind(b"\"\"", 0), Kind::Str);
    assert_eq!(value_kind(b"true", 0), Kind::Bool);
    assert_eq!(value_kind(b"false", 0), Kind::Bool);
    assert_eq!(value_kind(b"null", 0), Kind::Null);
    assert_eq!(value_kind(b"-1", 0), Kind::Number);
}

#[test]
fn an_empty_container_is_told_from_a_full_one() {
    assert!(container_empty(b"{ }", 0, 3));
    assert!(container_empty(b"[\n]", 0, 3));
    assert!(!container_empty(b"[0]", 0, 3));
}

#[test]
fn escapes_are_decoded() {
    let b = br#""a\n\t\"\\\/\u0041\ud83e\udd80""#;
    assert_eq!(decode_str(b, 0, b.len()), "a\n\t\"\\/A🦀");
    // Half a surrogate pair is left out; bytes that are no UTF-8 are replaced.
    let lone = br#""\ud83e!""#;
    assert_eq!(decode_str(lone, 0, lone.len()), "!");
    let bad = b"\"a\xffb\"";
    assert_eq!(decode_str(bad, 0, bad.len()), "a\u{fffd}b");
}

#[test]
fn a_cursor_hands_out_every_child() {
    let b = br#"[1, "two", [3], {"f":4}]"#;
    assert_eq!(
        children(b, Cursor::new(0, b.len(), true)),
        vec![
            pair("0", "1"),
            pair("1", "\"two\""),
            pair("2", "[3]"),
            pair("3", "{\"f\":4}")
        ]
    );
    let o = br#"{"a":1,"b":{"c":2}}"#;
    assert_eq!(
        children(o, Cursor::new(0, o.len(), false)),
        vec![pair("a", "1"), pair("b", "{\"c\":2}")]
    );
}

#[test]
fn a_line_cursor_hands_out_every_document() {
    let b = b"{\"a\":1}\n[2]\n\"x\"\n";
    assert_eq!(
        children(b, Cursor::lines(0, b.len())),
        vec![pair("0", "{\"a\":1}"), pair("1", "[2]"), pair("2", "\"x\"")]
    );
}

#[test]
fn a_truncated_object_hands_out_what_is_there() {
    let b = br#"{"a":1,"b":"#;
    assert_eq!(
        children(b, Cursor::new(0, b.len(), false)),
        vec![pair("a", "1")]
    );
}

#[test]
fn stepping_gives_the_same_children_bit_by_bit() {
    let doc = format!("[[{}],7]", vec!["1"; 400].join(","));
    let b = doc.as_bytes();
    let mut cur = Cursor::new(0, b.len(), true);
    let mut labels = Vec::new();
    let mut yields = 0;
    loop {
        match cur.step(b, 16) {
            Step::Child(c) => labels.push((c.label, c.start, c.kind)),
            Step::Yield => yields += 1,
            Step::Done => break,
        }
    }
    assert!(yields > 10);
    let mut whole = Cursor::new(0, b.len(), true);
    let mut expected = Vec::new();
    while let Some(c) = whole.next(b) {
        expected.push((c.label, c.start, c.kind));
    }
    assert_eq!(labels, expected);
}

#[test]
fn a_surrogate_pair_is_one_character() {
    let decoded = |text: &str| decode_str(text.as_bytes(), 0, text.len());
    assert_eq!(decoded(r#""\ud83e\udd80""#), "🦀");
    assert_eq!(decoded(r#""\uD83E\uDD80x""#), "🦀x");
    assert_eq!(decoded(r#""\ud800\udc00""#), "\u{10000}");
    assert_eq!(decoded(r#""\udbff\udfff""#), "\u{10ffff}");
    // The low half alone, the halves the wrong way round, and a high half in front of
    // an escape that is no low half.
    assert_eq!(decoded(r#""\udd80a""#), "a");
    assert_eq!(decoded(r#""\udd80\ud83e.""#), ".");
    assert_eq!(decoded(r#""\ud83e\u0041""#), "A");
    assert_eq!(decoded(r#""\ud83e\n""#), "\n");
    assert_eq!(decoded(r#""\ud83e\ud83e\udd80""#), "🦀");
}

#[test]
fn a_container_cut_off_behind_a_backslash_reaches_past_the_bytes() {
    let b = br#"[["\"#;
    assert_eq!(b.len(), 4);
    let mut cursor = Cursor::new(0, b.len(), true);
    let inner = cursor.next(b).expect("the inner array");
    assert_eq!((inner.start, inner.end, inner.kind), (1, 5, Kind::Array));
    assert!(cursor.next(b).is_none());
    // What stands in it is found all the same, and no byte behind the last is read.
    let mut cursor = Cursor::new(inner.start, inner.end, true);
    let text = cursor.next(b).expect("the string");
    assert_eq!((text.start, text.end, text.kind), (2, 5, Kind::Str));
    assert_eq!(decode_str(b, text.start, text.end), "\\");
    assert!(cursor.next(b).is_none());
    for odd in [&br#"[[a"\"#[..], br#"[["x":"\"#, br#"{"k":{"k":["\"#] {
        let mut cursor = Cursor::new(0, odd.len(), odd[0] == b'[');
        let c = cursor.next(odd).expect("a container");
        assert_eq!(c.end, odd.len() + 1);
        let mut below = Cursor::new(c.start, c.end, c.kind == Kind::Array);
        assert!(below.next(odd).is_some());
        while below.next(odd).is_some() {}
    }
}

#[test]
fn text_is_kept_verbatim() {
    for t in ["", "plain", "näme ☃ 🦀", "a:[{,}]b"] {
        let doc = format!("\"{t}\"");
        assert_eq!(decode_str(doc.as_bytes(), 0, doc.len()), t);
    }
}
