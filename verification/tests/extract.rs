use jview::extract::{value_slice, value_slices};

/// A value's end can be provisional: for a collapsed container it runs to the
/// parent's bound. The real closer has to be found, so that just the node comes out,
/// not its trailing siblings; one newline makes a clean pipe line of it.
#[test]
fn write_extract_slices_the_subtree_with_trailing_newline() {
    let b = br#"{"a":{"b":[1,2,3]},"c":9}"#;
    let inner = b[1..].iter().position(|&c| c == b'{').unwrap() + 1; // second `{`
    assert_eq!(inner, 5, "inner object starts at the second brace");
    // A deliberately over-long provisional end (whole doc).
    let mut got = value_slice(b, inner, b.len()).to_vec();
    got.push(b'\n');
    assert_eq!(got, b"{\"b\":[1,2,3]}\n");
}

/// Each hit's real slice goes on its own line: provisional ends are resolved, so hits
/// never bleed into siblings.
#[test]
fn write_extract_all_emits_one_ndjson_line_per_hit() {
    let b = br#"[{"n":"a"},{"n":"b"},{"n":"c"}]"#;
    let ranges: Vec<(usize, usize)> = b
        .iter()
        .enumerate()
        .filter(|(_, &c)| c == b'{')
        .map(|(i, _)| (i, b.len()))
        .collect();
    assert_eq!(ranges.len(), 3);
    let mut got: Vec<u8> = Vec::new();
    for slice in value_slices(b, &ranges) {
        got.extend_from_slice(slice);
        got.push(b'\n');
    }
    assert_eq!(got, b"{\"n\":\"a\"}\n{\"n\":\"b\"}\n{\"n\":\"c\"}\n");
}

#[test]
fn whitespace_behind_a_value_is_left_out() {
    let b = b"{\"a\":1}  \n\n";
    assert_eq!(value_slice(b, 0, b.len()), b"{\"a\":1}");
    let number = b"42 \t\r\n";
    assert_eq!(value_slice(number, 0, number.len()), b"42");
}

#[test]
fn an_unfinished_string_ends_with_the_buffer() {
    let b = br#"["abc"#;
    assert_eq!(value_slice(b, 1, b.len() + 1), br#""abc"#);
}
