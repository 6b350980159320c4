use jview::scanner::{value_kind, Cursor, Kind};
use jview::schema::{
    columns, infer, infer_seq, node_mut, outline, render, rows, set_all_open, to_source, Field,
    Type,
};

fn ts(json: &str) -> String {
    let b = json.as_bytes();
    let ty = infer(b, 0, b.len(), value_kind(b, 0), false);
    to_source(&ty)
}

#[test]
fn merges_object_records_with_optionals() {
    // `b` is missing from the first element → optional; `a` is always present.
    let t = ts(r#"[{"a":1},{"a":2,"b":"x"}]"#);
    assert!(t.contains("a: number"), "{t}");
    assert!(t.contains("b?: string"), "{t}");
    assert!(t.trim_end().ends_with("}[]"), "{t}");
}

#[test]
fn data_keyed_object_is_a_record_map() {
    let t = ts(r#"{"AAA":{"v":1},"BBB":{"v":2},"CCC":{"v":3},"DDD":{"v":4}}"#);
    assert!(t.contains("Record<string, {"), "{t}");
    assert!(t.contains("v: number"), "{t}");
    assert!(!t.contains("AAA"), "keys must not leak: {t}");
}

#[test]
fn nested_map_inside_record() {
    let t = ts(r#"{"owner":"x","positions":{"S1":{"qty":1},"S2":{"qty":2},"S3":{"qty":3}}}"#);
    assert!(t.contains("owner: string"), "{t}");
    assert!(t.contains("positions: Record<string, {"), "{t}");
    assert!(t.contains("qty: number"), "{t}");
}

#[test]
fn mixed_scalars_form_a_union() {
    let t = ts(r#"[1,"x",2,"y"]"#);
    assert!(
        t.contains("number") && t.contains("string") && t.contains('|'),
        "{t}"
    );
}

#[test]
fn disjoint_object_fields_stay_a_record() {
    // address/geo have disjoint keys → a record, not a map.
    let t = ts(r#"{"address":{"street":"x"},"geo":{"lat":1}}"#);
    assert!(t.contains("address: {"), "{t}");
    assert!(!t.contains("Record<"), "should not be a map: {t}");
}

#[test]
fn numeric_keyed_object_is_a_record_number_map() {
    // Numeric keys (a few of them, array values) → Record<number, number[]>.
    let t = ts(r#"{"8960":[2,18],"8970":[2,0],"9000":[1,0],"9120":[10,0]}"#);
    assert_eq!(t, "Record<number, number[]>", "{t}");
}

#[test]
fn numeric_keyed_maps_merge_across_records_instead_of_exploding() {
    // Each record's `lv` map has *different* numeric keys; merged they must
    // collapse to one Record<number, …>, not a union of every key.
    let t = ts(r#"[{"lv":{"10":[1],"20":[2]}},{"lv":{"30":[3],"40":[4]}},{"lv":{"50":[5]}}]"#);
    assert!(t.contains("lv: Record<number, number[]>"), "{t}");
    assert!(!t.contains("10?"), "keys must not explode into fields: {t}");
}

#[test]
fn identifier_keyed_small_object_stays_a_record() {
    // Few entries, identifier keys → a record even though values are uniform.
    let t = ts(r#"{"x":[1],"y":[2],"z":[3]}"#);
    assert!(t.contains("x: number[]"), "{t}");
    assert!(!t.contains("Record<"), "should not be a map: {t}");
}

fn ty_of(json: &str) -> Type {
    let b = json.as_bytes();
    infer(b, 0, b.len(), value_kind(b, 0), false)
}

#[test]
fn outline_starts_fully_open_and_matches_the_flat_render() {
    let t = ty_of(r#"[{"a":1,"user":{"name":"x"}}]"#);
    let o = outline(&t);
    let texts: Vec<String> = rows(&o).into_iter().map(|r| r.text).collect();
    assert_eq!(texts, render(&t), "open outline == the flat render");
}

#[test]
fn folding_a_block_hides_its_children_and_closing_line() {
    let t = ty_of(r#"[{"a":1,"user":{"name":"x","age":2}}]"#);
    let mut o = outline(&t);
    let open = rows(&o);
    // The nested object under `user`.
    let path = open
        .iter()
        .find(|r| r.text.contains("user: {"))
        .expect("a user block")
        .path
        .clone();
    assert!(open.iter().any(|r| r.text.contains("name: string")));

    node_mut(&mut o, &path).unwrap().open = false;
    let folded = rows(&o);
    assert!(folded.len() < open.len(), "folding must drop lines");
    assert!(
        !folded.iter().any(|r| r.text.contains("name: string")),
        "children stay hidden: {folded:?}"
    );
    let line = folded
        .iter()
        .find(|r| r.path == path)
        .expect("the folded line");
    assert!(line.text.contains("user: {…}"), "{}", line.text);
    assert!(line.text.contains("2 fields"), "{}", line.text);
    assert!(line.foldable && !line.open);
}

#[test]
fn folding_keeps_the_type_suffix_on_the_folded_line() {
    // Open, `[]` trails the closing brace; folded, it must trail `{…}`.
    let t = ty_of(r#"[{"a":1}]"#);
    let mut o = outline(&t);
    set_all_open(&mut o, false);
    // The outermost block stays open — folding it away would show nothing.
    assert!(rows(&o).iter().any(|r| r.text.contains("a: number")));
    o[0].open = false;
    let r = rows(&o);
    assert_eq!(r.len(), 1);
    assert!(r[0].text.starts_with("{…}[]"), "{}", r[0].text);
}

#[test]
fn a_closing_line_carries_its_blocks_path() {
    let t = ty_of(r#"{"a":{"b":1}}"#);
    let o = outline(&t);
    let r = rows(&o);
    let close = r.last().unwrap();
    assert!(close.close && close.text == "}");
    assert_eq!(close.path, r[0].path, "closes the block it ends");
}

#[test]
fn collapse_all_folds_nested_blocks_but_keeps_the_root_open() {
    let t = ty_of(r#"{"a":{"b":{"c":1}},"d":2}"#);
    let mut o = outline(&t);
    set_all_open(&mut o, false);
    let r = rows(&o);
    assert!(r.iter().any(|x| x.text.contains("d: number")), "{r:?}");
    assert!(r.iter().any(|x| x.text.contains("a: {…}")), "{r:?}");
    assert!(!r.iter().any(|x| x.text.contains("c: number")), "{r:?}");

    set_all_open(&mut o, true);
    assert_eq!(
        rows(&o).into_iter().map(|x| x.text).collect::<Vec<_>>(),
        render(&t),
        "expand-all restores every line"
    );
}

#[test]
fn scalars_and_empty_objects_are_not_foldable() {
    let t = ty_of(r#"{"a":1,"e":{}}"#);
    let r = rows(&outline(&t));
    for line in r.iter().filter(|x| x.depth > 0) {
        assert!(!line.foldable, "{}", line.text);
    }
}

fn cols_of(json: &str) -> (Vec<String>, usize) {
    let (cols, total) = columns(&ty_of(json)).expect("tabular");
    (cols.into_iter().map(|c| c.label).collect(), total)
}

#[test]
fn a_lone_record_has_no_columns() {
    assert!(columns(&ty_of(r#"{"a":1,"b":2}"#)).is_none());
    assert!(columns(&ty_of(r#"42"#)).is_none());
}

#[test]
fn sparse_columns_are_dropped_and_counted() {
    // `rare` shows up in 1 of 100 rows — below the fill floor.
    let rows: Vec<String> = (0..100)
        .map(|i| {
            if i == 0 {
                r#"{"a":1,"rare":2}"#.to_string()
            } else {
                r#"{"a":1}"#.to_string()
            }
        })
        .collect();
    let (labels, total) = cols_of(&format!("[{}]", rows.join(",")));
    assert_eq!(labels, ["a"]);
    assert_eq!(total, 2, "the dropped column is still counted");
}

#[test]
fn a_nested_columns_fill_rate_compounds_with_its_parents() {
    // `u` in half the rows, `city` in half of those → 25%.
    let (cols, _) =
        columns(&ty_of(r#"[{"u":{"city":"NY"}},{"u":{}},{"x":1},{"x":1}]"#)).unwrap();
    let city = cols.iter().find(|c| c.label == "u.city").expect("u.city");
    assert_eq!(city.fill, 25);
}

#[test]
fn rows_of_mixed_shapes_tabulate_on_the_record_arm() {
    let (labels, _) = cols_of(r#"[{"a":1},{"a":2},"loose string"]"#);
    assert_eq!(labels, ["a"]);
}

#[test]
fn a_synthetic_sequence_infers_like_an_array() {
    // Two objects that aren't siblings in the file (a filter pane's hits).
    let doc = r#"{"x":{"a":1},"y":{"a":2,"b":"s"}}"#;
    let b = doc.as_bytes();
    let items = [
        (doc.find(r#"{"a":1}"#).unwrap(), doc.len(), Kind::Object),
        (doc.find(r#"{"a":2"#).unwrap(), doc.len(), Kind::Object),
    ];
    let t = to_source(&infer_seq(b, &items));
    assert!(t.contains("a: number"), "{t}");
    assert!(t.contains("b?: string"), "{t}");
    assert!(t.trim_end().ends_with("}[]"), "{t}");
}

#[test]
fn stats_record_with_many_numeric_fields_stays_a_record() {
    // A counters/stats object: many identifier keys, mostly numbers, one nested
    // map. It must stay a record (the nested `dict` becomes a Record<>).
    let t = ts(
        r#"{"buys_placed":22464,"cold_book_skips":75173,"dict":{"AAA":{"v":1},"AAM":{"v":2},"AAT":{"v":3}},"last_update":1784169321396,"sells_placed":177,"signals_blocked":12707811,"thin_book_skips":139091,"tick":19481645}"#,
    );
    assert!(t.starts_with('{'), "top must be a record, not a map: {t}");
    assert!(t.contains("buys_placed: number"), "{t}");
    assert!(t.contains("dict: Record<string, {"), "{t}");
}

#[test]
fn a_key_that_is_repeated_counts_once() {
    let (cols, total) = columns(&ty_of(r#"[{"a":1,"a":2}]"#)).unwrap();
    assert_eq!((cols.len(), total), (1, 1));
    assert_eq!((cols[0].label.as_str(), cols[0].fill), ("a", 100));
    let (cols, _) = columns(&ty_of(r#"[{"a":1,"a":2,"b":0},{"b":1}]"#)).unwrap();
    let a = cols.iter().find(|c| c.label == "a").expect("a");
    assert_eq!(a.fill, 50);
    let t = ts(r#"[{"a":1,"a":"x"},{}]"#);
    assert!(t.contains("a?: "), "{t}");
    assert!(t.contains("number") && t.contains("string"), "{t}");
}

#[test]
fn the_elements_of_an_array_infer_like_the_array() {
    for doc in [
        r#"[{"a":1},{"a":2,"b":"s"},[1,"x"],null]"#,
        r#"[[1,2],[],[{"k":true}]]"#,
        r#"[1, "two", 3.5]"#,
        "[]",
    ] {
        let b = doc.as_bytes();
        let mut cursor = Cursor::new(0, b.len(), true);
        let mut items = Vec::new();
        while let Some(c) = cursor.next(b) {
            items.push((c.start, c.end, c.kind));
        }
        assert_eq!(
            to_source(&infer_seq(b, &items)),
            to_source(&infer(b, 0, b.len(), Kind::Array, false)),
            "{doc}"
        );
    }
}

#[test]
fn folding_everything_leaves_one_line_for_each_field() {
    let t = ty_of(r#"{"a":{"b":{"c":1}},"d":[{"e":{"f":2}}],"g":3}"#);
    let mut o = outline(&t);
    set_all_open(&mut o, false);
    let lines: Vec<(usize, usize)> = rows(&o).iter().map(|r| (r.depth, r.path.len())).collect();
    assert_eq!(lines, vec![(0, 1), (1, 2), (1, 2), (1, 2), (0, 1)]);
}

#[test]
fn a_type_written_by_hand_is_rendered_whatever_its_counts() {
    let field = |present: usize, total: usize| Field {
        name: "a".to_string(),
        ty: Type::Num,
        present,
        total,
    };
    let text = |f: Field| to_source(&Type::Object(vec![f]));
    assert_eq!(text(field(3, 2)), "{\n  a: number\n}");
    assert_eq!(text(field(1, 3)), "{\n  a?: number   // 33%\n}");
    assert!(text(field(usize::MAX - 1, usize::MAX)).contains("// 99%"));
}
