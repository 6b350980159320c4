use jview::tree::{
    get, join_path, make_root, parse_path, resolve_path, resolve_with_climb, ParsedPath, Seg,
};

#[test]
fn join_path_dots_keys_and_brackets_indices() {
    let segs = vec![
        ("data".to_string(), false),
        ("users".to_string(), false),
        ("3".to_string(), true),
        ("city".to_string(), false),
    ];
    assert_eq!(join_path("", &segs), "data.users[3].city");
    assert_eq!(join_path("", &[("0".to_string(), true)]), "[0]");
    assert_eq!(join_path("", &[]), "root");
}

#[test]
fn parse_path_tokenizes_keys_and_indices() {
    // A bare path is absolute (no climb).
    let p = parse_path("data.users[3].city");
    assert_eq!(p.up, None);
    assert_eq!(
        p.segs,
        vec![
            Seg::Key("data".into()),
            Seg::Key("users".into()),
            Seg::Index(3),
            Seg::Key("city".into())
        ]
    );
    // `$` marks absolute; the dot right after `$` is optional.
    assert_eq!(
        parse_path("$.a"),
        ParsedPath {
            up: None,
            segs: vec![Seg::Key("a".into())]
        }
    );
    // Bracketed (optionally quoted) key holds a literal dot.
    assert_eq!(
        parse_path(r#"["x.y"][2]"#).segs,
        vec![Seg::Key("x.y".into()), Seg::Index(2)]
    );
    assert_eq!(
        parse_path(""),
        ParsedPath {
            up: None,
            segs: vec![]
        }
    );
}

#[test]
fn parse_path_relative_leading_dots() {
    // One dot → from the focused node (climb 0).
    assert_eq!(
        parse_path(".actor.login"),
        ParsedPath {
            up: Some(0),
            segs: vec![Seg::Key("actor".into()), Seg::Key("login".into())]
        }
    );
    // Two dots → climb to the parent first (sibling access); three → climb two.
    assert_eq!(parse_path("..sibling").up, Some(1));
    assert_eq!(parse_path("...x").up, Some(2));
    // Bare `.`/`..` are valid jumps with no descent.
    assert_eq!(
        parse_path("."),
        ParsedPath {
            up: Some(0),
            segs: vec![]
        }
    );
    assert_eq!(
        parse_path(".."),
        ParsedPath {
            up: Some(1),
            segs: vec![]
        }
    );
    // A relative path can lead straight into a bracket: `.[0]`.
    assert_eq!(
        parse_path(".[0]"),
        ParsedPath {
            up: Some(0),
            segs: vec![Seg::Index(0)]
        }
    );
}

#[test]
fn resolve_path_walks_the_lazy_tree() {
    let b = br#"{"a":{"b":[10,20,30]}}"#;
    let mut root = make_root(b, "t", false);
    let path = resolve_path(&mut root, b, &[], &parse_path("a.b[1]").segs).expect("resolved");
    let node = get(&root, &path);
    assert_eq!(&b[node.start..node.end], b"20");
    // A missing key resolves to None.
    assert!(resolve_path(&mut root, b, &[], &parse_path("a.nope").segs).is_none());
}

#[test]
fn resolve_with_climb_falls_back_to_ancestors() {
    let b = br#"{"a":{"b":{"city":"X","id":1},"c":{"city":"Y"}}}"#;
    let mut root = make_root(b, "t", false);
    // Focus deep on a.b.id (a scalar leaf).
    let focus = resolve_path(&mut root, b, &[], &parse_path("a.b.id").segs).expect("focus");
    // Bare `city` is absent at the root and a.b.id is a scalar, so it climbs
    // to a.b → a.b.city = "X" (the nearest ancestor that has it).
    let p = resolve_with_climb(&mut root, b, &focus, &parse_path("city")).expect("climbed");
    assert_eq!(&b[get(&root, &p).start..get(&root, &p).end], b"\"X\"");
    // An explicit absolute path still resolves from the root first.
    let p = resolve_with_climb(&mut root, b, &focus, &parse_path("a.c.city")).expect("abs");
    assert_eq!(&b[get(&root, &p).start..get(&root, &p).end], b"\"Y\"");
    // A genuinely-absent key resolves nowhere, even after climbing.
    assert!(resolve_with_climb(&mut root, b, &focus, &parse_path("nope")).is_none());
}

#[test]
fn resolve_path_globs_keys() {
    // `*`/`?` in a key segment match the whole label, case-insensitively,
    // and take the first child that fits. Plain keys still need an exact hit.
    let b = br#"{"users":{"firstName":"Ada","lastName":"L","age":36}}"#;
    let mut root = make_root(b, "t", false);
    let p = resolve_path(&mut root, b, &[], &parse_path("users.first*").segs).expect("glob *");
    assert_eq!(&b[get(&root, &p).start..get(&root, &p).end], b"\"Ada\"");
    let p =
        resolve_path(&mut root, b, &[], &parse_path("users.*Name").segs).expect("glob suffix");
    // *Name matches firstName (the first child that fits the whole pattern).
    assert_eq!(&b[get(&root, &p).start..get(&root, &p).end], b"\"Ada\"");
    let p = resolve_path(&mut root, b, &[], &parse_path("users.a?e").segs).expect("glob ?");
    assert_eq!(&b[get(&root, &p).start..get(&root, &p).end], b"36");
    // Globs are anchored at both ends — `first` (without `*`) is exact, so it misses.
    assert!(resolve_path(&mut root, b, &[], &parse_path("users.first").segs).is_none());
    // A glob with no child matching the whole pattern resolves to None.
    assert!(resolve_path(&mut root, b, &[], &parse_path("users.zz*").segs).is_none());
}

#[test]
fn resolve_path_descends_from_a_base() {
    let b = br#"{"a":{"b":[10,20,30],"c":99}}"#;
    let mut root = make_root(b, "t", false);
    // Establish a base path (`a`), then descend relatively from it.
    let base = resolve_path(&mut root, b, &[], &parse_path("a").segs).expect("base");
    let p = resolve_path(&mut root, b, &base, &parse_path(".b[2]").segs).expect("relative");
    let node = get(&root, &p);
    assert_eq!(&b[node.start..node.end], b"30");
    // Empty segments from a base resolve to the base node itself.
    assert_eq!(
        resolve_path(&mut root, b, &base, &[]).expect("base itself"),
        base
    );
}
