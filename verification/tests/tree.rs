use jview::scanner::Kind;
use jview::tree::{flatten, make_root, parse_path, resolve_with_climb, Node};
use serde_json::Value;

/// Deterministic xorshift64* PRNG — reproducible, and no `rand` dependency.
struct Rng(u64);
impl Rng {
    fn next(&mut self) -> u64 {
        let mut x = self.0;
        x ^= x >> 12;
        x ^= x << 25;
        x ^= x >> 27;
        self.0 = x;
        x.wrapping_mul(0x2545_F491_4F6C_DD1D)
    }
    fn below(&mut self, n: u64) -> u64 {
        self.next() % n
    }
}

/// A short random string spanning the bytes that stress JSON decoding —
/// quotes, backslashes, control chars, and multi-byte UTF-8 — all of which
/// serde_json escapes on the way out and our `decode_str` must restore.
fn gen_string(rng: &mut Rng) -> String {
    const POOL: &[char] = &[
        'a', 'Z', '0', '"', '\\', '/', '\n', '\t', '\u{1}', ' ', ':', '{', '[', ']', ',', 'é',
        '☃', '🦀',
    ];
    (0..rng.below(8))
        .map(|_| POOL[(rng.next() as usize) % POOL.len()])
        .collect()
}

/// Build a random JSON value, depth-limited. Object keys are index-prefixed so
/// they're unique — otherwise serde_json's last-wins map would disagree with
/// our tree, which keeps every child.
fn gen_json(rng: &mut Rng, depth: u32) -> serde_json::Value {
    // At depth 0 emit a scalar only (arms 4..=8 below).
    let pick = if depth == 0 {
        rng.below(5) + 4
    } else {
        rng.below(9)
    };
    match pick {
        0 => Value::Array(
            (0..rng.below(5))
                .map(|_| gen_json(rng, depth - 1))
                .collect(),
        ),
        1 => {
            let mut m = serde_json::Map::new();
            for i in 0..rng.below(5) {
                m.insert(
                    format!("k{i}_{}", gen_string(rng)),
                    gen_json(rng, depth - 1),
                );
            }
            Value::Object(m)
        }
        2 | 3 => Value::Bool(rng.next() & 1 == 0),
        4 => Value::Null,
        5 | 6 => Value::from((rng.next() as i64).wrapping_sub(i64::MAX / 2)),
        7 => {
            // Use the float only if serde_json round-trips it bit-for-bit.
            // (A few extreme denormals don't — that's the oracle's float
            // fidelity, not our scanner, and would make the test flaky.)
            let f = f64::from_bits(rng.next());
            let round_trips = f.is_finite()
                && serde_json::from_str::<f64>(&serde_json::to_string(&f).unwrap())
                    .is_ok_and(|g| g.to_bits() == f.to_bits());
            if round_trips {
                Value::from(f)
            } else {
                Value::from((rng.next() as i64).wrapping_sub(i64::MAX / 2))
            }
        }
        _ => Value::String(gen_string(rng)),
    }
}

/// Fully materialize the lazy tree into a serde_json::Value: walk every child
/// (scanning each container on the way) and re-parse scalar byte ranges with
/// serde_json. So this exercises *our* structural scan and boundary-finding;
/// scalar decoding is delegated to the oracle on the exact range we located.
fn materialize(node: &mut Node, b: &[u8]) -> serde_json::Value {
    if !node.is_container() {
        return serde_json::from_slice(&b[node.start..node.end]).expect("scalar slice parses");
    }
    if node.has_children && !node.expanded {
        node.toggle();
    }
    if node.has_children {
        let mut i = 0;
        loop {
            node.ensure_child(b, i);
            if i >= node.children.len() {
                break;
            }
            i += 1;
        }
    }
    if matches!(node.kind, Kind::Array) {
        Value::Array(
            node.children
                .iter_mut()
                .map(|c| materialize(c, b))
                .collect(),
        )
    } else {
        let mut m = serde_json::Map::new();
        for c in node.children.iter_mut() {
            let k = c.label.clone();
            m.insert(k, materialize(c, b));
        }
        Value::Object(m)
    }
}

/// **Oracle test.** For thousands of random documents — in both compact and
/// pretty (whitespace-heavy) encodings — our lazy byte-range tree must
/// reconstruct exactly what serde_json parses from the same bytes. This is the
/// correctness backbone of the lazy parser: if a boundary is off by a byte,
/// this fails.
#[test]
fn lazy_tree_matches_serde_json() {
    let mut rng = Rng(0xDEAD_BEEF_CAFE_F00D);
    for _ in 0..2000 {
        let expected = gen_json(&mut rng, 4);
        for encoded in [
            serde_json::to_string(&expected).unwrap(),
            serde_json::to_string_pretty(&expected).unwrap(),
        ] {
            let b = encoded.as_bytes();
            let mut root = make_root(b, "t", false);
            assert_eq!(
                materialize(&mut root, b),
                expected,
                "mismatch on: {encoded}"
            );
        }
    }
}

/// **Laziness guard.** Opening a level with a million children must flatten
/// only ~a screenful and scan only that many children — never enumerate the
/// whole thing. This is the invariant that keeps memory and first-paint
/// constant on a huge file; a non-windowed flatten would blow it up.
#[test]
fn windowed_flatten_stays_bounded_on_a_huge_level() {
    let n = 1_000_000;
    let mut s = String::with_capacity(n * 2 + 2);
    s.push('[');
    for i in 0..n {
        if i > 0 {
            s.push(',');
        }
        s.push('0');
    }
    s.push(']');
    let b = s.as_bytes();

    let mut root = make_root(b, "t", false); // the array, auto-expanded
    let budget = 256;
    let mut rows = Vec::new();
    let mut path = Vec::new();
    let mut incomplete = false;
    flatten(
        &mut root,
        b,
        0,
        budget,
        &mut rows,
        &mut path,
        None,
        &mut incomplete,
    );

    assert!(
        rows.len() <= budget,
        "flatten exceeded its row budget: {}",
        rows.len()
    );
    assert!(
        root.children.len() <= budget,
        "enumerated the level eagerly: scanned {} of {n}",
        root.children.len()
    );
}

/// The high-level navigation path must also survive arbitrary bytes: building
/// a root, flattening a window, and resolving random goto paths against the
/// result may never panic. (Pairs with the scanner-level fuzz.) A stray delimiter
/// makes a stream of documents endless, so that a key is looked for as far as it ever
/// is; the documents are spread over three tests to keep each of them short.
fn navigate_every_third(first: usize) {
    const ALPHABET: &[u8] = b"{}[]\":,\\ \t\n0123456789.-eEtfnul";
    const GOTO: &[&str] = &["a", ".a", "..a", "a.b[0]", "$.x", "[3]", "...z", "k0_", ""];
    let mut rng = Rng(0x1234_5678_9ABC_DEF0);
    for k in 0..3000 {
        let len = (rng.next() % 120) as usize;
        let buf: Vec<u8> = (0..len)
            .map(|_| ALPHABET[(rng.next() as usize) % ALPHABET.len()])
            .collect();
        let b = &buf[..];
        for jsonl in [false, true] {
            let parsed = parse_path(GOTO[(rng.next() as usize) % GOTO.len()]);
            if k % 3 != first {
                continue;
            }
            let mut root = make_root(b, "x", jsonl);
            let mut rows = Vec::new();
            let mut path = Vec::new();
            let mut incomplete = false;
            flatten(
                &mut root,
                b,
                0,
                128,
                &mut rows,
                &mut path,
                None,
                &mut incomplete,
            );
            let focus = rows.last().map(|r| r.path.clone()).unwrap_or_default();
            let _ = resolve_with_climb(&mut root, b, &focus, &parsed);
        }
    }
}

#[test]
fn fuzz_make_root_and_navigation_never_panic() {
    navigate_every_third(0);
}

#[test]
fn fuzz_navigation_second_third() {
    navigate_every_third(1);
}

#[test]
fn fuzz_navigation_last_third() {
    navigate_every_third(2);
}
