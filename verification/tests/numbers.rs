use jview::numbers::NumberWalk;
use jview::tree::make_root;

/// Count, total, sum, least, greatest and mean of the numbers below a document's root.
fn stats(json: &str) -> Option<(usize, usize, f64, f64, f64, f64)> {
    let b = json.as_bytes();
    let root = make_root(b, "root", false);
    let mut walk = NumberWalk::over(&root, b)?;
    let mut numbers: Vec<f64> = Vec::new();
    while let Some(text) = walk.next(b) {
        numbers.push(text.parse().expect("reads as a number"));
    }
    let sum: f64 = numbers.iter().sum();
    let min = numbers.iter().copied().fold(f64::INFINITY, f64::min);
    let max = numbers.iter().copied().fold(f64::NEG_INFINITY, f64::max);
    Some((
        numbers.len(),
        walk.total(),
        sum,
        min,
        max,
        sum / numbers.len() as f64,
    ))
}

#[test]
fn sums_a_plain_number_array() {
    let (count, total, sum, min, max, mean) = stats("[1, 2, 3, 4]").unwrap();
    assert_eq!((count, total), (4, 4));
    assert_eq!((sum, min, max, mean), (10.0, 1.0, 4.0, 2.5));
}

#[test]
fn skips_non_numeric_children_but_counts_them_in_total() {
    // Two numbers, two non-numbers among four direct children.
    let (count, total, sum, min, max, _) = stats(r#"[1, "x", true, 5]"#).unwrap();
    assert_eq!((count, total), (2, 4));
    assert_eq!((sum, min, max), (6.0, 1.0, 5.0));
}

#[test]
fn aggregates_object_values_and_handles_negatives_and_floats() {
    let (count, sum, min, max) = stats(r#"{"a": -1.5, "b": 2.5, "c": 10}"#)
        .map(|(c, _, s, mn, mx, _)| (c, s, mn, mx))
        .unwrap();
    assert_eq!(count, 3);
    assert_eq!((sum, min, max), (11.0, -1.5, 10.0));
}

#[test]
fn no_numbers_reports_zero_count() {
    let (count, total, ..) = stats(r#"["a", "b"]"#).unwrap();
    assert_eq!((count, total), (0, 2));
}

#[test]
fn scalar_is_not_a_container() {
    assert!(stats("42").is_none());
}
