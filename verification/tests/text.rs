use jview::text::{
    decimal_string, is_float_text, is_white_space, is_word_char, join_strings, parse_unsigned,
    to_lower, trim,
};

#[test]
fn numbers_are_written_in_decimal() {
    assert_eq!(decimal_string(0), "0");
    assert_eq!(decimal_string(10), "10");
    assert_eq!(decimal_string(u64::MAX), u64::MAX.to_string());
}

#[test]
fn trimming_takes_all_white_space() {
    for s in ["", "  ", " a b ", "\u{a0}x\u{3000}", "\tx\r\n", "x"] {
        assert_eq!(trim(s), s.trim(), "{s:?}");
    }
    for c in ['\u{85}', '\u{1680}', '\u{200b}', '\u{2028}', 'x', '\0'] {
        assert_eq!(is_white_space(c), c.is_whitespace(), "{c:?}");
    }
}

#[test]
fn lower_case_is_that_of_unicode() {
    for s in ["ABCxyz", "ÄÖÜ", "ΑΣ", "İ", "straße"] {
        assert_eq!(to_lower(s), s.to_lowercase(), "{s}");
    }
}

#[test]
fn word_characters_are_letters_digits_and_underscores() {
    for c in ['a', 'Z', '0', '_', 'é', '京', '-', ' ', '.', '∑'] {
        assert_eq!(is_word_char(c), c.is_alphanumeric() || c == '_', "{c}");
    }
}

#[test]
fn unsigned_numbers_are_read_up_to_a_limit() {
    assert_eq!(parse_unsigned("0", 100), Some(0));
    assert_eq!(parse_unsigned("+42", 100), Some(42));
    assert_eq!(parse_unsigned("100", 100), Some(100));
    assert_eq!(parse_unsigned("101", 100), None);
    assert_eq!(parse_unsigned("18446744073709551616", u64::MAX), None);
    for s in ["", "+", "-1", "1x", " 1"] {
        assert_eq!(parse_unsigned(s, 100), None, "{s:?}");
    }
}

#[test]
fn float_texts_are_those_that_read_as_floats() {
    let texts = [
        "", "0", "1", "-1", "+1", "1.5", ".5", "5.", ".", "-", "+", "1e5", "1E+5", "1e-5", "1e",
        "1e+", "e5", "1.e5", ".e5", "inf", "-inf", "+Infinity", "INFINITY", "nan", "-NaN", "infi",
        "1_0", "0x1", " 1", "1 ", "--1", "1.2.3", "1e5.5", "00.10", "1f",
    ];
    for s in texts {
        assert_eq!(is_float_text(s), s.parse::<f64>().is_ok(), "{s:?}");
    }
}

#[test]
fn strings_are_joined_with_a_separator() {
    let parts = ["a".to_string(), "b".to_string(), "c".to_string()];
    assert_eq!(join_strings(&parts, ", "), "a, b, c");
    assert_eq!(join_strings(&[], ", "), "");
}
