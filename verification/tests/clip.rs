use jview::clip::{base64_encode, group};

#[test]
fn base64_matches_rfc4648_vectors() {
    let cases = [
        ("", ""),
        ("f", "Zg=="),
        ("fo", "Zm8="),
        ("foo", "Zm9v"),
        ("foob", "Zm9vYg=="),
        ("fooba", "Zm9vYmE="),
        ("foobar", "Zm9vYmFy"),
    ];
    for (input, expected) in cases {
        assert_eq!(base64_encode(input.as_bytes()), expected, "input={input:?}");
    }
}

#[test]
fn base64_handles_binary() {
    assert_eq!(base64_encode(&[0xff, 0xfe, 0xfd]), "//79");
    assert_eq!(base64_encode(&[0x00]), "AA==");
}

#[test]
fn thousands_are_grouped() {
    assert_eq!(group(0), "0");
    assert_eq!(group(999), "999");
    assert_eq!(group(1000), "1,000");
    assert_eq!(group(1234567), "1,234,567");
    assert_eq!(group(1000001), "1,000,001");
}
