use yomiage::text::{
    chars_of, decimal_string, is_blank_str, is_whitespace, parse_u32, parse_usize,
    string_from_chars, trim_end_slashes,
};

#[test]
fn parses_unsigned_numbers_like_std() {
    for text in ["0", "7", "+7", "0042", "18446744073709551615", "", "+", "-1", " 1", "1 ", "1_000", "１２", "18446744073709551616"] {
        assert_eq!(parse_usize(text), text.parse::<usize>().ok(), "{text:?}");
        assert_eq!(parse_u32(text), text.parse::<u32>().ok(), "{text:?}");
    }
    assert_eq!(parse_u32("4294967295"), Some(u32::MAX));
    assert_eq!(parse_u32("4294967296"), None);
}

#[test]
fn writes_numbers_in_decimal() {
    for n in [0u32, 3, 9, 10, 12, 100, 65535, u32::MAX] {
        assert_eq!(decimal_string(n), n.to_string());
        assert_eq!(parse_u32(&decimal_string(n)), Some(n));
    }
}

#[test]
fn trims_only_trailing_slashes() {
    assert_eq!(trim_end_slashes("http://a/b//"), "http://a/b");
    assert_eq!(trim_end_slashes("/"), "");
    assert_eq!(trim_end_slashes("abc"), "abc");
    assert_eq!(trim_end_slashes("//a"), "//a");
}

#[test]
fn whitespace_matches_std() {
    for c in ['\t', '\n', '\u{b}', '\u{c}', '\r', ' ', '\u{85}', '\u{a0}', '\u{1680}', '\u{2000}', '\u{200a}', '\u{2028}', '\u{2029}', '\u{202f}', '\u{205f}', '\u{3000}', 'a', '、', '\u{200b}', '\u{feff}', '\u{180e}'] {
        assert_eq!(is_whitespace(c), c.is_whitespace(), "{c:?}");
    }
    assert!(is_blank_str(" \u{3000}\n"));
    assert!(is_blank_str(""));
    assert!(!is_blank_str(" a "));
}

#[test]
fn copies_characters() {
    let chars = chars_of("あいうえお");
    assert_eq!(chars.len(), 5);
    assert_eq!(string_from_chars(&chars, 1, 3), "いう");
}
