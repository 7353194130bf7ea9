use task_maker::text::{i32_to_string, parse_i32, parse_unsigned, u64_to_string};
use task_maker::words::{is_whitespace, replace_all_exec, split_ascii_words, split_words, trim};

#[test]
fn unsigned_numbers() {
    assert_eq!(parse_unsigned("0", 10), Some(0));
    assert_eq!(parse_unsigned("+42", 100), Some(42));
    assert_eq!(parse_unsigned("0042", 100), Some(42));
    assert_eq!(parse_unsigned("101", 100), None);
    assert_eq!(parse_unsigned("", 100), None);
    assert_eq!(parse_unsigned("+", 100), None);
    assert_eq!(parse_unsigned("-1", 100), None);
    assert_eq!(parse_unsigned("1 ", 100), None);
    assert_eq!(parse_unsigned("18446744073709551615", u64::MAX), Some(u64::MAX));
    assert_eq!(parse_unsigned("18446744073709551616", u64::MAX), None);
    assert_eq!(parse_unsigned("99999999999999999999999", u64::MAX), None);
}

#[test]
fn signed_numbers() {
    assert_eq!(parse_i32("-2147483648"), Some(i32::MIN));
    assert_eq!(parse_i32("2147483647"), Some(i32::MAX));
    assert_eq!(parse_i32("2147483648"), None);
    assert_eq!(parse_i32("-2147483649"), None);
    assert_eq!(parse_i32("-"), None);
    assert_eq!(parse_i32("-+1"), None);
    assert_eq!(parse_i32("+7"), Some(7));
    for n in [0i32, 5, -5, 123456, i32::MIN, i32::MAX] {
        assert_eq!(parse_i32(&i32_to_string(n)), Some(n));
        assert_eq!(i32_to_string(n), n.to_string());
    }
    assert_eq!(u64_to_string(907), "907");
}

#[test]
fn whitespace_and_words() {
    for c in ['\t', '\n', '\x0B', '\x0C', '\r', ' ', '\u{85}', '\u{a0}', '\u{1680}', '\u{2000}', '\u{200a}', '\u{2028}', '\u{2029}', '\u{202f}', '\u{205f}', '\u{3000}'] {
        assert!(is_whitespace(c));
        assert_eq!(is_whitespace(c), c.is_whitespace());
    }
    for c in ['a', '0', '\u{200b}', '\u{180e}', '\u{feff}', '_'] {
        assert!(!is_whitespace(c));
        assert_eq!(is_whitespace(c), c.is_whitespace());
    }
    assert_eq!(trim("\u{3000} a b \t"), "a b");
    assert_eq!(split_words(" a\u{a0}b  c "), vec!["a", "b", "c"]);
    assert_eq!(split_ascii_words(" a\u{a0}b \x0B c "), vec!["a\u{a0}b", "\x0B", "c"]);
    assert_eq!(replace_all_exec("aXbXXc", "X", "yy"), "ayybyyyyc");
}
