use deploy_common::number::{
    find_byte, parse_binary, parse_decimal_bytes, parse_octal_field,
};
use deploy_common::order::{bytes_less, sort_bytes};
use deploy_common::text::{
    bytes_equal, chars_of, contains_name, i64_text, parse_i64, split_text_once, strip_text_prefix,
    text_equal,
};

#[test]
fn numbers_are_written_and_read() {
    for value in [0, 7, 10, -1, -10, 1_757_000_000, i64::MAX, i64::MIN] {
        assert_eq!(i64_text(value), format!("{value}"));
        assert_eq!(parse_i64(&i64_text(value)), Some(value));
    }
}

#[test]
fn numbers_are_read_like_in_a_header() {
    assert_eq!(parse_i64("+5"), Some(5));
    assert_eq!(parse_i64("-0"), Some(0));
    assert_eq!(parse_i64("007"), Some(7));
    for text in [
        "", "+", "-", " 1", "1 ", "1.0", "0x1", "--1", "+-1", "１",
        "9223372036854775808",
        "-9223372036854775809",
        "99999999999999999999999999",
    ] {
        assert_eq!(parse_i64(text), None);
        assert!(text.parse::<i64>().is_err());
    }
}

#[test]
fn texts_are_compared() {
    assert!(text_equal("é", "é"));
    assert!(!text_equal("é", "e"));
    assert!(bytes_equal(b"", b""));
    assert!(!bytes_equal(b"a", b"ab"));
    let names = vec![String::from("a.service"), String::from("b.service")];
    assert!(contains_name(&names, "b.service"));
    assert!(!contains_name(&names, "b"));
    assert!(!contains_name(&Vec::new(), ""));
    assert_eq!(chars_of("aé€"), vec!['a', 'é', '€']);
}

#[test]
fn prefixes_are_stripped() {
    assert_eq!(strip_text_prefix("sha256=é", "sha256="), Some("é"));
    assert_eq!(strip_text_prefix("sha256", "sha256="), None);
    assert_eq!(strip_text_prefix("sha512=x", "sha256="), None);
    assert_eq!(strip_text_prefix("x", ""), Some("x"));
}

#[test]
fn texts_are_split_at_the_first_separator() {
    assert_eq!(split_text_once("a=b=c", '='), Some(("a", "b=c")));
    assert_eq!(split_text_once("é=", '='), Some(("é", "")));
    assert_eq!(split_text_once("=", '='), Some(("", "")));
    assert_eq!(split_text_once("ab", '='), None);
}

#[test]
fn byte_strings_are_sorted() {
    assert!(bytes_less(b"", b"a"));
    assert!(bytes_less(b"a", b"ab"));
    assert!(bytes_less(b"ab", b"b"));
    assert!(!bytes_less(b"b", b"b"));
    assert!(!bytes_less(b"\xff", b"a"));
    let list = vec![b"b".to_vec(), b"".to_vec(), b"a".to_vec(), b"b".to_vec(), b"ab".to_vec()];
    assert_eq!(
        sort_bytes(list),
        vec![b"".to_vec(), b"a".to_vec(), b"ab".to_vec(), b"b".to_vec(), b"b".to_vec()]
    );
}

#[test]
fn fields_of_a_header_hold_numbers() {
    assert_eq!(parse_octal_field(b"0000644\0"), Some(0o644));
    assert_eq!(parse_octal_field(b"  644 \09"), Some(0o644));
    assert_eq!(parse_octal_field("\u{3000}+7\u{2028}".as_bytes()), Some(7));
    assert_eq!(parse_octal_field(b"777777777777777777777"), Some(0o777777777777777777777));
    assert_eq!(parse_octal_field(b"1777777777777777777777"), Some(u64::MAX));
    assert_eq!(parse_octal_field(b"2000000000000000000000"), None);
    for field in [b"".as_slice(), b"\0", b"  ", b"+", b"8", b"-1", b"1 1", b"\xff", b"++1"] {
        assert_eq!(parse_octal_field(field), None);
    }
    assert_eq!(parse_decimal_bytes(b"18446744073709551615"), Some(u64::MAX));
    assert_eq!(parse_decimal_bytes(b"18446744073709551616"), None);
    assert_eq!(parse_decimal_bytes(b"+0"), Some(0));
    assert_eq!(parse_decimal_bytes(b" 1"), None);
    assert_eq!(parse_binary(&[1, 2, 3, 4, 5, 6, 7, 8]), 0x0102_0304_0506_0708);
    assert_eq!(parse_binary(&[255; 8]), u64::MAX);
    assert_eq!(find_byte(b"abc", b'c'), 2);
    assert_eq!(find_byte(b"abc", b'd'), 3);
}
