use rustdatabasen::bytes::{find_byte, same_bytes, split_on};
use rustdatabasen::decimal::{append_decimal, parse_u32, parse_u64};

fn text(n: u64) -> String {
    let mut out = Vec::new();
    append_decimal(&mut out, n);
    String::from_utf8(out).unwrap()
}

#[test]
fn numbers_are_written_in_decimal() {
    assert_eq!(text(0), "0");
    assert_eq!(text(9), "9");
    assert_eq!(text(10), "10");
    assert_eq!(text(1700000000), "1700000000");
    assert_eq!(text(u64::MAX), "18446744073709551615");
    let mut out = b"n=".to_vec();
    append_decimal(&mut out, 42);
    assert_eq!(out, b"n=42".to_vec());
}

#[test]
fn numbers_are_read_from_decimal() {
    assert_eq!(parse_u64(b"0"), Some(0));
    assert_eq!(parse_u64(b"+0"), Some(0));
    assert_eq!(parse_u64(b"000123"), Some(123));
    assert_eq!(parse_u64(b"18446744073709551615"), Some(u64::MAX));
    assert_eq!(parse_u64(b"18446744073709551616"), None);
    assert_eq!(parse_u64(b"99999999999999999999"), None);
    assert_eq!(parse_u64(b""), None);
    assert_eq!(parse_u64(b"+"), None);
    assert_eq!(parse_u64(b"-1"), None);
    assert_eq!(parse_u64(b"++1"), None);
    assert_eq!(parse_u64(b"1 "), None);
    assert_eq!(parse_u64(b"1_000"), None);
    assert_eq!(parse_u64(b"12a"), None);
    assert_eq!(parse_u32(b"4294967295"), Some(u32::MAX));
    assert_eq!(parse_u32(b"4294967296"), None);
    assert_eq!(parse_u32(b"+17"), Some(17));
    assert_eq!(parse_u32(b"18446744073709551616"), None);
    assert_eq!(parse_u32(b"x"), None);
}

#[test]
fn reading_agrees_with_the_standard_library() {
    for s in ["0", "+5", "-5", "", "+", "007", "4294967296", "18446744073709551616", "1e3", " 1"] {
        assert_eq!(parse_u64(s.as_bytes()), s.parse::<u64>().ok());
        assert_eq!(parse_u32(s.as_bytes()), s.parse::<u32>().ok());
    }
}

#[test]
fn what_is_written_is_read_again() {
    for n in [0u64, 1, 9, 10, 11, 99, 100, 12345, 4294967295, 4294967296, u64::MAX - 1, u64::MAX] {
        assert_eq!(parse_u64(text(n).as_bytes()), Some(n));
    }
}

#[test]
fn bytes_are_found_and_split() {
    assert_eq!(find_byte(b"a|b|c", b'|'), 1);
    assert_eq!(find_byte(b"abc", b'|'), 3);
    assert_eq!(find_byte(b"", b'|'), 0);
    assert_eq!(split_on(b"a|b|c", b'|'), vec![b"a".to_vec(), b"b".to_vec(), b"c".to_vec()]);
    assert_eq!(split_on(b"", b'|'), vec![Vec::<u8>::new()]);
    assert_eq!(split_on(b"|", b'|'), vec![Vec::<u8>::new(), Vec::new()]);
    assert_eq!(split_on(b"a||", b'|'), vec![b"a".to_vec(), Vec::new(), Vec::new()]);
    assert_eq!(split_on(b"abc", b'|'), vec![b"abc".to_vec()]);
    assert!(same_bytes(b"abc", b"abc"));
    assert!(!same_bytes(b"abc", b"abd"));
    assert!(!same_bytes(b"abc", b"ab"));
}
