use http_follow::content_range::{parse_content_range, Span};
use http_follow::decimal::{append_decimal, parse_number};
use http_follow::status::invalid_status;

fn decimal(n: u64) -> String {
    let mut text = String::from("n=");
    append_decimal(&mut text, n);
    text
}

#[test]
fn decimal_notation() {
    assert_eq!(decimal(0), "n=0");
    assert_eq!(decimal(9), "n=9");
    assert_eq!(decimal(10), "n=10");
    assert_eq!(decimal(1234567890), "n=1234567890");
    assert_eq!(decimal(u64::MAX), "n=18446744073709551615");
}

#[test]
fn numbers_are_read_back() {
    for n in [0, 1, 9, 10, 99, 100, 4095, 65536, u64::MAX - 1, u64::MAX] {
        assert_eq!(parse_number(n.to_string().as_bytes()), Some(n));
    }
}

#[test]
fn number_may_have_a_plus_and_leading_zeros() {
    assert_eq!(parse_number(b"+17"), Some(17));
    assert_eq!(parse_number(b"0017"), Some(17));
}

#[test]
fn what_is_no_number() {
    for text in ["", "+", "-1", "1-", "++1", " 1", "1 ", "x", "18446744073709551616"] {
        assert_eq!(parse_number(text.as_bytes()), None);
        assert!(text.parse::<u64>().is_err());
    }
}

#[test]
fn content_range_of_part_of_a_file() {
    assert_eq!(
        parse_content_range(b"bytes 904-4999/5000"),
        Some(Span { from: 904, to: 4999, total: 5000 })
    );
}

#[test]
fn content_range_of_an_empty_file() {
    assert_eq!(
        parse_content_range(b"bytes 0-18446744073709551615/0"),
        Some(Span { from: 0, to: 0, total: 0 })
    );
}

#[test]
fn malformed_content_ranges() {
    for field in [
        &b""[..],
        b"bytes",
        b"bytes ",
        b"items 0-1/2",
        b"bytes 0-1",
        b"bytes 01/2",
        b"bytes 0/1-2",
        b"bytes -1/2",
        b"bytes 0-/2",
        b"bytes 0-1/",
        b"bytes 0-1/*",
        b"bytes 0-1/2/3",
        b"bytes 0-1-2/3",
        b"bytes  0-1/2",
        b"Bytes 0-1/2",
        b"bytes 0-1/\xff",
    ] {
        assert_eq!(parse_content_range(field), None);
    }
}

#[test]
fn status_complaint() {
    assert_eq!(invalid_status("Some(Ok)"), "Server returned invalid status: Some(Ok)");
}
