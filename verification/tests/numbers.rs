use score_tally::number::{parse_i64, push_decimal};
use score_tally::NumberError;
use std::num::IntErrorKind;

fn parse(text: &str) -> Result<i64, NumberError> {
    let chars: Vec<char> = text.chars().collect();
    parse_i64(&chars)
}

fn decimal(n: i128) -> String {
    let mut out = String::new();
    push_decimal(&mut out, n);
    out
}

#[test]
fn digits_are_read() {
    assert_eq!(parse("0"), Ok(0));
    assert_eq!(parse("7"), Ok(7));
    assert_eq!(parse("1234567890"), Ok(1234567890));
    assert_eq!(parse("0000000000000000000000000012"), Ok(12));
}

#[test]
fn signs_are_read() {
    assert_eq!(parse("+42"), Ok(42));
    assert_eq!(parse("-42"), Ok(-42));
    assert_eq!(parse("-0"), Ok(0));
    assert_eq!(parse("+0"), Ok(0));
}

#[test]
fn bounds_are_read() {
    assert_eq!(parse("9223372036854775807"), Ok(i64::MAX));
    assert_eq!(parse("+9223372036854775807"), Ok(i64::MAX));
    assert_eq!(parse("-9223372036854775808"), Ok(i64::MIN));
}

#[test]
fn empty_text_is_empty() {
    assert_eq!(parse(""), Err(NumberError::Empty));
}

#[test]
fn lone_sign_is_an_invalid_digit() {
    assert_eq!(parse("+"), Err(NumberError::InvalidDigit));
    assert_eq!(parse("-"), Err(NumberError::InvalidDigit));
}

#[test]
fn other_characters_are_invalid_digits() {
    for text in ["abc", "1x", "x1", " 1", "1 ", "--1", "+-1", "1-", "1.5", "1_000", "\u{663}", "1e3"] {
        assert_eq!(parse(text), Err(NumberError::InvalidDigit), "{:?}", text);
    }
}

#[test]
fn too_large_is_a_positive_overflow() {
    assert_eq!(parse("9223372036854775808"), Err(NumberError::PosOverflow));
    assert_eq!(parse("+99999999999999999999999999"), Err(NumberError::PosOverflow));
}

#[test]
fn too_small_is_a_negative_overflow() {
    assert_eq!(parse("-9223372036854775809"), Err(NumberError::NegOverflow));
    assert_eq!(parse("-99999999999999999999999999"), Err(NumberError::NegOverflow));
}

#[test]
fn overflow_before_an_invalid_digit_is_an_overflow() {
    assert_eq!(parse("99999999999999999999x"), Err(NumberError::PosOverflow));
    assert_eq!(parse("-99999999999999999999x"), Err(NumberError::NegOverflow));
}

#[test]
fn invalid_digit_after_digits_in_range_is_an_invalid_digit() {
    assert_eq!(parse("9223372036854775807x"), Err(NumberError::InvalidDigit));
    assert_eq!(parse("-9223372036854775808x"), Err(NumberError::InvalidDigit));
    assert_eq!(parse("x99999999999999999999"), Err(NumberError::InvalidDigit));
}

#[test]
fn reading_agrees_with_the_standard_library() {
    let samples = [
        "", "+", "-", "0", "-0", "+0", "00", "12", "-12", "+12", "1a", "a1", " 1", "1 ", "--1",
        "+-1", "-+1", "9223372036854775807", "9223372036854775808", "-9223372036854775808",
        "-9223372036854775809", "92233720368547758070", "9223372036854775807x",
        "9223372036854775808x", "99999999999999999999x", "-99999999999999999999x",
        "000000000000000000000009223372036854775807", "123456789012345", "1234567890123456",
        "\u{ff11}", "1\u{0}", "١", "0x10", "1,000", "٠",
    ];
    for text in samples {
        let expected = match text.parse::<i64>() {
            Ok(n) => Ok(n),
            Err(e) => Err(match e.kind() {
                IntErrorKind::Empty => NumberError::Empty,
                IntErrorKind::InvalidDigit => NumberError::InvalidDigit,
                IntErrorKind::PosOverflow => NumberError::PosOverflow,
                IntErrorKind::NegOverflow => NumberError::NegOverflow,
                other => panic!("{:?}", other),
            }),
        };
        assert_eq!(parse(text), expected, "{:?}", text);
    }
}

#[test]
fn numbers_are_written_in_decimal() {
    assert_eq!(decimal(0), "0");
    assert_eq!(decimal(7), "7");
    assert_eq!(decimal(10), "10");
    assert_eq!(decimal(-3), "-3");
    assert_eq!(decimal(1234567890), "1234567890");
    assert_eq!(decimal(-1000), "-1000");
}

#[test]
fn writing_appends() {
    let mut out = String::from("total ");
    push_decimal(&mut out, 15);
    push_decimal(&mut out, -2);
    assert_eq!(out, "total 15-2");
}

#[test]
fn writing_agrees_with_the_standard_library() {
    let samples = [
        0i128,
        1,
        -1,
        9,
        10,
        99,
        100,
        -100,
        i64::MAX as i128,
        i64::MIN as i128,
        u64::MAX as i128,
        i128::MAX,
        i128::MIN,
        i128::MIN + 1,
    ];
    for n in samples {
        assert_eq!(decimal(n), format!("{}", n));
    }
}

#[test]
fn what_is_written_is_read_back() {
    for n in [0i64, 1, -1, 10, -10, 123456, i64::MAX, i64::MIN] {
        assert_eq!(parse(&decimal(n as i128)), Ok(n));
    }
}
