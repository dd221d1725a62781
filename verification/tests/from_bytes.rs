//! Reading values out of fields.

use compact_str::CompactString;
use coseva::error::{ErrorKind, Location};
use coseva::field_value::{get_str, parse, parse_from_str};
use coseva::from_bytes::{fraction_failure, parse_i8, parse_u8, parse_usize, FromBytes};
use coseva::utf8::Utf8Error;

#[test]
fn integers_and_words_are_read_and_refused() {
    assert_eq!(u32::from_bytes(b"12a"), Err(ErrorKind::InvalidDigit));
    assert_eq!(i32::from_bytes(b"-12a"), Err(ErrorKind::InvalidDigit));
    assert_eq!(i32::from_bytes(b"+12a"), Err(ErrorKind::InvalidDigit));
    assert_eq!(u8::from_bytes(b"999"), Err(ErrorKind::OutOfRange));
    assert_eq!(i8::from_bytes(b"-999"), Err(ErrorKind::OutOfRange));
    assert_eq!(u32::from_bytes(b""), Err(ErrorKind::EmptyField));
    assert_eq!(i32::from_bytes(b"-"), Err(ErrorKind::EmptyField));
    assert_eq!(i32::from_bytes(b"+"), Err(ErrorKind::EmptyField));

    assert_eq!(char::from_bytes(b"x"), Ok('x'));
    assert!(char::from_bytes(b"xyz").is_err());
    assert!(char::from_bytes(b"\xff").is_err());
    assert!(String::from_bytes(b"\xff").is_err());
    assert_eq!(Option::<u32>::from_bytes(b""), Ok(None));
    assert_eq!(Option::<u32>::from_bytes(b"42"), Ok(Some(42)));
    assert_eq!(Vec::<u8>::from_bytes(b"bytes"), Ok(b"bytes".to_vec()));
    assert_eq!(String::from_bytes(b"hello"), Ok("hello".to_string()));
    assert_eq!(
        CompactString::from_bytes(b"hello"),
        Ok(CompactString::from("hello"))
    );

    assert_eq!(bool::from_bytes(b"true"), Ok(true));
    assert_eq!(bool::from_bytes(b"1"), Ok(true));
    assert_eq!(bool::from_bytes(b"false"), Ok(false));
    assert_eq!(bool::from_bytes(b"0"), Ok(false));
    assert_eq!(bool::from_bytes(b"yes"), Err(ErrorKind::InvalidValue));

    assert_eq!(u16::from_bytes(b"+42"), Ok(42));
    assert_eq!(u16::from_bytes(b"65535"), Ok(65535));
    assert_eq!(u16::from_bytes(b"65536"), Err(ErrorKind::OutOfRange));
    assert_eq!(u16::from_bytes(b"12a"), Err(ErrorKind::InvalidDigit));
    assert_eq!(u64::from_bytes(b"+42"), Ok(42));
    assert_eq!(
        u64::from_bytes(b"18446744073709551616"),
        Err(ErrorKind::OutOfRange)
    );
    assert_eq!(u128::from_bytes(b"+42"), Ok(42));
    assert_eq!(
        u128::from_bytes(b"340282366920938463463374607431768211456"),
        Err(ErrorKind::OutOfRange)
    );
    assert_eq!(usize::from_bytes(b"+42"), Ok(42));
    assert_eq!(
        usize::from_bytes(b"18446744073709551616"),
        Err(ErrorKind::OutOfRange)
    );

    assert_eq!(i16::from_bytes(b"+42"), Ok(42));
    assert_eq!(i16::from_bytes(b"-42"), Ok(-42));
    assert_eq!(i16::from_bytes(b"32768"), Err(ErrorKind::OutOfRange));
    assert_eq!(i16::from_bytes(b"-32769"), Err(ErrorKind::OutOfRange));
    assert_eq!(i64::from_bytes(b"+42"), Ok(42));
    assert_eq!(i64::from_bytes(b"-42"), Ok(-42));
    assert_eq!(
        i64::from_bytes(b"9223372036854775808"),
        Err(ErrorKind::OutOfRange)
    );
    assert_eq!(
        i64::from_bytes(b"-9223372036854775809"),
        Err(ErrorKind::OutOfRange)
    );
    assert_eq!(i128::from_bytes(b"+42"), Ok(42));
    assert_eq!(i128::from_bytes(b"-42"), Ok(-42));
    assert_eq!(
        i128::from_bytes(b"170141183460469231731687303715884105728"),
        Err(ErrorKind::OutOfRange)
    );
    assert_eq!(
        i128::from_bytes(b"-170141183460469231731687303715884105729"),
        Err(ErrorKind::OutOfRange)
    );
    assert_eq!(isize::from_bytes(b"+42"), Ok(42));
    assert_eq!(isize::from_bytes(b"-42"), Ok(-42));
    assert_eq!(
        isize::from_bytes(b"9223372036854775808"),
        Err(ErrorKind::OutOfRange)
    );
    assert_eq!(
        isize::from_bytes(b"-9223372036854775809"),
        Err(ErrorKind::OutOfRange)
    );
}

#[test]
fn the_first_thing_wrong_is_reported() {
    assert_eq!(parse_u8(b"256x"), Err(ErrorKind::OutOfRange));
    assert_eq!(parse_u8(b"25x6"), Err(ErrorKind::InvalidDigit));
    assert_eq!(parse_u8(b"-1"), Err(ErrorKind::InvalidDigit));
    assert_eq!(parse_u8(b"0000000255"), Ok(255));
    assert_eq!(parse_i8(b"-128"), Ok(-128));
    assert_eq!(parse_i8(b"-129"), Err(ErrorKind::OutOfRange));
    assert_eq!(parse_i8(b"--1"), Err(ErrorKind::InvalidDigit));
    assert_eq!(parse_i8(b"-0"), Ok(0));
    assert_eq!(parse_usize(b"+"), Err(ErrorKind::EmptyField));
    assert_eq!(
        i128::from_bytes(b"-170141183460469231731687303715884105728"),
        Ok(i128::MIN)
    );
    assert_eq!(
        u128::from_bytes(b"340282366920938463463374607431768211455"),
        Ok(u128::MAX)
    );
}

#[test]
fn decimal_digits_are_read_back() {
    for number in [0u64, 7, 10, 99, 65536, u64::MAX] {
        assert_eq!(u64::from_bytes(number.to_string().as_bytes()), Ok(number));
        assert_eq!(u64::from_bytes(format!("+{number}").as_bytes()), Ok(number));
    }
    for number in [0i64, -7, i64::MIN, i64::MAX] {
        assert_eq!(i64::from_bytes(number.to_string().as_bytes()), Ok(number));
    }
}

#[test]
fn text_that_is_not_utf8_tells_where() {
    assert_eq!(
        String::from_bytes(b"ab\xffcd"),
        Err(ErrorKind::InvalidUtf8(Utf8Error { valid_up_to: 2, error_len: Some(1) }))
    );
    assert_eq!(
        String::from_bytes(b"ab\xe2\x82"),
        Err(ErrorKind::InvalidUtf8(Utf8Error { valid_up_to: 2, error_len: None }))
    );
    assert_eq!(char::from_bytes("\u{20ac}".as_bytes()), Ok('\u{20ac}'));
    assert_eq!(char::from_bytes(b""), Err(ErrorKind::InvalidValue));
    assert_eq!(
        CompactString::from_bytes("gr\u{fc}n".as_bytes()),
        Ok(CompactString::from("gr\u{fc}n"))
    );
    assert!(CompactString::from_bytes(b"\xff").is_err());
}

#[test]
fn fields_become_values() {
    assert_eq!(get_str(Some(b"abc"), 0).ok(), Some(Some("abc")));
    assert_eq!(get_str(None, 0).ok(), Some(None));
    let error = get_str(Some(b"a\xff"), 6).expect_err("not UTF-8");
    assert_eq!(
        error.kind(),
        ErrorKind::InvalidUtf8(Utf8Error { valid_up_to: 1, error_len: Some(1) })
    );
    assert_eq!(error.location(), Location { field: 6, ..Location::unknown() });

    assert_eq!(parse::<u32>(Some(b"42"), 0).ok(), Some(Some(42)));
    assert_eq!(parse::<u32>(None, 0).ok(), Some(None));
    assert_eq!(parse::<Option<u32>>(Some(b""), 0).ok(), Some(Some(None)));
    let error = parse::<u32>(Some(b"4x"), 3).expect_err("not a digit");
    assert_eq!(error.kind(), ErrorKind::InvalidDigit);
    assert_eq!(error.location().field, 3);
}

#[test]
fn fields_are_read_by_a_function_on_text() {
    let halves = |text: &str| -> Result<u8, String> {
        match text {
            "none" => Ok(0),
            "half" => Ok(1),
            "all" => Ok(2),
            other => Err(format!("unknown share {other}")),
        }
    };
    assert_eq!(parse_from_str(Some(b"half"), 0, halves).ok(), Some(Some(1)));
    assert_eq!(parse_from_str(None, 0, halves).ok(), Some(None));
    let error = parse_from_str(Some(b"some"), 2, halves).expect_err("no such share");
    assert_eq!(error.kind(), ErrorKind::InvalidValue);
    assert_eq!(error.location().field, 2);
    assert_eq!(error.message(), "unknown share some");
    let error = parse_from_str(Some(b"\xff"), 2, halves).expect_err("not UTF-8");
    assert!(matches!(error.kind(), ErrorKind::InvalidUtf8(_)));
}

#[test]
fn a_fraction_that_cannot_be_read_is_empty_or_invalid() {
    assert_eq!(fraction_failure(b""), ErrorKind::EmptyField);
    assert_eq!(fraction_failure(b"abc"), ErrorKind::InvalidValue);
}
