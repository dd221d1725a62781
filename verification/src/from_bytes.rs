//! Reading values out of fields.

use compact_str::CompactString;
use vstd::prelude::*;
use vstd::string::{StrSliceExecFns, StringSliceAdditionalSpecFns};
use vstd::utf8::{decode_utf8, encode_utf8, valid_utf8};

use crate::error::{Error, ErrorKind, Location};
use crate::search::first_of;
use crate::utf8::{not_utf8, utf8_error_len, utf8_text};

verus! {

/// Plus sign.
pub const PLUS: u8 = 43;

/// Hyphen, as a minus sign.
pub const MINUS: u8 = 45;

/// The digit zero.
pub const ZERO: u8 = 48;

/// The digit nine.
pub const NINE: u8 = 57;

/// Why a field could not be converted.
///
/// An [`ErrorKind`] tells it alone; any other type leaves its text.
pub trait ConversionError: Sized {
    /// Whether an error reports this failure.
    open spec fn reported_by(&self, error: Error) -> bool {
        true
    }

    /// The error of the field `index`.
    fn into_error(self, location: Location, index: usize) -> (error: Error)
        ensures
            self.reported_by(error),
            error.spec_location() == (Location { field: index, ..location }),
    ;
}

impl ConversionError for ErrorKind {
    open spec fn reported_by(&self, error: Error) -> bool {
        error.spec_kind() == *self && error.is_plain()
    }

    fn into_error(self, location: Location, index: usize) -> (error: Error) {
        Error::from_conversion(self, location, index)
    }
}

impl ConversionError for String {
    open spec fn reported_by(&self, error: Error) -> bool {
        error.spec_kind() == ErrorKind::InvalidValue && error.spec_detail() == Some(self@)
    }

    fn into_error(self, location: Location, index: usize) -> (error: Error) {
        Error::from_foreign_conversion(self.as_str(), location, index)
    }
}

/// A type that can be read out of the bytes of a field.
pub trait FromBytes: Sized {
    /// Why it cannot.
    type Err: ConversionError;

    /// Whether bytes are read like this.
    open spec fn reads(bytes: Seq<u8>, result: Result<Self, Self::Err>) -> bool {
        true
    }

    /// Read a value.
    fn from_bytes(bytes: &[u8]) -> (result: Result<Self, Self::Err>)
        ensures
            Self::reads(bytes@, result),
    ;
}

/// Whether a byte is no decimal digit.
pub open spec fn no_digit() -> spec_fn(u8) -> bool {
    |byte: u8| byte < ZERO || byte > NINE
}

/// The number that digits spell.
pub open spec fn spelled(digits: Seq<u8>) -> nat
    decreases digits.len(),
{
    if digits.len() == 0 {
        0
    } else {
        spelled(digits.drop_last()) * 10 + (digits.last() - ZERO) as nat
    }
}

/// Whether bytes begin with a byte.
pub open spec fn led_by(bytes: Seq<u8>, byte: u8) -> bool {
    bytes.len() > 0 && bytes[0] == byte
}

/// The integer that bytes spell, or why there is none in `min..=max`.
///
/// A sign may lead: a plus, or a minus where numbers below zero are possible.
/// What stands before the first other byte must fit even if that byte is there.
pub open spec fn integer(bytes: Seq<u8>, min: int, max: int) -> Result<int, ErrorKind> {
    let negative = min < 0 && led_by(bytes, MINUS);
    let digits = if negative || led_by(bytes, PLUS) {
        bytes.skip(1)
    } else {
        bytes
    };
    let end = first_of(digits, 0, digits.len() as int, no_digit());
    let number = spelled(digits.take(end)) as int;
    let value = if negative {
        -number
    } else {
        number
    };
    if digits.len() == 0 {
        Err(ErrorKind::EmptyField)
    } else if !(min <= value <= max) {
        Err(ErrorKind::OutOfRange)
    } else if end < digits.len() {
        Err(ErrorKind::InvalidDigit)
    } else {
        Ok(value)
    }
}

/// A longer run of digits does not spell a smaller number.
proof fn lemma_spelled_grows(digits: Seq<u8>, shorter: int, longer: int)
    requires
        0 <= shorter <= longer <= digits.len(),
    ensures
        spelled(digits.take(shorter)) <= spelled(digits.take(longer)),
    decreases longer - shorter,
{
    if shorter < longer {
        lemma_spelled_grows(digits, shorter, longer - 1);
        assert(digits.take(longer).drop_last() =~= digits.take(longer - 1));
    }
}

/// Read the digits from `start` on, up to a limit.
fn magnitude(bytes: &[u8], start: usize, limit: u128) -> (result: Result<u128, ErrorKind>)
    requires
        start < bytes.len(),
    ensures
        ({
            let digits = bytes@.skip(start as int);
            let end = first_of(digits, 0, digits.len() as int, no_digit());
            let number = spelled(digits.take(end));
            if number > limit {
                result == Err::<u128, ErrorKind>(ErrorKind::OutOfRange)
            } else if end < digits.len() {
                result == Err::<u128, ErrorKind>(ErrorKind::InvalidDigit)
            } else {
                result matches Ok(value) && value == number
            }
        }),
{
    let ghost digits = bytes@.skip(start as int);
    let ghost end = first_of(digits, 0, digits.len() as int, no_digit());
    let mut value: u128 = 0;
    let mut at: usize = start;
    proof {
        crate::search::lemma_first_of(digits, 0, digits.len() as int, no_digit());
        assert(digits.take(0) =~= Seq::<u8>::empty());
    }
    while at < bytes.len()
        invariant
            start <= at <= bytes.len(),
            digits == bytes@.skip(start as int),
            end == first_of(digits, 0, digits.len() as int, no_digit()),
            0 <= end <= digits.len(),
            end < digits.len() ==> no_digit()(digits[end]),
            forall|i: int| 0 <= i < end ==> !no_digit()(#[trigger] digits[i]),
            at - start <= end,
            value == spelled(digits.take(at - start)),
            value <= limit,
        decreases bytes.len() - at,
    {
        let byte: u8 = bytes[at];
        let ghost i = at - start;
        assert(digits[i] == byte);
        if byte < ZERO || byte > NINE {
            assert(i == end);
            return Err(ErrorKind::InvalidDigit);
        }
        let digit: u128 = (byte - ZERO) as u128;
        proof {
            assert(i < end);
            assert(digits.take(i + 1).drop_last() =~= digits.take(i));
            assert(digits.take(i + 1).last() == byte);
            assert(spelled(digits.take(i + 1)) == value * 10 + digit);
            lemma_spelled_grows(digits, i + 1, end);
        }
        if limit < digit || value > (limit - digit) / 10 {
            return Err(ErrorKind::OutOfRange);
        }
        value = value * 10 + digit;
        at += 1;
    }
    assert(at - start == digits.len());
    Ok(value)
}

/// Read an integer that is not below zero.
fn unsigned(bytes: &[u8], max: u128) -> (result: Result<u128, ErrorKind>)
    ensures
        match integer(bytes@, 0, max as int) {
            Ok(value) => result matches Ok(read) && read == value,
            Err(kind) => result == Err::<u128, ErrorKind>(kind),
        },
{
    let start: usize = if bytes.len() > 0 && bytes[0] == PLUS {
        1
    } else {
        0
    };
    if start == bytes.len() {
        return Err(ErrorKind::EmptyField);
    }
    assert(bytes@.skip(0) =~= bytes@);
    magnitude(bytes, start, max)
}

/// Read an integer that may be below zero.
fn signed(bytes: &[u8], min: i128, max: i128) -> (result: Result<i128, ErrorKind>)
    requires
        min < 0 <= max,
    ensures
        match integer(bytes@, min as int, max as int) {
            Ok(value) => result matches Ok(read) && read == value,
            Err(kind) => result == Err::<i128, ErrorKind>(kind),
        },
{
    let negative = bytes.len() > 0 && bytes[0] == MINUS;
    let start: usize = if negative || (bytes.len() > 0 && bytes[0] == PLUS) {
        1
    } else {
        0
    };
    if start == bytes.len() {
        return Err(ErrorKind::EmptyField);
    }
    assert(bytes@.skip(0) =~= bytes@);
    if negative {
        let limit: u128 = ((-(min + 1)) as u128) + 1;
        match magnitude(bytes, start, limit) {
            Ok(value) => if value == 0 {
                Ok(0)
            } else {
                Ok(-((value - 1) as i128) - 1)
            },
            Err(kind) => Err(kind),
        }
    } else {
        match magnitude(bytes, start, max as u128) {
            Ok(value) => Ok(value as i128),
            Err(kind) => Err(kind),
        }
    }
}

/// Read an `i8`.
pub fn parse_i8(bytes: &[u8]) -> (result: Result<i8, ErrorKind>)
    ensures
        match integer(bytes@, i8::MIN as int, i8::MAX as int) {
            Ok(value) => result matches Ok(read) && read == value,
            Err(kind) => result == Err::<i8, ErrorKind>(kind),
        },
        <i8 as FromBytes>::reads(bytes@, result),
{
    match signed(bytes, i8::MIN as i128, i8::MAX as i128) {
        Ok(value) => Ok(value as i8),
        Err(kind) => Err(kind),
    }
}

/// Read an `i16`.
pub fn parse_i16(bytes: &[u8]) -> (result: Result<i16, ErrorKind>)
    ensures
        match integer(bytes@, i16::MIN as int, i16::MAX as int) {
            Ok(value) => result matches Ok(read) && read == value,
            Err(kind) => result == Err::<i16, ErrorKind>(kind),
        },
        <i16 as FromBytes>::reads(bytes@, result),
{
    match signed(bytes, i16::MIN as i128, i16::MAX as i128) {
        Ok(value) => Ok(value as i16),
        Err(kind) => Err(kind),
    }
}

/// Read an `i32`.
pub fn parse_i32(bytes: &[u8]) -> (result: Result<i32, ErrorKind>)
    ensures
        match integer(bytes@, i32::MIN as int, i32::MAX as int) {
            Ok(value) => result matches Ok(read) && read == value,
            Err(kind) => result == Err::<i32, ErrorKind>(kind),
        },
        <i32 as FromBytes>::reads(bytes@, result),
{
    match signed(bytes, i32::MIN as i128, i32::MAX as i128) {
        Ok(value) => Ok(value as i32),
        Err(kind) => Err(kind),
    }
}

/// Read an `i64`.
pub fn parse_i64(bytes: &[u8]) -> (result: Result<i64, ErrorKind>)
    ensures
        match integer(bytes@, i64::MIN as int, i64::MAX as int) {
            Ok(value) => result matches Ok(read) && read == value,
            Err(kind) => result == Err::<i64, ErrorKind>(kind),
        },
        <i64 as FromBytes>::reads(bytes@, result),
{
    match signed(bytes, i64::MIN as i128, i64::MAX as i128) {
        Ok(value) => Ok(value as i64),
        Err(kind) => Err(kind),
    }
}

/// Read an `i128`.
pub fn parse_i128(bytes: &[u8]) -> (result: Result<i128, ErrorKind>)
    ensures
        match integer(bytes@, i128::MIN as int, i128::MAX as int) {
            Ok(value) => result matches Ok(read) && read == value,
            Err(kind) => result == Err::<i128, ErrorKind>(kind),
        },
        <i128 as FromBytes>::reads(bytes@, result),
{
    signed(bytes, i128::MIN, i128::MAX)
}

/// Read an `isize`.
pub fn parse_isize(bytes: &[u8]) -> (result: Result<isize, ErrorKind>)
    ensures
        match integer(bytes@, isize::MIN as int, isize::MAX as int) {
            Ok(value) => result matches Ok(read) && read == value,
            Err(kind) => result == Err::<isize, ErrorKind>(kind),
        },
        <isize as FromBytes>::reads(bytes@, result),
{
    match signed(bytes, isize::MIN as i128, isize::MAX as i128) {
        Ok(value) => Ok(value as isize),
        Err(kind) => Err(kind),
    }
}

/// Read a `u8`.
pub fn parse_u8(bytes: &[u8]) -> (result: Result<u8, ErrorKind>)
    ensures
        match integer(bytes@, 0, u8::MAX as int) {
            Ok(value) => result matches Ok(read) && read == value,
            Err(kind) => result == Err::<u8, ErrorKind>(kind),
        },
        <u8 as FromBytes>::reads(bytes@, result),
{
    match unsigned(bytes, u8::MAX as u128) {
        Ok(value) => Ok(value as u8),
        Err(kind) => Err(kind),
    }
}

/// Read a `u16`.
pub fn parse_u16(bytes: &[u8]) -> (result: Result<u16, ErrorKind>)
    ensures
        match integer(bytes@, 0, u16::MAX as int) {
            Ok(value) => result matches Ok(read) && read == value,
            Err(kind) => result == Err::<u16, ErrorKind>(kind),
        },
        <u16 as FromBytes>::reads(bytes@, result),
{
    match unsigned(bytes, u16::MAX as u128) {
        Ok(value) => Ok(value as u16),
        Err(kind) => Err(kind),
    }
}

/// Read a `u32`.
pub fn parse_u32(bytes: &[u8]) -> (result: Result<u32, ErrorKind>)
    ensures
        match integer(bytes@, 0, u32::MAX as int) {
            Ok(value) => result matches Ok(read) && read == value,
            Err(kind) => result == Err::<u32, ErrorKind>(kind),
        },
        <u32 as FromBytes>::reads(bytes@, result),
{
    match unsigned(bytes, u32::MAX as u128) {
        Ok(value) => Ok(value as u32),
        Err(kind) => Err(kind),
    }
}

/// Read a `u64`.
pub fn parse_u64(bytes: &[u8]) -> (result: Result<u64, ErrorKind>)
    ensures
        match integer(bytes@, 0, u64::MAX as int) {
            Ok(value) => result matches Ok(read) && read == value,
            Err(kind) => result == Err::<u64, ErrorKind>(kind),
        },
        <u64 as FromBytes>::reads(bytes@, result),
{
    match unsigned(bytes, u64::MAX as u128) {
        Ok(value) => Ok(value as u64),
        Err(kind) => Err(kind),
    }
}

/// Read a `u128`.
pub fn parse_u128(bytes: &[u8]) -> (result: Result<u128, ErrorKind>)
    ensures
        match integer(bytes@, 0, u128::MAX as int) {
            Ok(value) => result matches Ok(read) && read == value,
            Err(kind) => result == Err::<u128, ErrorKind>(kind),
        },
        <u128 as FromBytes>::reads(bytes@, result),
{
    unsigned(bytes, u128::MAX)
}

/// Read a `usize`.
pub fn parse_usize(bytes: &[u8]) -> (result: Result<usize, ErrorKind>)
    ensures
        match integer(bytes@, 0, usize::MAX as int) {
            Ok(value) => result matches Ok(read) && read == value,
            Err(kind) => result == Err::<usize, ErrorKind>(kind),
        },
        <usize as FromBytes>::reads(bytes@, result),
{
    match unsigned(bytes, usize::MAX as u128) {
        Ok(value) => Ok(value as usize),
        Err(kind) => Err(kind),
    }
}

impl FromBytes for i8 {
    type Err = ErrorKind;

    open spec fn reads(bytes: Seq<u8>, result: Result<i8, ErrorKind>) -> bool {
        match integer(bytes, i8::MIN as int, i8::MAX as int) {
            Ok(value) => result matches Ok(read) && read == value,
            Err(kind) => result == Err::<i8, ErrorKind>(kind),
        }
    }

    fn from_bytes(bytes: &[u8]) -> (result: Result<i8, ErrorKind>) {
        parse_i8(bytes)
    }
}

impl FromBytes for i16 {
    type Err = ErrorKind;

    open spec fn reads(bytes: Seq<u8>, result: Result<i16, ErrorKind>) -> bool {
        match integer(bytes, i16::MIN as int, i16::MAX as int) {
            Ok(value) => result matches Ok(read) && read == value,
            Err(kind) => result == Err::<i16, ErrorKind>(kind),
        }
    }

    fn from_bytes(bytes: &[u8]) -> (result: Result<i16, ErrorKind>) {
        parse_i16(bytes)
    }
}

impl FromBytes for i32 {
    type Err = ErrorKind;

    open spec fn reads(bytes: Seq<u8>, result: Result<i32, ErrorKind>) -> bool {
        match integer(bytes, i32::MIN as int, i32::MAX as int) {
            Ok(value) => result matches Ok(read) && read == value,
            Err(kind) => result == Err::<i32, ErrorKind>(kind),
        }
    }

    fn from_bytes(bytes: &[u8]) -> (result: Result<i32, ErrorKind>) {
        parse_i32(bytes)
    }
}

impl FromBytes for i64 {
    type Err = ErrorKind;

    open spec fn reads(bytes: Seq<u8>, result: Result<i64, ErrorKind>) -> bool {
        match integer(bytes, i64::MIN as int, i64::MAX as int) {
            Ok(value) => result matches Ok(read) && read == value,
            Err(kind) => result == Err::<i64, ErrorKind>(kind),
        }
    }

    fn from_bytes(bytes: &[u8]) -> (result: Result<i64, ErrorKind>) {
        parse_i64(bytes)
    }
}

impl FromBytes for i128 {
    type Err = ErrorKind;

    open spec fn reads(bytes: Seq<u8>, result: Result<i128, ErrorKind>) -> bool {
        match integer(bytes, i128::MIN as int, i128::MAX as int) {
            Ok(value) => result matches Ok(read) && read == value,
            Err(kind) => result == Err::<i128, ErrorKind>(kind),
        }
    }

    fn from_bytes(bytes: &[u8]) -> (result: Result<i128, ErrorKind>) {
        parse_i128(bytes)
    }
}

impl FromBytes for isize {
    type Err = ErrorKind;

    open spec fn reads(bytes: Seq<u8>, result: Result<isize, ErrorKind>) -> bool {
        match integer(bytes, isize::MIN as int, isize::MAX as int) {
            Ok(value) => result matches Ok(read) && read == value,
            Err(kind) => result == Err::<isize, ErrorKind>(kind),
        }
    }

    fn from_bytes(bytes: &[u8]) -> (result: Result<isize, ErrorKind>) {
        parse_isize(bytes)
    }
}

impl FromBytes for u8 {
    type Err = ErrorKind;

    open spec fn reads(bytes: Seq<u8>, result: Result<u8, ErrorKind>) -> bool {
        match integer(bytes, 0, u8::MAX as int) {
            Ok(value) => result matches Ok(read) && read == value,
            Err(kind) => result == Err::<u8, ErrorKind>(kind),
        }
    }

    fn from_bytes(bytes: &[u8]) -> (result: Result<u8, ErrorKind>) {
        parse_u8(bytes)
    }
}

impl FromBytes for u16 {
    type Err = ErrorKind;

    open spec fn reads(bytes: Seq<u8>, result: Result<u16, ErrorKind>) -> bool {
        match integer(bytes, 0, u16::MAX as int) {
            Ok(value) => result matches Ok(read) && read == value,
            Err(kind) => result == Err::<u16, ErrorKind>(kind),
        }
    }

    fn from_bytes(bytes: &[u8]) -> (result: Result<u16, ErrorKind>) {
        parse_u16(bytes)
    }
}

impl FromBytes for u32 {
    type Err = ErrorKind;

    open spec fn reads(bytes: Seq<u8>, result: Result<u32, ErrorKind>) -> bool {
        match integer(bytes, 0, u32::MAX as int) {
            Ok(value) => result matches Ok(read) && read == value,
            Err(kind) => result == Err::<u32, ErrorKind>(kind),
        }
    }

    fn from_bytes(bytes: &[u8]) -> (result: Result<u32, ErrorKind>) {
        parse_u32(bytes)
    }
}

impl FromBytes for u64 {
    type Err = ErrorKind;

    open spec fn reads(bytes: Seq<u8>, result: Result<u64, ErrorKind>) -> bool {
        match integer(bytes, 0, u64::MAX as int) {
            Ok(value) => result matches Ok(read) && read == value,
            Err(kind) => result == Err::<u64, ErrorKind>(kind),
        }
    }

    fn from_bytes(bytes: &[u8]) -> (result: Result<u64, ErrorKind>) {
        parse_u64(bytes)
    }
}

impl FromBytes for u128 {
    type Err = ErrorKind;

    open spec fn reads(bytes: Seq<u8>, result: Result<u128, ErrorKind>) -> bool {
        match integer(bytes, 0, u128::MAX as int) {
            Ok(value) => result matches Ok(read) && read == value,
            Err(kind) => result == Err::<u128, ErrorKind>(kind),
        }
    }

    fn from_bytes(bytes: &[u8]) -> (result: Result<u128, ErrorKind>) {
        parse_u128(bytes)
    }
}

impl FromBytes for usize {
    type Err = ErrorKind;

    open spec fn reads(bytes: Seq<u8>, result: Result<usize, ErrorKind>) -> bool {
        match integer(bytes, 0, usize::MAX as int) {
            Ok(value) => result matches Ok(read) && read == value,
            Err(kind) => result == Err::<usize, ErrorKind>(kind),
        }
    }

    fn from_bytes(bytes: &[u8]) -> (result: Result<usize, ErrorKind>) {
        parse_usize(bytes)
    }
}

/// Whether bytes are those of a word.
fn is_word(bytes: &[u8], word: &str) -> (yes: bool)
    ensures
        yes == (bytes@ == word.spec_bytes()),
{
    let expected = word.as_bytes();
    let same = bytes.len() == expected.len() && crate::search::is_at(bytes, expected, 0);
    assert(bytes@.len() == expected@.len() ==> bytes@.subrange(0, expected@.len() as int)
        =~= bytes@);
    same
}

/// The truth value that bytes spell: a word or a digit.
pub open spec fn truth(bytes: Seq<u8>) -> Option<bool> {
    if bytes == "true".spec_bytes() || bytes == "1".spec_bytes() {
        Some(true)
    } else if bytes == "false".spec_bytes() || bytes == "0".spec_bytes() {
        Some(false)
    } else {
        None
    }
}

impl FromBytes for bool {
    type Err = ErrorKind;

    open spec fn reads(bytes: Seq<u8>, result: Result<bool, ErrorKind>) -> bool {
        result == match truth(bytes) {
            Some(value) => Ok::<bool, ErrorKind>(value),
            None => Err(ErrorKind::InvalidValue),
        }
    }

    fn from_bytes(bytes: &[u8]) -> (result: Result<bool, ErrorKind>) {
        if is_word(bytes, "true") || is_word(bytes, "1") {
            Ok(true)
        } else if is_word(bytes, "false") || is_word(bytes, "0") {
            Ok(false)
        } else {
            Err(ErrorKind::InvalidValue)
        }
    }
}

/// Whether a failure is that the bytes are not UTF-8.
pub open spec fn refuses_utf8(bytes: Seq<u8>, kind: ErrorKind) -> bool {
    !valid_utf8(bytes) && (kind matches ErrorKind::InvalidUtf8(error) && not_utf8(bytes, error)
        && error.error_len == utf8_error_len(bytes))
}

fn as_utf8(bytes: &[u8]) -> (result: Result<&str, ErrorKind>)
    ensures
        match result {
            Ok(text) => valid_utf8(bytes@) && text.spec_bytes() == bytes@,
            Err(kind) => refuses_utf8(bytes@, kind),
        },
{
    match utf8_text(bytes) {
        Ok(text) => Ok(text),
        Err(error) => Err(ErrorKind::InvalidUtf8(error)),
    }
}

impl FromBytes for String {
    type Err = ErrorKind;

    open spec fn reads(bytes: Seq<u8>, result: Result<String, ErrorKind>) -> bool {
        match result {
            Ok(text) => encode_utf8(text@) == bytes,
            Err(kind) => refuses_utf8(bytes, kind),
        }
    }

    fn from_bytes(bytes: &[u8]) -> (result: Result<String, ErrorKind>) {
        match as_utf8(bytes) {
            Ok(text) => Ok(text.to_owned()),
            Err(kind) => Err(kind),
        }
    }
}

impl FromBytes for char {
    type Err = ErrorKind;

    open spec fn reads(bytes: Seq<u8>, result: Result<char, ErrorKind>) -> bool {
        match result {
            Ok(value) => encode_utf8(seq![value]) == bytes,
            Err(kind) => refuses_utf8(bytes, kind) || (valid_utf8(bytes) && kind
                == ErrorKind::InvalidValue && decode_utf8(bytes).len() != 1),
        }
    }

    fn from_bytes(bytes: &[u8]) -> (result: Result<char, ErrorKind>) {
        let text = match as_utf8(bytes) {
            Ok(text) => text,
            Err(kind) => {
                return Err(kind);
            },
        };
        if text.unicode_len() == 1 {
            let value = text.get_char(0);
            assert(seq![value] =~= text@);
            Ok(value)
        } else {
            proof {
                vstd::utf8::encode_utf8_decode_utf8(text@);
            }
            Err(ErrorKind::InvalidValue)
        }
    }
}

impl FromBytes for Vec<u8> {
    type Err = ErrorKind;

    open spec fn reads(bytes: Seq<u8>, result: Result<Vec<u8>, ErrorKind>) -> bool {
        result matches Ok(value) && value@ == bytes
    }

    fn from_bytes(bytes: &[u8]) -> (result: Result<Vec<u8>, ErrorKind>) {
        let mut value: Vec<u8> = Vec::new();
        value.extend_from_slice(bytes);
        assert(value@ =~= bytes@);
        Ok(value)
    }
}

impl<T: FromBytes> FromBytes for Option<T> {
    type Err = T::Err;

    open spec fn reads(bytes: Seq<u8>, result: Result<Option<T>, T::Err>) -> bool {
        if bytes.len() == 0 {
            result matches Ok(value) && value is None
        } else {
            match result {
                Ok(Some(value)) => T::reads(bytes, Ok(value)),
                Ok(None) => false,
                Err(error) => T::reads(bytes, Err(error)),
            }
        }
    }

    fn from_bytes(bytes: &[u8]) -> (result: Result<Option<T>, T::Err>) {
        if bytes.len() == 0 {
            return Ok(None);
        }
        match T::from_bytes(bytes) {
            Ok(value) => Ok(Some(value)),
            Err(error) => Err(error),
        }
    }
}

/// A string of the `compact_str` crate, which keeps a short text inline.
#[verifier::external_type_specification]
#[verifier::external_body]
pub struct ExCompactString(CompactString);

/// The characters of a compact string.
pub uninterp spec fn compact_chars(text: CompactString) -> Seq<char>;

/// A text as a compact string, by `CompactString::from`, which copies its
/// characters.
#[verifier::external_body]
fn compact(text: &str) -> (value: CompactString)
    ensures
        compact_chars(value) == text@,
{
    CompactString::from(text)
}

impl FromBytes for CompactString {
    type Err = ErrorKind;

    open spec fn reads(bytes: Seq<u8>, result: Result<CompactString, ErrorKind>) -> bool {
        match result {
            Ok(text) => encode_utf8(compact_chars(text)) == bytes,
            Err(kind) => refuses_utf8(bytes, kind),
        }
    }

    fn from_bytes(bytes: &[u8]) -> (result: Result<CompactString, ErrorKind>) {
        match as_utf8(bytes) {
            Ok(text) => Ok(compact(text)),
            Err(kind) => Err(kind),
        }
    }
}

/// Why bytes are not read as a number with a fraction.
pub fn fraction_failure(bytes: &[u8]) -> (kind: ErrorKind)
    ensures
        kind == (if bytes@.len() == 0 {
            ErrorKind::EmptyField
        } else {
            ErrorKind::InvalidValue
        }),
{
    if bytes.len() == 0 {
        ErrorKind::EmptyField
    } else {
        ErrorKind::InvalidValue
    }
}

/// A number in decimal digits, as bytes.
pub open spec fn decimal_bytes(number: nat) -> Seq<u8>
    decreases number,
{
    if number < 10 {
        seq![(ZERO + number) as u8]
    } else {
        decimal_bytes(number / 10).push((ZERO + number % 10) as u8)
    }
}

proof fn lemma_decimal_bytes(number: nat)
    ensures
        decimal_bytes(number).len() > 0,
        forall|i: int|
            0 <= i < decimal_bytes(number).len() ==> ZERO <= #[trigger] decimal_bytes(number)[i]
                <= NINE,
        spelled(decimal_bytes(number)) == number,
    decreases number,
{
    let bytes = decimal_bytes(number);
    if number < 10 {
        assert(bytes.drop_last() =~= Seq::<u8>::empty());
        assert(spelled(bytes.drop_last()) == 0);
    } else {
        lemma_decimal_bytes(number / 10);
        assert(bytes.drop_last() =~= decimal_bytes(number / 10));
    }
}

/// A number that was written in decimal digits is read back, with or without a
/// sign, by every type that holds it.
pub proof fn law_decimal_digits_are_read_back(number: nat, min: int, max: int)
    requires
        min <= 0 <= max,
    ensures
        number <= max ==> integer(decimal_bytes(number), min, max) == Ok::<int, ErrorKind>(
            number as int,
        ),
        number <= max ==> integer(seq![PLUS] + decimal_bytes(number), min, max) == Ok::<
            int,
            ErrorKind,
        >(number as int),
        min <= -number && min < 0 ==> integer(seq![MINUS] + decimal_bytes(number), min, max)
            == Ok::<int, ErrorKind>(-number),
{
    let digits = decimal_bytes(number);
    lemma_decimal_bytes(number);
    crate::search::lemma_first_of_is(
        digits,
        0,
        digits.len() as int,
        no_digit(),
        digits.len() as int,
    );
    assert(ZERO <= digits[0] <= NINE);
    assert(digits.take(digits.len() as int) =~= digits);
    assert((seq![PLUS] + digits).skip(1) =~= digits);
    assert((seq![MINUS] + digits).skip(1) =~= digits);
}

} // verus!
