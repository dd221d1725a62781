//! What holds of the values that are read out of fields.

use compact_str::CompactString;
use vstd::prelude::*;
use vstd::string::StringSliceAdditionalSpecFns;
use vstd::utf8::{encode_utf8, valid_utf8};

use crate::decimal::{decimal_text, hex_text};
use crate::error::ErrorKind;
use crate::from_bytes::{compact_chars, integer, no_digit, spelled, FromBytes};
use crate::search::{first_of, lemma_first_of, lemma_first_of_is};

verus! {

/// Whether bytes are decimal digits, from `0` to `9`.
pub open spec fn are_digits(bytes: Seq<u8>) -> bool {
    forall|i: int| 0 <= i < bytes.len() ==> 48 <= #[trigger] bytes[i] <= 57
}

/// The number of a row of digits, ten times that of the digits before the last
/// and the last.
pub open spec fn decimal(digits: Seq<u8>) -> int {
    digits.fold_left(0int, |number: int, digit: u8| 10 * number + (digit - 48))
}

/// Whether bytes may lead a number: nothing, a plus, or a minus where numbers
/// below zero are possible.
pub open spec fn may_lead(lead: Seq<u8>, min: int) -> bool {
    lead == Seq::<u8>::empty() || lead == seq![43u8] || (min < 0 && lead == seq![45u8])
}

/// The number that a sign and digits are.
pub open spec fn signed_decimal(lead: Seq<u8>, digits: Seq<u8>) -> int {
    if lead == seq![45u8] {
        -decimal(digits)
    } else {
        decimal(digits)
    }
}

proof fn lemma_decimal(digits: Seq<u8>)
    requires
        are_digits(digits),
    ensures
        spelled(digits) == decimal(digits),
    decreases digits.len(),
{
    if digits.len() > 0 {
        lemma_decimal(digits.drop_last());
    }
}

/// A sign and one digit or more are the number that the digits are, with that
/// sign, if it is in range.
pub proof fn law_a_sign_and_digits_are_a_number(
    lead: Seq<u8>,
    digits: Seq<u8>,
    min: int,
    max: int,
)
    requires
        min <= 0 <= max,
        may_lead(lead, min),
        are_digits(digits),
        digits.len() > 0,
    ensures
        min <= signed_decimal(lead, digits) <= max ==> integer(lead + digits, min, max) == Ok::<
            int,
            ErrorKind,
        >(signed_decimal(lead, digits)),
        !(min <= signed_decimal(lead, digits) <= max) ==> integer(lead + digits, min, max) == Err::<
            int,
            ErrorKind,
        >(ErrorKind::OutOfRange),
{
    let bytes = lead + digits;
    lemma_decimal(digits);
    lemma_first_of_is(digits, 0, digits.len() as int, no_digit(), digits.len() as int);
    assert(digits.take(digits.len() as int) =~= digits);
    if lead.len() == 0 {
        assert(bytes =~= digits);
        assert(digits[0] >= 48);
        assert(lead != seq![45u8]);
    } else {
        assert(bytes.skip(1) =~= digits);
        assert(bytes[0] == lead[0]);
        assert(seq![43u8][0] == 43u8);
        assert(seq![45u8][0] == 45u8);
    }
}

/// Bytes with any other byte in them are no number, whatever stands before it
/// or behind it: the other byte is at fault, unless the digits before it are
/// already out of range.
pub proof fn law_any_other_byte_is_refused(
    lead: Seq<u8>,
    digits: Seq<u8>,
    other: u8,
    rest: Seq<u8>,
    min: int,
    max: int,
)
    requires
        min <= 0 <= max,
        may_lead(lead, min),
        are_digits(digits),
        !(48 <= other <= 57),
        lead.len() == 0 && digits.len() == 0 ==> other != 43 && !(min < 0 && other == 45),
    ensures
        min <= signed_decimal(lead, digits) <= max ==> integer(
            lead + digits + seq![other] + rest,
            min,
            max,
        ) == Err::<int, ErrorKind>(ErrorKind::InvalidDigit),
        !(min <= signed_decimal(lead, digits) <= max) ==> integer(
            lead + digits + seq![other] + rest,
            min,
            max,
        ) == Err::<int, ErrorKind>(ErrorKind::OutOfRange),
{
    let bytes = lead + digits + seq![other] + rest;
    let tail = digits + seq![other] + rest;
    lemma_decimal(digits);
    assert(tail[digits.len() as int] == other);
    assert forall|i: int| 0 <= i < digits.len() implies !no_digit()(#[trigger] tail[i]) by {
        assert(tail[i] == digits[i]);
    }
    lemma_first_of_is(tail, 0, tail.len() as int, no_digit(), digits.len() as int);
    assert(tail.take(digits.len() as int) =~= digits);
    if lead.len() == 0 {
        assert(bytes =~= tail);
        assert(lead != seq![45u8]);
        assert(digits.len() > 0 ==> tail[0] == digits[0]);
    } else {
        assert(bytes.skip(1) =~= tail);
        assert(bytes[0] == lead[0]);
        assert(seq![43u8][0] == 43u8);
        assert(seq![45u8][0] == 45u8);
    }
}

/// A sign alone is no number, and nothing is none.
pub proof fn law_no_digits_are_no_number(lead: Seq<u8>, min: int, max: int)
    requires
        min <= 0 <= max,
        may_lead(lead, min),
    ensures
        integer(lead, min, max) == Err::<int, ErrorKind>(ErrorKind::EmptyField),
{
    if lead.len() > 0 {
        assert(lead.skip(1) =~= Seq::<u8>::empty());
        assert(seq![43u8][0] == 43u8);
        assert(seq![45u8][0] == 45u8);
    }
}

/// A number is read only out of a sign, or none, and digits: no other byte
/// stands in it, and what is read is in range and is what the digits are.
pub proof fn law_only_a_sign_and_digits_are_read(bytes: Seq<u8>, min: int, max: int)
    requires
        min <= 0 <= max,
        integer(bytes, min, max) is Ok,
    ensures
        min <= integer(bytes, min, max)->Ok_0 <= max,
        exists|lead: Seq<u8>, digits: Seq<u8>|
            {
                &&& bytes == #[trigger] (lead + digits)
                &&& may_lead(lead, min)
                &&& are_digits(digits)
                &&& digits.len() > 0
                &&& integer(bytes, min, max)->Ok_0 == signed_decimal(lead, digits)
            },
{
    let signed = bytes.len() > 0 && (bytes[0] == 43 || (min < 0 && bytes[0] == 45));
    let lead = if signed {
        bytes.take(1)
    } else {
        Seq::empty()
    };
    let digits = bytes.skip(lead.len() as int);
    assert(bytes =~= lead + digits);
    if signed {
        assert(lead =~= seq![bytes[0]]);
    } else {
        assert(digits =~= bytes);
    }
    lemma_first_of(digits, 0, digits.len() as int, no_digit());
    let end = first_of(digits, 0, digits.len() as int, no_digit());
    assert(end == digits.len());
    assert forall|i: int| 0 <= i < digits.len() implies 48 <= #[trigger] digits[i] <= 57 by {
        assert(!no_digit()(digits[i]));
    }
    law_a_sign_and_digits_are_a_number(lead, digits, min, max);
}

/// One more digit makes ten times the number and the digit, away from zero.
pub proof fn law_one_more_digit_counts_tenfold(bytes: Seq<u8>, digit: u8, min: int, max: int)
    requires
        min <= 0 <= max,
        integer(bytes, min, max) is Ok,
        48 <= digit <= 57,
    ensures
        ({
            let value = integer(bytes, min, max)->Ok_0;
            let longer = if bytes[0] == 45 {
                10 * value - (digit - 48)
            } else {
                10 * value + (digit - 48)
            };
            integer(bytes.push(digit), min, max) == if min <= longer <= max {
                Ok::<int, ErrorKind>(longer)
            } else {
                Err(ErrorKind::OutOfRange)
            }
        }),
{
    law_only_a_sign_and_digits_are_read(bytes, min, max);
    let (lead, digits) = choose|lead: Seq<u8>, digits: Seq<u8>|
        {
            &&& bytes == #[trigger] (lead + digits)
            &&& may_lead(lead, min)
            &&& are_digits(digits)
            &&& digits.len() > 0
            &&& integer(bytes, min, max)->Ok_0 == signed_decimal(lead, digits)
        };
    let longer = digits.push(digit);
    assert(bytes.push(digit) =~= lead + longer);
    assert(longer.drop_last() =~= digits);
    assert(longer.last() == digit);
    if lead.len() == 0 {
        assert(bytes[0] == digits[0]);
    } else {
        assert(bytes[0] == lead[0]);
        assert(seq![43u8][0] == 43u8);
        assert(seq![45u8][0] == 45u8);
    }
    law_a_sign_and_digits_are_a_number(lead, longer, min, max);
}

/// What a type says of bytes, as a number without a width.
pub open spec fn widened<T>(result: Result<T, ErrorKind>, value: spec_fn(T) -> int) -> Result<
    int,
    ErrorKind,
> {
    match result {
        Ok(read) => Ok(value(read)),
        Err(kind) => Err(kind),
    }
}

/// Every integer type reads the same number or refuses it, each for its own
/// range.
pub proof fn law_integer_types_differ_in_range_only(bytes: Seq<u8>)
    ensures
        forall|result: Result<i8, ErrorKind>| #[trigger]
            i8::reads(bytes, result) ==> widened(result, |read: i8| read as int) == integer(
                bytes,
                -0x80,
                0x7f,
            ),
        forall|result: Result<i16, ErrorKind>| #[trigger]
            i16::reads(bytes, result) ==> widened(result, |read: i16| read as int) == integer(
                bytes,
                -0x8000,
                0x7fff,
            ),
        forall|result: Result<i32, ErrorKind>| #[trigger]
            i32::reads(bytes, result) ==> widened(result, |read: i32| read as int) == integer(
                bytes,
                -0x8000_0000,
                0x7fff_ffff,
            ),
        forall|result: Result<i64, ErrorKind>| #[trigger]
            i64::reads(bytes, result) ==> widened(result, |read: i64| read as int) == integer(
                bytes,
                -0x8000_0000_0000_0000,
                0x7fff_ffff_ffff_ffff,
            ),
        forall|result: Result<i128, ErrorKind>| #[trigger]
            i128::reads(bytes, result) ==> widened(result, |read: i128| read as int) == integer(
                bytes,
                -0x8000_0000_0000_0000_0000_0000_0000_0000,
                0x7fff_ffff_ffff_ffff_ffff_ffff_ffff_ffff,
            ),
        forall|result: Result<isize, ErrorKind>| #[trigger]
            isize::reads(bytes, result) ==> widened(result, |read: isize| read as int) == integer(
                bytes,
                isize::MIN as int,
                isize::MAX as int,
            ),
        forall|result: Result<u8, ErrorKind>| #[trigger]
            u8::reads(bytes, result) ==> widened(result, |read: u8| read as int) == integer(
                bytes,
                0,
                0xff,
            ),
        forall|result: Result<u16, ErrorKind>| #[trigger]
            u16::reads(bytes, result) ==> widened(result, |read: u16| read as int) == integer(
                bytes,
                0,
                0xffff,
            ),
        forall|result: Result<u32, ErrorKind>| #[trigger]
            u32::reads(bytes, result) ==> widened(result, |read: u32| read as int) == integer(
                bytes,
                0,
                0xffff_ffff,
            ),
        forall|result: Result<u64, ErrorKind>| #[trigger]
            u64::reads(bytes, result) ==> widened(result, |read: u64| read as int) == integer(
                bytes,
                0,
                0xffff_ffff_ffff_ffff,
            ),
        forall|result: Result<u128, ErrorKind>| #[trigger]
            u128::reads(bytes, result) ==> widened(result, |read: u128| read as int) == integer(
                bytes,
                0,
                0xffff_ffff_ffff_ffff_ffff_ffff_ffff_ffff,
            ),
        forall|result: Result<usize, ErrorKind>| #[trigger]
            usize::reads(bytes, result) ==> widened(result, |read: usize| read as int) == integer(
                bytes,
                0,
                usize::MAX as int,
            ),
{
}

/// The bytes of `true`, `1`, `false` and `0` are truth values, and nothing else
/// is.
pub proof fn law_four_words_are_truth_values(bytes: Seq<u8>, result: Result<bool, ErrorKind>)
    requires
        bool::reads(bytes, result),
    ensures
        result == Ok::<bool, ErrorKind>(true) <==> bytes == seq![116u8, 114, 117, 101] || bytes
            == seq![49u8],
        result == Ok::<bool, ErrorKind>(false) <==> bytes == seq![102u8, 97, 108, 115, 101]
            || bytes == seq![48u8],
        result is Err ==> result == Err::<bool, ErrorKind>(ErrorKind::InvalidValue),
{
    reveal_strlit("true");
    reveal_strlit("1");
    reveal_strlit("false");
    reveal_strlit("0");
    vstd::string::is_ascii_spec_bytes("true");
    vstd::string::is_ascii_spec_bytes("1");
    vstd::string::is_ascii_spec_bytes("false");
    vstd::string::is_ascii_spec_bytes("0");
    assert("true".spec_bytes() =~= seq![116u8, 114, 117, 101]);
    assert("1".spec_bytes() =~= seq![49u8]);
    assert("false".spec_bytes() =~= seq![102u8, 97, 108, 115, 101]);
    assert("0".spec_bytes() =~= seq![48u8]);
    let right = seq![116u8, 114, 117, 101];
    let wrong = seq![102u8, 97, 108, 115, 101];
    assert(right.len() == 4 && wrong.len() == 5);
    assert(seq![49u8][0] == 49u8 && seq![48u8][0] == 48u8);
}

/// The UTF-8 form of characters is read as those characters, and a single one
/// as a `char`; bytes that are no UTF-8 are neither.
pub proof fn law_characters_are_read_back(
    chars: Seq<char>,
    text: Result<String, ErrorKind>,
    single: Result<char, ErrorKind>,
)
    requires
        String::reads(encode_utf8(chars), text),
        char::reads(encode_utf8(chars), single),
    ensures
        text is Ok && text->Ok_0@ == chars,
        single is Ok == (chars.len() == 1),
        single is Ok ==> single->Ok_0 == chars[0],
        single is Err ==> single == Err::<char, ErrorKind>(ErrorKind::InvalidValue),
{
    vstd::utf8::encode_utf8_valid_utf8(chars);
    vstd::utf8::encode_utf8_decode_utf8(chars);
    if text is Ok {
        vstd::utf8::encode_utf8_decode_utf8(text->Ok_0@);
    }
    if single is Ok {
        vstd::utf8::encode_utf8_decode_utf8(seq![single->Ok_0]);
        assert(chars == seq![single->Ok_0]);
        assert(chars[0] == single->Ok_0);
    }
}

/// Bytes that are no UTF-8 are no text and no character.
pub proof fn law_other_bytes_are_no_text(
    bytes: Seq<u8>,
    text: Result<String, ErrorKind>,
    single: Result<char, ErrorKind>,
)
    requires
        !valid_utf8(bytes),
        String::reads(bytes, text),
        char::reads(bytes, single),
    ensures
        text matches Err(ErrorKind::InvalidUtf8(_)),
        single matches Err(ErrorKind::InvalidUtf8(_)),
{
    if text is Ok {
        vstd::utf8::encode_utf8_valid_utf8(text->Ok_0@);
    }
    if single is Ok {
        vstd::utf8::encode_utf8_valid_utf8(seq![single->Ok_0]);
    }
}

/// A compact string holds the characters that a string would.
pub proof fn law_a_compact_string_is_a_string(
    bytes: Seq<u8>,
    text: Result<String, ErrorKind>,
    short: Result<CompactString, ErrorKind>,
)
    requires
        String::reads(bytes, text),
        CompactString::reads(bytes, short),
    ensures
        text is Ok == short is Ok,
        text is Ok ==> text->Ok_0@ == compact_chars(short->Ok_0),
{
    if text is Ok {
        vstd::utf8::encode_utf8_valid_utf8(text->Ok_0@);
        vstd::utf8::encode_utf8_decode_utf8(text->Ok_0@);
    }
    if short is Ok {
        vstd::utf8::encode_utf8_valid_utf8(compact_chars(short->Ok_0));
        vstd::utf8::encode_utf8_decode_utf8(compact_chars(short->Ok_0));
    }
}

/// An optional value is missing where the field is empty and nowhere else;
/// otherwise it is what the type itself reads.
pub proof fn law_an_empty_field_is_no_value<T: FromBytes>(
    bytes: Seq<u8>,
    result: Result<Option<T>, T::Err>,
)
    requires
        Option::<T>::reads(bytes, result),
    ensures
        bytes.len() == 0 <==> result matches Ok(None),
        result matches Ok(Some(value)) ==> T::reads(bytes, Ok(value)),
        result matches Err(error) ==> T::reads(bytes, Err(error)),
{
}

/// A number as text is its digits: those of a tenth of it and the last one.
pub proof fn law_a_number_is_written_in_digits(number: nat, digit: nat)
    requires
        digit < 10,
    ensures
        decimal_text(digit) == seq![(48 + digit) as char],
        number > 0 ==> decimal_text(10 * number + digit) == decimal_text(number).push(
            (48 + digit) as char,
        ),
{
    if number > 0 {
        assert((10 * number + digit) / 10 == number);
        assert((10 * number + digit) % 10 == digit);
    }
}

/// The value of a hexadecimal digit.
pub open spec fn hex_value(digit: char) -> int {
    if '0' <= digit <= '9' {
        digit as int - 48
    } else {
        digit as int - 87
    }
}

/// A byte as text is a prefix and its two hexadecimal digits.
pub proof fn law_a_byte_is_written_in_two_digits(byte: u8)
    ensures
        ({
            let text = hex_text(byte);
            &&& text.len() == 4
            &&& text[0] == '0'
            &&& text[1] == 'x'
            &&& 0 <= hex_value(text[2]) < 16
            &&& 0 <= hex_value(text[3]) < 16
            &&& byte == 16 * hex_value(text[2]) + hex_value(text[3])
        }),
{
}

} // verus!
