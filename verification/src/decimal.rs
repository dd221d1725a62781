//! Numbers as text.

use vstd::prelude::*;
use vstd::string::StringExecFns;

verus! {

/// The character of a digit below sixteen.
pub open spec fn digit_char(digit: int) -> char {
    if digit < 10 {
        (48 + digit) as char
    } else {
        (87 + digit) as char
    }
}

/// A number in decimal digits.
pub open spec fn decimal_text(number: nat) -> Seq<char>
    decreases number,
{
    if number < 10 {
        seq![digit_char(number as int)]
    } else {
        decimal_text(number / 10).push(digit_char((number % 10) as int))
    }
}

/// A byte in hexadecimal digits, with a prefix.
pub open spec fn hex_text(byte: u8) -> Seq<char> {
    seq!['0', 'x', digit_char((byte / 16) as int), digit_char((byte % 16) as int)]
}

/// A digit below sixteen.
fn digit_text(digit: u8) -> (text: &'static str)
    requires
        digit < 16,
    ensures
        text@ == seq![digit_char(digit as int)],
{
    proof {
        reveal_strlit("0");
        reveal_strlit("1");
        reveal_strlit("2");
        reveal_strlit("3");
        reveal_strlit("4");
        reveal_strlit("5");
        reveal_strlit("6");
        reveal_strlit("7");
        reveal_strlit("8");
        reveal_strlit("9");
        reveal_strlit("a");
        reveal_strlit("b");
        reveal_strlit("c");
        reveal_strlit("d");
        reveal_strlit("e");
        reveal_strlit("f");
    }
    let text = match digit {
        0 => "0",
        1 => "1",
        2 => "2",
        3 => "3",
        4 => "4",
        5 => "5",
        6 => "6",
        7 => "7",
        8 => "8",
        9 => "9",
        10 => "a",
        11 => "b",
        12 => "c",
        13 => "d",
        14 => "e",
        _ => "f",
    };
    assert(text@ =~= seq![digit_char(digit as int)]);
    text
}

/// Write a number in decimal digits.
pub fn append_decimal(text: &mut String, number: u64)
    ensures
        final(text)@ == old(text)@ + decimal_text(number as nat),
    decreases number,
{
    let ghost before = text@;
    if number >= 10 {
        append_decimal(text, number / 10);
    }
    text.append(digit_text((number % 10) as u8));
    proof {
        if number >= 10 {
            assert(text@ =~= before + decimal_text(number as nat));
        } else {
            assert(text@ =~= before + decimal_text(number as nat));
        }
    }
}

/// Write a byte in hexadecimal digits.
pub fn append_hex(text: &mut String, byte: u8)
    ensures
        final(text)@ == old(text)@ + hex_text(byte),
{
    let ghost before = text@;
    proof {
        reveal_strlit("0x");
    }
    text.append("0x");
    text.append(digit_text(byte / 16));
    text.append(digit_text(byte % 16));
    assert(text@ =~= before + hex_text(byte));
}

} // verus!
