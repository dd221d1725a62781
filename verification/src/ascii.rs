//! Byte values with a meaning in the supported formats.

use vstd::prelude::*;

verus! {

/// Horizontal tab.
pub const TAB: u8 = 9;

/// Line feed.
pub const LF: u8 = 10;

/// Carriage return.
pub const CR: u8 = 13;

/// Space.
pub const SPACE: u8 = 32;

/// Double quotation mark.
pub const QUOTE: u8 = 34;

/// Number sign.
pub const HASH: u8 = 35;

/// Comma.
pub const COMMA: u8 = 44;

/// Semicolon.
pub const SEMICOLON: u8 = 59;

/// Capital letter N, the letter of the `\N` NULL marker.
pub const UPPER_N: u8 = 78;

/// Reverse solidus.
pub const BACKSLASH: u8 = 92;

/// Vertical bar.
pub const PIPE: u8 = 124;

} // verus!
