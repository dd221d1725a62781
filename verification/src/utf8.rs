//! Bytes as text.

use vstd::prelude::*;
use vstd::string::StringSliceAdditionalSpecFns;
use vstd::utf8::valid_utf8;

verus! {

/// Where bytes stop being UTF-8.
#[derive(Clone, Copy, Debug, PartialEq, Eq, Structural)]
pub struct Utf8Error {
    /// Length of the longest prefix that is UTF-8.
    pub valid_up_to: usize,
    /// Length of the invalid sequence behind it; absent where the input ends
    /// within a sequence that might have become valid.
    pub error_len: Option<usize>,
}

/// The length of the first invalid sequence, as `core::str::Utf8Error::error_len`
/// tells it.
pub uninterp spec fn utf8_error_len(bytes: Seq<u8>) -> Option<usize>;

/// Whether an error tells where bytes stop being UTF-8.
pub open spec fn not_utf8(bytes: Seq<u8>, error: Utf8Error) -> bool {
    &&& error.valid_up_to <= bytes.len()
    &&& valid_utf8(bytes.take(error.valid_up_to as int))
    &&& forall|i: int|
        error.valid_up_to < i <= bytes.len() ==> !valid_utf8(#[trigger] bytes.take(i))
    &&& match error.error_len {
        Some(len) => 0 < len && error.valid_up_to + len <= bytes.len(),
        None => 1 <= bytes.len() - error.valid_up_to <= 3,
    }
}

/// Bytes as text, by `core::str::from_utf8`.
///
/// It succeeds on UTF-8 and keeps the bytes. Otherwise `valid_up_to` is the
/// greatest length of a prefix that is UTF-8. Behind it stand `error_len` bytes
/// that are wrong, or one to three that are all of the input that is left.
/// Which of the two, and how many, depends on the bytes alone; no more is said.
#[verifier::external_body]
pub(crate) fn utf8_text(bytes: &[u8]) -> (result: Result<&str, Utf8Error>)
    ensures
        result is Ok == valid_utf8(bytes@),
        result matches Ok(text) ==> text.spec_bytes() == bytes@,
        result matches Err(error) ==> not_utf8(bytes@, error) && error.error_len == utf8_error_len(
            bytes@,
        ),
{
    match core::str::from_utf8(bytes) {
        Ok(text) => Ok(text),
        Err(error) => Err(
            Utf8Error { valid_up_to: error.valid_up_to(), error_len: error.error_len() },
        ),
    }
}

} // verus!
