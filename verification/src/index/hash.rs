//! The identity of bytes.

use vstd::prelude::*;

verus! {

/// The 128-bit XXH3 hash of `data`, with the default secret and no seed.
pub uninterp spec fn xxh3(data: Seq<u8>) -> u128;

/// Calls `xxhash_rust::xxh3::xxh3_128`.
///
/// What is believed of it: its result is a function of the bytes it is given,
/// the one that `xxh3` names. Nothing is said of which function that is, so no
/// two inputs are claimed to have different hashes.
#[verifier::external_body]
pub(crate) fn xxh3_128(data: &[u8]) -> (hash: u128)
    ensures
        hash == xxh3(data@),
{
    xxhash_rust::xxh3::xxh3_128(data)
}

} // verus!
