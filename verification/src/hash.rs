//! The digest function, and the comparison of a byte range against a digest.

use vstd::prelude::*;

use crate::{Digest, DIGEST_SIZE};

verus! {

/// The BLAKE2b digest of `bytes`, at a digest length of [`DIGEST_SIZE`] bytes
/// and otherwise default parameters. The library never computes this function
/// itself and knows nothing of it beyond its being a function.
pub uninterp spec fn digest_of(bytes: Seq<u8>) -> [u8; 32];

/// Calls `blake2b_simd::Params::hash` with the digest length set to
/// [`DIGEST_SIZE`] by `Params::hash_length`, and copies the `DIGEST_SIZE`
/// bytes of `Hash::as_bytes` into an array.
///
/// Not proved: that what comes back is [`digest_of`] of the input, which is
/// how `digest_of` gets its meaning.
#[verifier::external_body]
pub(crate) fn hash(input: &[u8]) -> (digest: Digest)
    ensures
        digest == digest_of(input@),
{
    let found = blake2b_simd::Params::new().hash_length(DIGEST_SIZE).hash(input);
    let mut digest = [0u8; DIGEST_SIZE];
    digest.copy_from_slice(found.as_bytes());
    digest
}

/// `constant_time_eq::constant_time_eq_32` tells whether two arrays of 32
/// bytes hold the same bytes, in time that does not depend on where they
/// differ.
///
/// Not proved: that its answer is equality of the two arrays.
pub assume_specification[ constant_time_eq::constant_time_eq_32 ](
    a: &[u8; 32],
    b: &[u8; 32],
) -> (same: bool)
    ensures
        same == (a@ == b@),
;

/// Whether `input` has the digest `expected`.
pub fn verify(input: &[u8], expected: &Digest) -> (good: bool)
    ensures
        good == (digest_of(input@)@ == expected@),
{
    let found = hash(input);
    constant_time_eq::constant_time_eq_32(&found, expected)
}

} // verus!
