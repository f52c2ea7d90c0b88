//! The hash functions of the `sha1` and `sha2` crates.

use vstd::prelude::*;
use sha1::Digest;

verus! {

/// The SHA-1 digest of a byte string.
pub uninterp spec fn sha1(data: Seq<u8>) -> Seq<u8>;

/// The SHA-256 digest of a byte string.
pub uninterp spec fn sha256(data: Seq<u8>) -> Seq<u8>;

/// Calls `sha1::Sha1::digest`. Trusted: that the result is the SHA-1 digest
/// of `data`, a function of `data` alone, and 20 bytes long, which is the
/// output size that the crate declares for the hash.
#[verifier::external_body]
pub(crate) fn sha1_digest(data: &[u8]) -> (digest: Vec<u8>)
    ensures
        digest@ == sha1(data@),
        digest@.len() == 20,
{
    sha1::Sha1::digest(data).to_vec()
}

/// Calls `sha2::Sha256::digest`. Trusted: that the result is the SHA-256
/// digest of `data`, a function of `data` alone, and 32 bytes long, which is
/// the output size that the crate declares for the hash.
#[verifier::external_body]
pub(crate) fn sha256_digest(data: &[u8]) -> (digest: Vec<u8>)
    ensures
        digest@ == sha256(data@),
        digest@.len() == 32,
{
    <sha2::Sha256 as sha2::Digest>::digest(data).to_vec()
}

} // verus!
