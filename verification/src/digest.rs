//! Content digests.

use sha2::{Digest, Sha256};
use vstd::prelude::*;

verus! {

/// The SHA-256 digest of a byte string.
pub uninterp spec fn sha256(data: Seq<u8>) -> [u8; 32];

/// The SHA-256 digest, as `sha2::Sha256::digest` computes it: thirty-two bytes
/// that depend on the input alone.
#[verifier::external_body]
pub(crate) fn sha256_digest(data: &[u8]) -> (digest: [u8; 32])
    ensures
        digest == sha256(data@),
{
    Sha256::digest(data).into()
}

} // verus!
