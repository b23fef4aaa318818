//! SHA-1 digests, named abstractly and computed by the `sha1` crate.

use sha1::Digest;
use sha1::Sha1;
use vstd::prelude::*;

use crate::types::Sha1Hash;

verus! {

/// The 20-byte SHA-1 digest of a byte sequence.
pub uninterp spec fn sha1_of(data: Seq<u8>) -> Seq<u8>;

/// Relies on `sha1::Sha1::digest` (via the `Digest` trait): the result is
/// the 20-byte SHA-1 digest, a function of the input bytes alone.
#[verifier::external_body]
pub fn calculate_sha1_hash(data: &[u8]) -> (r: Sha1Hash)
    ensures
        r@ == sha1_of(data@),
        r@.len() == 20,
{
    let digest = Sha1::digest(data);
    let mut hash = [0u8; 20];
    hash.copy_from_slice(&digest);
    hash
}

} // verus!
