//! The digest behind hashed storage keys.

use blake2::Digest;
use vstd::prelude::*;

verus! {

/// The BLAKE2s-256 digest of `data`: 32 bytes that depend on `data` alone.
pub uninterp spec fn blake2s256(data: Seq<u8>) -> Seq<u8>;

/// Calls `blake2::Blake2s256::digest`, which feeds `data` to a fresh hasher
/// and finalizes it. Nothing is proved of the digest: the contract only
/// names it.
#[verifier::external_body]
pub(crate) fn blake2s256_digest(data: &[u8]) -> (digest: [u8; 32])
    ensures
        digest@ == blake2s256(data@),
{
    blake2::Blake2s256::digest(data).into()
}

} // verus!
