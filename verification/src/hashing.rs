//! The hashing backend boundary: the digest function used for commitment
//! leaves and tree nodes, named abstractly and reached through one trusted
//! call.

use sha2::Digest;
use sha2::Sha256;
use vstd::prelude::*;

verus! {

/// The digest the hashing backend assigns to a byte sequence: a pure
/// function of the bytes alone.
pub uninterp spec fn sha256_of(bytes: Seq<u8>) -> Seq<u8>;

/// Relies on sha2's `Sha256::digest`: a deterministic digest of the input
/// bytes, 32 bytes wide.
#[verifier::external_body]
pub(crate) fn sha256(bytes: &[u8]) -> (digest: Vec<u8>)
    ensures
        digest@ == sha256_of(bytes@),
        digest@.len() == 32,
{
    Sha256::digest(bytes).to_vec()
}

} // verus!
