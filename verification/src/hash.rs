//! The hash function of the private tree.

use vstd::prelude::*;
use sha3::{Digest, Sha3_256};
use crate::cid::HashOutput;

verus! {

/// The SHA3-256 digest of `bytes`.
pub uninterp spec fn sha3_256_digest(bytes: Seq<u8>) -> HashOutput;

/// Calls `Sha3_256::digest` of sha3 on the bytes and hands its 32 bytes out
/// as an array.
#[verifier::external_body]
fn sha3_256(bytes: &[u8]) -> (r: HashOutput)
    ensures
        r == sha3_256_digest(bytes@),
{
    Sha3_256::digest(bytes).into()
}

/// Computes the SHA3-256 digest of `bytes`.
pub fn hash(bytes: &[u8]) -> (r: HashOutput)
    ensures
        r == sha3_256_digest(bytes@),
{
    sha3_256(bytes)
}

} // verus!
