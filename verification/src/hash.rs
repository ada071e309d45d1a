//! SHA-1, as the `sha1` crate computes it.

use sha1::{Digest, Sha1};
use vstd::prelude::*;

verus! {

/// The SHA-1 digest of `data`.
pub uninterp spec fn sha1(data: Seq<u8>) -> Seq<u8>;

/// `Sha1::digest` of the `sha1` crate: the digest of `data`, which has
/// twenty bytes.
#[verifier::external_body]
pub(crate) fn sha1_digest(data: &[u8]) -> (digest: Vec<u8>)
    ensures
        digest@ == sha1(data@),
        digest@.len() == 20,
{
    Sha1::digest(data).to_vec()
}

} // verus!
