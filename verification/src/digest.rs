//! SHA-1, by which pieces and the content identifier are checked.

use sha1::{Digest, Sha1};
use vstd::prelude::*;

verus! {

/// The SHA-1 digest of `data`.
pub uninterp spec fn sha1_digest(data: Seq<u8>) -> Seq<u8>;

/// Calls `sha1::Sha1::digest`, the one-shot form of the crate's `Digest`
/// trait, and hands its 20 bytes back as an array.
///
/// The digest is not computed in the contract: it is named, which claims
/// that the same bytes always have the same digest, and no more.
#[verifier::external_body]
pub(crate) fn sha1(data: &[u8]) -> (digest: [u8; 20])
    ensures
        digest@ == sha1_digest(data@),
{
    Sha1::digest(data).into()
}

} // verus!
