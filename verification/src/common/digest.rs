//! SHA-1, by which pieces and descriptors are known.

use sha1::Digest;
use sha1::Sha1;
use vstd::prelude::*;

verus! {

/// The SHA-1 digest of a run of bytes.
pub uninterp spec fn sha1_of(data: Seq<u8>) -> Seq<u8>;

/// `Sha1::digest` of the `sha1` crate: the 20-byte SHA-1 digest of `data`.
#[verifier::external_body]
pub(crate) fn sha1_digest(data: &[u8]) -> (digest: [u8; 20])
    ensures
        digest@ == sha1_of(data@),
{
    Sha1::digest(data).into()
}

} // verus!
