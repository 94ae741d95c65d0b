//! SHA-1, as the `sha1` crate computes it.
use vstd::prelude::*;

verus! {

/// The SHA-1 digest of `data`: 20 bytes that depend on `data` alone.
pub uninterp spec fn sha1_digest(data: Seq<u8>) -> Seq<u8>;

/// Calls `<sha1::Sha1 as sha1::Digest>::digest` on `data`. Claims that the 20 bytes it
/// returns are `sha1_digest` of the bytes given, and nothing more about their value.
#[verifier::external_body]
pub(crate) fn sha1(data: &[u8]) -> (r: [u8; 20])
    ensures
        r@ == sha1_digest(data@),
{
    <sha1::Sha1 as sha1::Digest>::digest(data).into()
}

} // verus!
