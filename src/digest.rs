//! SHA-1, as the info-hash uses it.

use vstd::prelude::*;

verus! {

/// The SHA-1 digest of a byte sequence.
pub uninterp spec fn sha1_of(data: Seq<u8>) -> Seq<u8>;

/// Relies on `openssl::sha::sha1`: the SHA-1 digest of `data`, which
/// depends on the bytes alone.
#[verifier::external_body]
pub(crate) fn sha1(data: &[u8]) -> (r: [u8; 20])
    ensures
        r@ == sha1_of(data@),
{
    openssl::sha::sha1(data)
}

} // verus!
