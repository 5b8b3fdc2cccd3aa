//! SHA-1 digests, as used for piece verification and the info fingerprint.
//!
//! The digest itself is computed by the `sha1` crate; this module names its
//! result so that contracts elsewhere can speak about it exactly.

use vstd::prelude::*;
use sha1::Digest;
use crate::util::bytes_eq;

verus! {

/// The SHA-1 digest of a byte sequence. The algorithm is pure: the digest is
/// a function of the input bytes alone, so it is given a name here rather
/// than a definition; `sha1_digest` is the one way to compute it.
pub uninterp spec fn sha1_of(data: Seq<u8>) -> Seq<u8>;

/// Relies on `sha1::Sha1` through the `Digest` one-shot interface: the
/// digest depends on the input bytes alone and is 20 bytes long (output size
/// `U20` in the crate's definition).
#[verifier::external_body]
pub(crate) fn sha1_digest(data: &[u8]) -> (r: Vec<u8>)
    ensures
        r@ == sha1_of(data@),
        r@.len() == 20,
{
    sha1::Sha1::digest(data).to_vec()
}

/// True exactly when `data` hashes to `expected`.
pub fn sha1_matches(data: &[u8], expected: &[u8]) -> (r: bool)
    ensures
        r <==> sha1_of(data@) == expected@,
{
    let digest = sha1_digest(data);
    bytes_eq(digest.as_slice(), expected)
}

} // verus!
