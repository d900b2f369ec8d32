//! The content-hash primitive behind the integrity check: SHA-1, called
//! through the `sha1` crate and named at the specification level.

use vstd::prelude::*;

use sha1::Digest;

verus! {

/// The SHA-1 digest of a byte sequence.  The digest is a function of the
/// bytes alone, so it carries a name here rather than a definition.
pub uninterp spec fn sha1_of(data: Seq<u8>) -> Seq<u8>;

/// Relies on `sha1::Sha1` through the `digest::Digest` one-shot interface:
/// the twenty-byte digest it returns depends on the hashed bytes alone.
#[verifier::external_body]
pub fn sha1_digest(data: &Vec<u8>) -> (r: [u8; 20])
    ensures
        r@ == sha1_of(data@),
{
    sha1::Sha1::digest(data.as_slice()).into()
}

} // verus!
