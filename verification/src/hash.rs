//! Content digests: a fixed-length integrity fingerprint recomputed from the
//! final content bytes of every entry on every write.

use vstd::prelude::*;

verus! {

/// The 16-byte digest of a byte sequence. The digest is a pure function of the
/// content bytes; its value is stated nowhere and is only related to the bytes
/// through `md5_digest`.
pub uninterp spec fn md5_of(content: Seq<u8>) -> [u8; 16];

/// Relies on `md5::Md5::digest` of the `md-5` crate: a 16-byte digest that
/// depends on the content bytes alone, on every machine and in every process.
#[verifier::external_body]
pub(crate) fn md5_digest(content: &Vec<u8>) -> (r: [u8; 16])
    ensures
        r == md5_of(content@),
{
    <md5::Md5 as md5::Digest>::digest(content.as_slice()).into()
}

} // verus!
