//! Content digests: SHA-1 of a file's bytes, written as lowercase hex.

use crate::text::{hex_lower, to_hex};
use sha1::Digest;
use vstd::prelude::*;

verus! {

/// The SHA-1 digest of a byte string, as computed by the `sha1` crate.
pub uninterp spec fn sha1_bytes(data: Seq<u8>) -> Seq<u8>;

/// Calls `sha1::Sha1::digest` (the one-shot form of `Digest`) and copies the
/// output array into a vector.
///
/// Trusted: the result is the SHA-1 digest of `data`, a function of the bytes
/// alone, and it is 20 bytes long (the crate fixes the output size at 20).
#[verifier::external_body]
fn sha1_of(data: &[u8]) -> (out: Vec<u8>)
    ensures
        out@ == sha1_bytes(data@),
        out@.len() == 20,
{
    sha1::Sha1::digest(data).to_vec()
}

/// The digest under which a file's content is compared: SHA-1, lowercase hex.
pub open spec fn content_digest(content: Seq<u8>) -> Seq<char> {
    hex_lower(sha1_bytes(content))
}

/// Computes the digest of a file's content.
pub fn digest_hex(content: &[u8]) -> (out: String)
    ensures
        out@ == content_digest(content@),
        out@.len() == 40,
{
    let raw = sha1_of(content);
    to_hex(raw.as_slice())
}

} // verus!
