//! The SHA-256 digest of bytes.
use vstd::prelude::*;

use crate::hex;
use crate::hex::hex_text;

verus! {

/// The 32 bytes of the SHA-256 digest.
pub uninterp spec fn sha256_bytes(bytes: Seq<u8>) -> Seq<u8>;

/// `sha2::Sha256::digest`: depends on the bytes alone, and has 32 bytes.
#[verifier::external_body]
fn digest_bytes(bytes: &[u8]) -> (digest: Vec<u8>)
    ensures
        digest@ == sha256_bytes(bytes@),
        digest@.len() == 32,
{
    <sha2::Sha256 as sha2::Digest>::digest(bytes).to_vec()
}

/// The SHA-256 digest of bytes, in hexadecimal digits.
pub fn sha256(bytes: &[u8]) -> (text: String)
    ensures
        text@ == hex::hex_digits(sha256_bytes(bytes@)),
        text@.len() == 64,
{
    let digest = digest_bytes(bytes);
    proof {
        hex::hex_reads_back(digest@);
    }
    hex_text(&digest)
}

} // verus!
