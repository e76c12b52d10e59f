//! Content hashing with SHA-256.
use sha2::{Digest, Sha256};
use vstd::prelude::*;

verus! {

/// The SHA-256 digest of `data`, written as 64 lowercase hexadecimal
/// digits.
pub uninterp spec fn sha256_hex(data: Seq<u8>) -> Seq<char>;

/// Calls `sha2::Sha256::digest` and formats the 32-byte digest with
/// `{:x}`, which writes every byte as two lowercase hexadecimal digits.
/// Claimed: the result is `sha256_hex` of the bytes and has 64 such
/// digits.
#[verifier::external_body]
pub fn hash(bytes: &[u8]) -> (r: String)
    ensures
        r@ == sha256_hex(bytes@),
        r@.len() == 64,
        forall|i: int|
            0 <= i < 64 ==> ('0' <= #[trigger] r@[i] <= '9') || ('a' <= r@[i] <= 'f'),
{
    format!("{:x}", Sha256::digest(bytes))
}

} // verus!
