//! The content hasher: a collision-resistant digest of a file's bytes,
//! rendered as an uppercase hexadecimal token fit for a filename.

use sha2::Digest;
use vstd::prelude::*;

verus! {

/// The uppercase-hexadecimal SHA-256 token of `bytes`: a fixed token of the
/// bytes alone, the same in every run and on every machine; its exact
/// digits are not described here.
pub uninterp spec fn sha256_hex_upper(bytes: Seq<u8>) -> Seq<char>;

/// Relies on sha2's `Sha256::digest` (a 32-byte digest of the input alone)
/// and data_encoding's `HEXUPPER.encode` (two uppercase hexadecimal digits
/// per byte) to render a file's content token.
#[verifier::external_body]
pub fn hash_token(bytes: &Vec<u8>) -> (r: String)
    ensures
        r@ == sha256_hex_upper(bytes@),
        r@.len() == 64,
{
    let digest = sha2::Sha256::digest(bytes.as_slice());
    data_encoding::HEXUPPER.encode(digest.as_slice())
}

} // verus!
