//! What the library has from elsewhere, and what it takes to be true of it.

use sha2::{Digest, Sha256};
use vstd::prelude::*;
use vstd::utf8::{decode_utf8, valid_utf8};

verus! {

/// The SHA-256 digest of some bytes.
pub uninterp spec fn sha256(data: Seq<u8>) -> Seq<u8>;

/// `sha2::Sha256::digest`: the digest of the bytes, which depends on nothing
/// else and is thirty-two bytes long.
#[verifier::external_body]
pub(crate) fn sha256_of(data: &[u8]) -> (r: Vec<u8>)
    ensures
        r@ == sha256(data@),
        r@.len() == 32,
{
    Sha256::digest(data).to_vec()
}

/// Bytes read as text, with something put in place of what is not UTF-8.
pub uninterp spec fn utf8_lossy(bytes: Seq<u8>) -> Seq<char>;

/// `String::from_utf8_lossy`: bytes that are UTF-8 are read as what they say;
/// in others, what is not UTF-8 becomes replacement characters. Which of
/// those stand where is left unsaid here.
#[verifier::external_body]
pub(crate) fn lossy_of(bytes: &[u8]) -> (r: String)
    ensures
        r@ == utf8_lossy(bytes@),
        valid_utf8(bytes@) ==> r@ == decode_utf8(bytes@),
{
    String::from_utf8_lossy(bytes).into_owned()
}

} // verus!
