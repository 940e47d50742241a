use sha3::{Digest, Sha3_256};
use vstd::prelude::*;
use vstd::string::StringSliceAdditionalSpecFns;
use vstd::utf8::encode_utf8;

verus! {

/// The SHA3-256 digest of a byte string.
pub uninterp spec fn sha3_256(data: Seq<u8>) -> Seq<u8>;

/// Calls `Sha3_256::digest` of the crate `sha3`. Believed, not proved: the
/// bytes that come back are the SHA3-256 digest of `data`, which depends
/// on `data` alone, and there are 32 of them.
#[verifier::external_body]
fn sha3_256_of(data: &[u8]) -> (digest: Vec<u8>)
    ensures
        digest@ == sha3_256(data@),
        digest@.len() == 32,
{
    Sha3_256::digest(data).to_vec()
}

/// The identity of a note with the text `text`: the SHA3-256 digest of its
/// UTF-8 bytes.
pub open spec fn content_digest(text: Seq<char>) -> Seq<u8> {
    sha3_256(encode_utf8(text))
}

/// The digest that identifies a note with this text: 32 bytes that depend
/// on the bytes of `text` and on nothing else.
pub fn content_hash(text: &str) -> (hash: Vec<u8>)
    ensures
        hash@ == content_digest(text@),
        hash@.len() == 32,
{
    sha3_256_of(text.as_bytes())
}

} // verus!
