//! The digest engine: a cryptographic hash of a file's full content,
//! encoded as a fixed-format string that serves as a content-equality proxy.
use vstd::prelude::*;
use sha2::Digest;
use base64ct::Encoding;

verus! {

/// The SHA-256 digest of a byte sequence. Left uninterpreted: it is a
/// function of the input bytes alone, computed by the `sha2` crate.
pub uninterp spec fn sha256_of(data: Seq<u8>) -> Seq<u8>;

/// The padded standard Base64 encoding of a byte sequence. Left
/// uninterpreted: it is a function of the input bytes alone, computed by
/// the `base64ct` crate.
pub uninterp spec fn base64_of(data: Seq<u8>) -> Seq<char>;

/// The encoded digest string this tool assigns to a file content.
pub open spec fn digest_of(data: Seq<u8>) -> Seq<char> {
    base64_of(sha256_of(data))
}

/// Relies on sha2::Sha256 through the Digest trait: the digest is 32
/// bytes long and depends on the input bytes alone.
#[verifier::external_body]
fn sha256_bytes(data: &[u8]) -> (r: Vec<u8>)
    ensures
        r@ == sha256_of(data@),
        r@.len() == 32,
{
    sha2::Sha256::digest(data).to_vec()
}

/// Relies on base64ct::Base64::encode_string: padded standard Base64,
/// a function of the input bytes alone, whose documented encoded length
/// is four characters for every started block of three bytes. It panics
/// on inputs longer than a quarter of the address space, which the
/// precondition rules out.
#[verifier::external_body]
fn base64_encode(data: &[u8]) -> (r: String)
    requires
        data@.len() * 4 <= usize::MAX,
    ensures
        r@ == base64_of(data@),
        r@.len() == 4 * ((data@.len() + 2) / 3),
{
    base64ct::Base64::encode_string(data)
}

/// Digests one file content held in memory: returns the byte count and
/// the encoded digest string.
pub fn digest_bytes(data: &[u8]) -> (r: (u64, String))
    ensures
        r.0 == data@.len(),
        r.1@ == digest_of(data@),
        r.1@.len() == 44,
{
    let n: u64 = data.len() as u64;
    let hash = sha256_bytes(data);
    let encoded = base64_encode(hash.as_slice());
    (n, encoded)
}

/// Files with byte-identical content always receive identical digest
/// strings. (That contents differing in any byte receive different
/// digests holds only with overwhelming probability and is not stated.)
pub proof fn lemma_digest_deterministic(a: Seq<u8>, b: Seq<u8>)
    requires
        a == b,
    ensures
        digest_of(a) == digest_of(b),
{
}

} // verus!
