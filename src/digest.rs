//! The digests and the encoding that the signatures are made with.
use vstd::prelude::*;
use base64::Engine;

verus! {

/// Lowercase hex MD5 digest of the UTF-8 bytes of a text.
pub uninterp spec fn md5_hex_of(s: Seq<char>) -> Seq<char>;

/// Lowercase hex SHA-1 digest of the UTF-8 bytes of a text.
pub uninterp spec fn sha1_hex_of(s: Seq<char>) -> Seq<char>;

/// Standard padded base64 encoding of bytes.
pub uninterp spec fn base64_of(b: Seq<u8>) -> Seq<char>;

/// Relies on `md5::compute` and the digest's lower-hex formatting: the
/// result depends on the text alone.
#[verifier::external_body]
pub(crate) fn md5_hex(s: &str) -> (r: String)
    ensures
        r@ == md5_hex_of(s@),
{
    format!("{:x}", md5::compute(s.as_bytes()))
}

/// Relies on `sha1_smol::Sha1::from` and the digest's hex `Display`: the result depends on
/// the text alone.
#[verifier::external_body]
pub(crate) fn sha1_hex(s: &str) -> (r: String)
    ensures
        r@ == sha1_hex_of(s@),
{
    sha1_smol::Sha1::from(s).digest().to_string()
}

/// Relies on `base64::engine::general_purpose::STANDARD.encode`: the result
/// depends on the bytes alone, and, padded, has four characters for each
/// started group of three bytes.
#[verifier::external_body]
pub(crate) fn base64_encode(b: &[u8]) -> (r: String)
    requires
        b@.len() <= usize::MAX / 2,
    ensures
        r@ == base64_of(b@),
        r@.len() == 4 * ((b@.len() + 2) / 3),
        r@.len() == 0 <==> b@.len() == 0,
{
    base64::engine::general_purpose::STANDARD.encode(b)
}

} // verus!
