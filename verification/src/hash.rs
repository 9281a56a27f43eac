//! The tagged (domain-separated) hash primitive.
//!
//! A tagged hash binds every digest to a textual domain tag, so that digests
//! produced in one context (say, leaf hashing) can never collide by
//! construction with digests produced in another (branch hashing):
//!
//! 1. `tag_digest = H(utf8(tag))`
//! 2. `inner = H(tag_digest || tag_digest || data)`
//! 3. `output = H(inner)`
//!
//! where `H` is SHA-256. Repeating the tag digest twice before the payload
//! gives cheap domain separation; the extra outer round hardens the result
//! against length-extension-style reuse of the inner digest.

use vstd::prelude::*;
use vstd::slice::slice_to_vec;
use vstd::utf8::encode_utf8;

verus! {

/// The SHA-256 digest of a byte sequence, named but left uninterpreted:
/// the statement that matters here is that it is a function of the input
/// bytes alone.
pub uninterp spec fn sha256_of(data: Seq<u8>) -> Seq<u8>;

/// Relies on `sha2::Sha256::digest`: the returned digest is exactly 32 bytes
/// and depends on the input bytes alone.
#[verifier::external_body]
fn sha256(data: &[u8]) -> (r: [u8; 32])
    ensures
        r@ == sha256_of(data@),
{
    let digest = <sha2::Sha256 as sha2::Digest>::digest(data);
    digest.into()
}

/// The tagged hash of `data` under the domain tag whose UTF-8 encoding is
/// `tag_bytes`: two rounds of SHA-256 over the doubled tag digest and the
/// payload.
pub open spec fn spec_tagged_hash(data: Seq<u8>, tag_bytes: Seq<u8>) -> Seq<u8> {
    let tag_digest = sha256_of(tag_bytes);
    sha256_of(sha256_of(tag_digest + tag_digest + data))
}

/// The raw 64-byte concatenation of two digests, left digest first: no
/// length prefix and no separator.
pub(crate) fn concat_bytes(left: &[u8; 32], right: &[u8; 32]) -> (r: Vec<u8>)
    ensures
        r@ == left@ + right@,
{
    let mut r: Vec<u8> = slice_to_vec(left.as_slice());
    let mut tail: Vec<u8> = slice_to_vec(right.as_slice());
    r.append(&mut tail);
    r
}

/// Hash `data` under the domain `tag`.
///
/// The result is pinned to `spec_tagged_hash`, a function of the payload and
/// the tag's UTF-8 bytes alone, so identical `(data, tag)` pairs always yield
/// identical digests.
pub fn tagged_hash(data: &[u8], tag: &str) -> (r: [u8; 32])
    ensures
        r@ == spec_tagged_hash(data@, encode_utf8(tag@)),
{
    let tag_digest = sha256(tag.as_bytes());

    let mut buf: Vec<u8> = slice_to_vec(tag_digest.as_slice());
    let mut second: Vec<u8> = slice_to_vec(tag_digest.as_slice());
    let mut payload: Vec<u8> = slice_to_vec(data);
    buf.append(&mut second);
    buf.append(&mut payload);

    let inner = sha256(buf.as_slice());
    let r = sha256(inner.as_slice());
    r
}

} // verus!
