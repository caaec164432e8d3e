//! The stable on-disk location of a cached body: a fixed storage root
//! followed by a URL-safe base64 rendering of the SHA-256 digest of the
//! canonical key.  The path is a pure function of the key, so repeated
//! lookups for one key always name one file; distinct keys collide only if
//! their digests do.

use vstd::prelude::*;

use crate::bytes_util::append_bytes;

verus! {

/// The SHA-256 digest of a byte sequence, named but not defined: it is
/// computed by an outside implementation and depends on the input alone.
pub uninterp spec fn sha256_of(data: Seq<u8>) -> Seq<u8>;

/// The URL-safe, padded base64 rendering of a byte sequence, named but not
/// defined: it is computed by an outside implementation and depends on the
/// input alone.
pub uninterp spec fn base64_url_of(data: Seq<u8>) -> Seq<u8>;

/// Relies on `ring::digest::digest` with `ring::digest::SHA256`: the digest
/// is a function of the input bytes alone and is 32 bytes long.  The length
/// bound keeps the input inside what SHA-256 accepts.
#[verifier::external_body]
fn sha256(data: &Vec<u8>) -> (r: Vec<u8>)
    requires
        data@.len() < 0x2000000000000000,
    ensures
        r@ == sha256_of(data@),
        r@.len() == 32,
{
    ring::digest::digest(&ring::digest::SHA256, data.as_slice()).as_ref().to_vec()
}

/// Relies on `base64::engine::general_purpose::URL_SAFE`: the encoding is a
/// function of the input bytes alone, four output bytes for every three
/// input bytes, rounded up by padding.  The length bound keeps the output
/// length computation from overflowing.
#[verifier::external_body]
fn base64_url(data: &Vec<u8>) -> (r: Vec<u8>)
    requires
        data@.len() <= 0xffffffff,
    ensures
        r@ == base64_url_of(data@),
        r@.len() == ((data@.len() + 2) / 3) * 4,
{
    base64::Engine::encode(&base64::engine::general_purpose::URL_SAFE, data.as_slice())
        .into_bytes()
}

/// The bytes of the fixed storage root `cache/files/`.
pub open spec fn storage_root() -> Seq<u8> {
    seq![99u8, 97u8, 99u8, 104u8, 101u8, 47u8, 102u8, 105u8, 108u8, 101u8, 115u8, 47u8]
}

/// The storage path of a key: the root followed by the base64 digest.
pub open spec fn spec_cache_path(key: Seq<u8>) -> Seq<u8> {
    storage_root() + base64_url_of(sha256_of(key))
}

/// Computes the on-disk path for a canonical URL.  The result is a pure
/// function of the key, so it is stable across calls.
pub fn url_to_cache_path(url: &Vec<u8>) -> (r: Vec<u8>)
    requires
        url@.len() < 0x2000000000000000,
    ensures
        r@ == spec_cache_path(url@),
        r@.len() == storage_root().len() + 44,
{
    let digest = sha256(url);
    let b64 = base64_url(&digest);
    let mut out: Vec<u8> = Vec::new();
    out.push(99);
    out.push(97);
    out.push(99);
    out.push(104);
    out.push(101);
    out.push(47);
    out.push(102);
    out.push(105);
    out.push(108);
    out.push(101);
    out.push(115);
    out.push(47);
    proof {
        assert(out@ =~= storage_root());
    }
    append_bytes(&mut out, &b64);
    out
}

} // verus!
