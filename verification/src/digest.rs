//! SHA-256 digests and their lowercase hexadecimal rendering.

use vstd::prelude::*;
use vstd::string::StringSliceAdditionalSpecFns;
use vstd::string::StrSliceExecFns;
use sha2::Digest;

verus! {

/// The SHA-256 digest of a byte sequence. The digest is a function of the
/// input bytes alone, so it carries a name rather than a definition.
pub uninterp spec fn sha256_of(data: Seq<u8>) -> Seq<u8>;

/// Relies on sha2::Sha256 through digest::Digest::digest: one call hashing
/// the whole input, returning the 32-byte SHA-256 digest, which depends on
/// the input bytes alone.
#[verifier::external_body]
pub fn sha256_bytes(data: &[u8]) -> (r: Vec<u8>)
    ensures
        r@ == sha256_of(data@),
        r@.len() == 32,
{
    sha2::Sha256::digest(data).to_vec()
}

/// The ASCII code of the lowercase hexadecimal digit for `n < 16`.
pub open spec fn hex_digit(n: u8) -> u8 {
    if n < 10 {
        (48 + n) as u8
    } else {
        (87 + n) as u8
    }
}

/// Lowercase hexadecimal rendering of a byte sequence, two digits per byte.
pub open spec fn hex_of(data: Seq<u8>) -> Seq<u8> {
    Seq::new(
        data.len() * 2,
        |i: int|
            if i % 2 == 0 {
                hex_digit(data[i / 2] / 16)
            } else {
                hex_digit(data[i / 2] % 16)
            },
    )
}

/// Renders bytes as lowercase hexadecimal.
pub fn to_hex(data: &[u8]) -> (r: Vec<u8>)
    ensures
        r@ == hex_of(data@),
{
    let mut r: Vec<u8> = Vec::new();
    let mut i: usize = 0;
    while i < data.len()
        invariant
            i <= data.len(),
            r@ =~= hex_of(data@.take(i as int)),
        decreases data.len() - i,
    {
        let b = data[i];
        let hi = b / 16;
        let lo = b % 16;
        let hi_d = if hi < 10 { 48 + hi } else { 87 + hi };
        let lo_d = if lo < 10 { 48 + lo } else { 87 + lo };
        r.push(hi_d);
        r.push(lo_d);
        i = i + 1;
        proof {
            assert(r@ =~= hex_of(data@.take(i as int)));
        }
    }
    proof {
        assert(data@.take(data@.len() as int) =~= data@);
    }
    r
}

/// The bytes of the string `sha256:` that prefixes every digest reference.
pub open spec fn spec_digest_prefix() -> Seq<u8> {
    ("sha256:").spec_bytes()
}

/// A digest reference: `sha256:` followed by the lowercase hex digest.
pub open spec fn digest_ref_of(data: Seq<u8>) -> Seq<u8> {
    spec_digest_prefix() + hex_of(sha256_of(data))
}

/// Builds the digest reference `sha256:<hex>` for already-hexed digest bytes.
pub fn digest_ref_from_hex(hex: &[u8]) -> (r: Vec<u8>)
    ensures
        r@ == spec_digest_prefix() + hex@,
{
    let mut r: Vec<u8> = ("sha256:").as_bytes_vec();
    let mut i: usize = 0;
    while i < hex.len()
        invariant
            i <= hex.len(),
            r@ =~= spec_digest_prefix() + hex@.take(i as int),
        decreases hex.len() - i,
    {
        r.push(hex[i]);
        i = i + 1;
        proof {
            assert(r@ =~= spec_digest_prefix() + hex@.take(i as int));
        }
    }
    proof {
        assert(hex@.take(hex@.len() as int) =~= hex@);
    }
    r
}

/// Hashes bytes and returns the digest reference `sha256:<hex>`.
pub fn digest_ref(data: &[u8]) -> (r: Vec<u8>)
    ensures
        r@ == digest_ref_of(data@),
{
    let d = sha256_bytes(data);
    let h = to_hex(d.as_slice());
    digest_ref_from_hex(h.as_slice())
}

/// Hashes bytes and returns the bare lowercase hex digest.
pub fn sha256_hex(data: &[u8]) -> (r: Vec<u8>)
    ensures
        r@ == hex_of(sha256_of(data@)),
{
    let d = sha256_bytes(data);
    to_hex(d.as_slice())
}

} // verus!
