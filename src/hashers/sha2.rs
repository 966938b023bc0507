use super::Hasher;
use vstd::prelude::*;

verus! {

/// The SHA-256 digest of a byte sequence.
pub uninterp spec fn sha256_of(bytes: Seq<u8>) -> Seq<u8>;

/// The SHA-512 digest of a byte sequence.
pub uninterp spec fn sha512_of(bytes: Seq<u8>) -> Seq<u8>;

/// Relies on `sha2::Sha256` through `Digest::digest`: the digest of the bytes,
/// 32 bytes long.
#[verifier::external_body]
fn sha256_digest(bytes: &[u8]) -> (r: Vec<u8>)
    ensures
        r@ == sha256_of(bytes@),
        r@.len() == 32,
{
    <::sha2::Sha256 as ::sha2::Digest>::digest(bytes).to_vec()
}

/// Relies on `sha2::Sha512` through `Digest::digest`: the digest of the bytes,
/// 64 bytes long.
#[verifier::external_body]
fn sha512_digest(bytes: &[u8]) -> (r: Vec<u8>)
    ensures
        r@ == sha512_of(bytes@),
        r@.len() == 64,
{
    <::sha2::Sha512 as ::sha2::Digest>::digest(bytes).to_vec()
}

/// SHA-256 digests.
pub struct Sha256Hasher;

impl Hasher for Sha256Hasher {
    open spec fn spec_hash(bytes: Seq<u8>) -> Seq<u8> {
        sha256_of(bytes)
    }

    fn hash_bytes(bytes: &[u8]) -> (r: Vec<u8>)
        ensures
            r@.len() == 32,
    {
        sha256_digest(bytes)
    }
}

/// SHA-512 digests.
pub struct Sha512Hasher;

impl Hasher for Sha512Hasher {
    open spec fn spec_hash(bytes: Seq<u8>) -> Seq<u8> {
        sha512_of(bytes)
    }

    fn hash_bytes(bytes: &[u8]) -> (r: Vec<u8>)
        ensures
            r@.len() == 64,
    {
        sha512_digest(bytes)
    }
}

} // verus!
