use vstd::prelude::*;

pub mod sha2;

verus! {

/// A pluggable digest algorithm: a pure function from bytes to digest bytes.
///
/// `spec_hash` names the digest of a byte sequence; `hash_bytes` computes it.
/// The chunking logic relies only on the fact that equal inputs give equal
/// digests, never on what a digest holds.
pub trait Hasher {
    /// The digest of `bytes`.
    spec fn spec_hash(bytes: Seq<u8>) -> Seq<u8>;

    /// Returns the digest of `bytes`.
    fn hash_bytes(bytes: &[u8]) -> (r: Vec<u8>)
        ensures
            r@ == Self::spec_hash(bytes@),
    ;
}

} // verus!
