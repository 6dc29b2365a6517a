//! The hash functions of the `sha2` and `blake3` crates.
//!
//! A hasher is described by the bytes that were fed to it; a digest is a
//! function of those bytes alone. What that function is, is left to the crates.
use sha2::Digest;
use vstd::prelude::*;

verus! {

/// A 32-byte digest.
pub type Hash32 = [u8; 32];

/// The streaming SHA-256 hasher of the `sha2` crate.
#[verifier::external_type_specification]
#[verifier::external_body]
pub struct ExSha256(sha2::Sha256);

/// The bytes that were fed to a SHA-256 hasher, in order.
pub uninterp spec fn sha256_fed(hasher: sha2::Sha256) -> Seq<u8>;

/// The SHA-256 digest of a message.
pub uninterp spec fn sha256(message: Seq<u8>) -> Seq<u8>;

/// `sha2::Sha256::new`: a hasher to which nothing was fed yet.
#[verifier::external_body]
pub(crate) fn sha256_new() -> (hasher: sha2::Sha256)
    ensures
        sha256_fed(hasher) == Seq::<u8>::empty(),
{
    sha2::Sha256::new()
}

/// `sha2::Digest::update`: feeds `data` to the hasher after what was fed before.
#[verifier::external_body]
pub(crate) fn sha256_update(hasher: &mut sha2::Sha256, data: &[u8])
    ensures
        sha256_fed(*final(hasher)) == sha256_fed(*old(hasher)) + data@,
{
    hasher.update(data);
}

/// `Clone` for `sha2::Sha256`: a second hasher to which the same bytes were fed.
pub assume_specification[ <sha2::Sha256 as Clone>::clone ](hasher: &sha2::Sha256) -> (copy:
    sha2::Sha256)
    ensures
        sha256_fed(copy) == sha256_fed(*hasher),
;

/// `sha2::Digest::finalize`: the digest of the bytes that were fed.
#[verifier::external_body]
pub(crate) fn sha256_finalize(hasher: sha2::Sha256) -> (digest: Hash32)
    ensures
        digest@ == sha256(sha256_fed(hasher)),
{
    hasher.finalize().into()
}

/// The SHA-256 digest of `data`.
pub fn sha256_digest(data: &[u8]) -> (digest: Hash32)
    ensures
        digest@ == sha256(data@),
{
    let mut hasher = sha256_new();
    sha256_update(&mut hasher, data);
    assert(Seq::<u8>::empty() + data@ =~= data@);
    sha256_finalize(hasher)
}

/// The streaming hasher of the `blake3` crate.
#[verifier::external_type_specification]
#[verifier::external_body]
pub struct ExBlake3Hasher(blake3::Hasher);

/// The bytes that were fed to a BLAKE3 hasher, in order.
pub uninterp spec fn blake3_fed(hasher: blake3::Hasher) -> Seq<u8>;

/// The BLAKE3 digest of a message.
pub uninterp spec fn blake3_hash(message: Seq<u8>) -> Seq<u8>;

/// `blake3::Hasher::new`: a hasher to which nothing was fed yet.
#[verifier::external_body]
pub(crate) fn blake3_new() -> (hasher: blake3::Hasher)
    ensures
        blake3_fed(hasher) == Seq::<u8>::empty(),
{
    blake3::Hasher::new()
}

/// `blake3::Hasher::update`: feeds `data` to the hasher after what was fed before.
#[verifier::external_body]
pub(crate) fn blake3_update(hasher: &mut blake3::Hasher, data: &[u8])
    ensures
        blake3_fed(*final(hasher)) == blake3_fed(*old(hasher)) + data@,
{
    hasher.update(data);
}

/// `blake3::Hasher::finalize`: the digest of the bytes that were fed.
#[verifier::external_body]
pub(crate) fn blake3_finalize(hasher: &blake3::Hasher) -> (digest: Hash32)
    ensures
        digest@ == blake3_hash(blake3_fed(*hasher)),
{
    *hasher.finalize().as_bytes()
}

} // verus!
