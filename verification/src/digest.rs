//! The two hash functions the formats use.
use sha1::Digest;
use vstd::prelude::*;

verus! {

/// The SHA-1 digest of `data`.
pub uninterp spec fn sha1_of(data: Seq<u8>) -> Seq<u8>;

/// The SHA-256 digest of `data`.
pub uninterp spec fn sha256_of(data: Seq<u8>) -> Seq<u8>;

/// `sha1::Sha1::digest`: the 20-byte digest is a function of the bytes alone.
#[verifier::external_body]
pub(crate) fn sha1_digest(data: &[u8]) -> (r: [u8; 20])
    ensures
        r@ == sha1_of(data@),
{
    sha1::Sha1::digest(data).into()
}

#[verifier::external_type_specification]
#[verifier::external_body]
pub struct ExSha256(sha2::Sha256);

/// The bytes that a running SHA-256 computation has taken in.
pub uninterp spec fn absorbed(h: sha2::Sha256) -> Seq<u8>;

/// `sha2::Sha256::new`: a computation that has taken in nothing.
#[verifier::external_body]
pub(crate) fn sha256_start() -> (r: sha2::Sha256)
    ensures
        absorbed(r) == Seq::<u8>::empty(),
{
    sha2::Sha256::new()
}

/// `sha2::Digest::update`: the computation takes in `data` after what it has.
#[verifier::external_body]
pub(crate) fn sha256_update(h: &mut sha2::Sha256, data: &[u8])
    ensures
        absorbed(*final(h)) == absorbed(*old(h)) + data@,
{
    h.update(data)
}

/// `sha2::Digest::chain_update` and `finalize` on a copy: the digest of what was taken in,
/// followed by `tail`.
#[verifier::external_body]
pub(crate) fn sha256_finish(h: &sha2::Sha256, tail: &[u8]) -> (r: [u8; 32])
    ensures
        r@ == sha256_of(absorbed(*h) + tail@),
{
    h.clone().chain_update(tail).finalize().into()
}

} // verus!
