//! The message digests used by the disc, content and key formats.

use md5::Digest;
use vstd::prelude::*;

verus! {

/// The MD5 digest of `data`.
pub uninterp spec fn md5_of(data: Seq<u8>) -> Seq<u8>;

/// The SHA-1 digest of `data`.
pub uninterp spec fn sha1_of(data: Seq<u8>) -> Seq<u8>;

/// The SHA-256 digest of `data`.
pub uninterp spec fn sha256_of(data: Seq<u8>) -> Seq<u8>;

/// `md5::Md5::digest`: the sixteen digest bytes are a function of the input alone.
#[verifier::external_body]
pub(crate) fn md5(data: &[u8]) -> (r: [u8; 16])
    ensures
        r@ == md5_of(data@),
{
    md5::Md5::digest(data).into()
}

/// `sha1::Sha1::digest`: the twenty digest bytes are a function of the input alone.
#[verifier::external_body]
pub(crate) fn sha1(data: &[u8]) -> (r: [u8; 20])
    ensures
        r@ == sha1_of(data@),
{
    sha1::Sha1::digest(data).into()
}

/// `sha2::Sha256::digest`: the thirty-two digest bytes are a function of the input alone.
#[verifier::external_body]
pub(crate) fn sha256(data: &[u8]) -> (r: [u8; 32])
    ensures
        r@ == sha256_of(data@),
{
    sha2::Sha256::digest(data).into()
}

} // verus!
