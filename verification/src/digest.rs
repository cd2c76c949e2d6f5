//! Digests of payload bytes.

use vstd::prelude::*;
use vstd::slice::*;

use crate::bytes::same_bytes;
use crate::error::{Error, Fault, Result};

verus! {

/// What SHA-256 makes of a byte run.
pub uninterp spec fn sha256_of(data: Seq<u8>) -> Seq<u8>;

/// `sha2::Sha256::digest`: the digest depends on the bytes alone.
#[verifier::external_body]
pub(crate) fn sha256(data: &[u8]) -> (digest: [u8; 32])
    ensures
        digest@ == sha256_of(data@),
{
    <sha2::Sha256 as sha2::Digest>::digest(data).into()
}

/// What is wrong with a payload that should have the given digest.
pub open spec fn sha256_fault(data: Seq<u8>, expected: Seq<u8>) -> Option<Fault> {
    if sha256_of(data) != expected {
        Some(Fault::Sha256Mismatch { expected, actual: sha256_of(data) })
    } else {
        None
    }
}

/// Whether a digest was given at all: one of all zeroes stands for none.
pub open spec fn digest_given(digest: Seq<u8>) -> bool {
    exists|i: int| 0 <= i < digest.len() && digest[i] != 0
}

/// Whether a digest was given.
pub fn is_digest_given(digest: &[u8; 32]) -> (r: bool)
    ensures
        r == digest_given(digest@),
{
    !crate::bytes::all_zero(digest.as_slice(), 0, 32)
}

/// Compare the digest of `data` with the expected one.
///
/// `actual` is the digest of the data.
pub fn compare_sha256(actual: [u8; 32], expected: [u8; 32]) -> (r: Result<()>)
    ensures
        match r {
            Ok(_) => actual@ == expected@,
            Err(e) => actual@ != expected@ && e@ == (Fault::Sha256Mismatch {
                expected: expected@,
                actual: actual@,
            }),
        },
{
    if !same_bytes(actual.as_slice(), expected.as_slice()) {
        return Err(Error::Sha256Mismatch { expected, actual });
    }
    Ok(())
}

/// Check that `data` has the expected digest.
pub fn validate_sha256(data: &[u8], expected: [u8; 32]) -> (r: Result<()>)
    ensures
        match r {
            Ok(_) => sha256_fault(data@, expected@) is None,
            Err(e) => sha256_fault(data@, expected@) == Some(e@),
        },
{
    compare_sha256(sha256(data), expected)
}

} // verus!
