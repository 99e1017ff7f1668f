//! Digest algorithms.
//!
//! A run fixes one algorithm for all targets and candidates.  The digest
//! functions themselves are trusted to the `sha2` and `md5` crates; each
//! result is given a name (a function of the input bytes alone), and the
//! rest of the library reasons over those names.  Comparisons elsewhere are
//! always byte-exact, never over hexadecimal text.

use vstd::prelude::*;
use sha2::Digest;

verus! {

/// The digest algorithm used for a whole run.
#[derive(Clone, Copy, PartialEq, Eq, Structural, Debug)]
pub enum HashMode {
    Sha256,
    Sha512,
    Md5,
}

/// The SHA-256 digest of `data`; a function of `data` alone.
pub uninterp spec fn sha256_of(data: Seq<u8>) -> Seq<u8>;

/// The SHA-512 digest of `data`; a function of `data` alone.
pub uninterp spec fn sha512_of(data: Seq<u8>) -> Seq<u8>;

/// The MD5 digest of `data`; a function of `data` alone.
pub uninterp spec fn md5_of(data: Seq<u8>) -> Seq<u8>;

/// The length, in bytes, of a digest produced by `mode`.
pub open spec fn digest_len(mode: HashMode) -> nat {
    match mode {
        HashMode::Sha256 => 32,
        HashMode::Sha512 => 64,
        HashMode::Md5 => 16,
    }
}

/// The digest of `data` under the algorithm `mode`.
pub open spec fn digest_of(mode: HashMode, data: Seq<u8>) -> Seq<u8> {
    match mode {
        HashMode::Sha256 => sha256_of(data),
        HashMode::Sha512 => sha512_of(data),
        HashMode::Md5 => md5_of(data),
    }
}

/// Relies on `sha2::Sha256::digest`: a 32-byte digest determined by the
/// input bytes alone.
#[verifier::external_body]
fn sha256_digest(data: &[u8]) -> (r: Vec<u8>)
    ensures
        r@ == sha256_of(data@),
        r@.len() == 32,
{
    sha2::Sha256::digest(data).to_vec()
}

/// Relies on `sha2::Sha512::digest`: a 64-byte digest determined by the
/// input bytes alone.
#[verifier::external_body]
fn sha512_digest(data: &[u8]) -> (r: Vec<u8>)
    ensures
        r@ == sha512_of(data@),
        r@.len() == 64,
{
    sha2::Sha512::digest(data).to_vec()
}

/// Relies on `md5::compute`: a 16-byte digest determined by the input bytes
/// alone.
#[verifier::external_body]
fn md5_digest(data: &[u8]) -> (r: Vec<u8>)
    ensures
        r@ == md5_of(data@),
        r@.len() == 16,
{
    md5::compute(data).0.to_vec()
}

/// The digest of `data` under the selected algorithm.
pub fn gen_hash(data: &[u8], hash_mode: HashMode) -> (r: Vec<u8>)
    ensures
        r@ == digest_of(hash_mode, data@),
        r@.len() == digest_len(hash_mode),
{
    match hash_mode {
        HashMode::Sha256 => sha256_digest(data),
        HashMode::Sha512 => sha512_digest(data),
        HashMode::Md5 => md5_digest(data),
    }
}

} // verus!
