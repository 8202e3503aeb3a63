//! Cryptographic hash primitives the library relies on: SHA-256 from
//! `bitcoin_hashes` and SipHash-2-4 from `siphasher`. Both results are
//! named, not restated: they are functions of their inputs alone.

use vstd::prelude::*;

verus! {

/// The SHA-256 digest of a byte string.
pub uninterp spec fn sha256_of(data: Seq<u8>) -> Seq<u8>;

/// The SipHash-2-4 value of a byte string under a pair of 64-bit keys.
pub uninterp spec fn sip24_of(k0: u64, k1: u64, data: Seq<u8>) -> u64;

/// Double SHA-256, Bitcoin's transaction and block hash.
pub open spec fn sha256d_of(data: Seq<u8>) -> Seq<u8> {
    sha256_of(sha256_of(data))
}

/// Relies on `bitcoin_hashes::sha256::Hash::hash`: the SHA-256 digest of
/// the input, 32 bytes, a function of the input bytes alone.
#[verifier::external_body]
pub fn sha256(data: &[u8]) -> (r: Vec<u8>)
    ensures
        r@ == sha256_of(data@),
        r@.len() == 32,
{
    bitcoin_hashes::sha256::Hash::hash(data).to_byte_array().to_vec()
}

/// Double SHA-256 of a byte string.
pub fn sha256d(data: &[u8]) -> (r: Vec<u8>)
    ensures
        r@ == sha256d_of(data@),
        r@.len() == 32,
{
    let first = sha256(data);
    sha256(first.as_slice())
}

/// Relies on `siphasher::sip::SipHasher::new_with_keys` and its `Hasher`
/// impl (`write`, `finish`): the SipHash-2-4 value of the written bytes,
/// a function of the two keys and the bytes alone.
#[verifier::external_body]
pub fn sip24(k0: u64, k1: u64, data: &[u8]) -> (r: u64)
    ensures
        r == sip24_of(k0, k1, data@),
{
    let mut hasher = siphasher::sip::SipHasher::new_with_keys(k0, k1);
    std::hash::Hasher::write(&mut hasher, data);
    std::hash::Hasher::finish(&hasher)
}

} // verus!
