//! The funding script: the pay-to-witness-script-hash `script_pubkey`
//! that commits a Bitcoin output to a content digest, a funder key and
//! a funding term.
//!
//! The witness script is
//! `<tweaked_pubkey_33> OP_CHECKSIGVERIFY <term_encoded_3> OP_CSV`,
//! where the tweaked key is `funder + digest * G` on secp256k1 and the
//! term encoding is the low three bytes of the little-endian 32-bit
//! term with bit 22 set (the block-height branch of relative locks).

use vstd::prelude::*;
use crate::codec::push_bytes;
use crate::hashes::{sha256, sha256_of};

verus! {

/// OP_CHECKSIGVERIFY.
pub const OP_CHECKSIGVERIFY_BYTE: u8 = 0xad;

/// OP_NOP3, executed as OP_CHECKSEQUENCEVERIFY.
pub const OP_CSV_BYTE: u8 = 0xb2;

/// The bit that selects block-height relative-lock semantics.
pub const CSV_HEIGHT_BIT: u32 = 0x400000;

/// The compressed public key `funder + digest * G` on secp256k1, with
/// the digest read as a 32-byte big-endian scalar.
pub uninterp spec fn tweak_of(funder: Seq<u8>, digest: Seq<u8>) -> Seq<u8>;

/// Whether the tweak `funder + digest * G` can be computed: the funder
/// bytes parse to a curve point, the digest lies below the curve
/// order, and the sum is not the point at infinity — all functions of
/// the two byte strings alone.
pub uninterp spec fn tweak_ok(funder: Seq<u8>, digest: Seq<u8>) -> bool;

/// The three-byte term encoding: the low three bytes of the
/// little-endian 32-bit term with bit 22 set.
pub open spec fn term_enc3(term: u16) -> Seq<u8> {
    let v = (term as u32) | CSV_HEIGHT_BIT;
    seq![(v & 0xff) as u8, ((v >> 8) & 0xff) as u8, ((v >> 16) & 0xff) as u8]
}

/// The witness script: a direct push of the tweaked key,
/// OP_CHECKSIGVERIFY, a direct push of the three term bytes, OP_CSV.
pub open spec fn witness_script(tweaked: Seq<u8>, term: u16) -> Seq<u8> {
    seq![tweaked.len() as u8] + tweaked + seq![OP_CHECKSIGVERIFY_BYTE, 3u8] + term_enc3(term)
        + seq![OP_CSV_BYTE]
}

/// The P2WSH `script_pubkey` of a witness script: OP_0, then a 32-byte
/// push of the script's SHA-256.
pub open spec fn p2wsh_script_pubkey(wscript: Seq<u8>) -> Seq<u8> {
    seq![0u8, 32u8] + sha256_of(wscript)
}

/// The expected funding `script_pubkey` for a funder, digest and term.
pub open spec fn fscript_of(funder: Seq<u8>, digest: Seq<u8>, term: u16) -> Seq<u8> {
    p2wsh_script_pubkey(witness_script(tweak_of(funder, digest), term))
}

/// Relies on `secp256k1::PublicKey::from_slice`, `Scalar::from_be_bytes`,
/// `PublicKey::add_exp_tweak` and `PublicKey::serialize`: on success the
/// result is the 33-byte compressed encoding of `funder + digest * G`,
/// a function of the two byte strings alone. It fails exactly when
/// `funder` is not a valid public key encoding, when `digest` is not
/// below the curve order, or when the sum is the point at infinity —
/// conditions on the two byte strings alone, named `tweak_ok`.
#[verifier::external_body]
pub fn tweak_pubkey(funder: &[u8], digest: &[u8]) -> (r: Option<Vec<u8>>)
    requires
        digest@.len() == 32,
    ensures
        (r is Some <==> tweak_ok(funder@, digest@)),
        (r matches Some(t) ==> t@ == tweak_of(funder@, digest@) && t@.len() == 33),
{
    let key = secp256k1::PublicKey::from_slice(funder).ok()?;
    let scalar = secp256k1::Scalar::from_be_bytes(digest.try_into().unwrap()).ok()?;
    Some(key.add_exp_tweak(&scalar).ok()?.serialize().to_vec())
}

/// Builds the funding `script_pubkey` from an already tweaked key.
pub fn funding_script_for_tweaked(tweaked: &[u8], term: u16) -> (r: Vec<u8>)
    requires
        tweaked@.len() < 76,
    ensures
        r@ == p2wsh_script_pubkey(witness_script(tweaked@, term)),
{
    let mut wscript: Vec<u8> = Vec::new();
    wscript.push(tweaked.len() as u8);
    push_bytes(&mut wscript, tweaked);
    wscript.push(OP_CHECKSIGVERIFY_BYTE);
    wscript.push(3u8);
    let v: u32 = (term as u32) | CSV_HEIGHT_BIT;
    wscript.push((v & 0xff) as u8);
    wscript.push(((v >> 8) & 0xff) as u8);
    wscript.push(((v >> 16) & 0xff) as u8);
    wscript.push(OP_CSV_BYTE);
    proof {
        assert(wscript@ =~= witness_script(tweaked@, term));
    }
    let digest = sha256(wscript.as_slice());
    let mut spk: Vec<u8> = Vec::new();
    spk.push(0u8);
    spk.push(32u8);
    push_bytes(&mut spk, digest.as_slice());
    proof {
        assert(spk@ =~= p2wsh_script_pubkey(witness_script(tweaked@, term)));
    }
    spk
}

/// Reconstructs the expected funding `script_pubkey` for a funder key,
/// a content digest and a term. Returns `None` exactly when the
/// secp256k1 tweak of the funder key fails.
pub fn funding_script(funder: &[u8], digest: &[u8], term: u16) -> (r: Option<Vec<u8>>)
    requires
        digest@.len() == 32,
    ensures
        (r is Some <==> tweak_ok(funder@, digest@)),
        (r matches Some(s) ==> s@ == fscript_of(funder@, digest@, term)),
{
    match tweak_pubkey(funder, digest) {
        Some(tweaked) => Some(funding_script_for_tweaked(tweaked.as_slice(), term)),
        None => None,
    }
}

/// Law: the witness script pins the term — two different terms never
/// encode to the same witness script over the same tweaked key.
pub proof fn lemma_witness_script_pins_term(tweaked: Seq<u8>, term1: u16, term2: u16)
    requires
        term1 != term2,
    ensures
        witness_script(tweaked, term1) != witness_script(tweaked, term2),
{
    let w1 = witness_script(tweaked, term1);
    let w2 = witness_script(tweaked, term2);
    let base: int = 3 + tweaked.len() as int;
    assert(w1[base] == term_enc3(term1)[0] && w1[base + 1] == term_enc3(term1)[1]);
    assert(w2[base] == term_enc3(term2)[0] && w2[base + 1] == term_enc3(term2)[1]);
    assert(((((term1 as u32) | 0x400000u32) & 0xff) as u8 != ((((term2 as u32) | 0x400000u32)
        & 0xff)) as u8) || (((((term1 as u32) | 0x400000u32) >> 8) & 0xff) as u8 != ((((term2
        as u32) | 0x400000u32) >> 8) & 0xff) as u8) || term1 == term2) by (bit_vector);
    if w1 == w2 {
        assert(w1[base] == w2[base] && w1[base + 1] == w2[base + 1]);
        assert(false);
    }
}

/// Law: the witness script pins the tweaked key — two different keys of
/// equal length never encode to the same witness script under the same
/// term.
pub proof fn lemma_witness_script_pins_key(t1: Seq<u8>, t2: Seq<u8>, term: u16)
    requires
        t1.len() == t2.len(),
        t1 != t2,
    ensures
        witness_script(t1, term) != witness_script(t2, term),
{
    let w1 = witness_script(t1, term);
    let w2 = witness_script(t2, term);
    if w1 == w2 {
        assert forall|i: int| 0 <= i < t1.len() implies t1[i] == t2[i] by {
            assert(w1[1 + i] == t1[i]);
            assert(w2[1 + i] == t2[i]);
        }
        assert(t1 =~= t2);
        assert(false);
    }
}

} // verus!
