//! The replicated unit: content bytes bound to a Bitcoin funding
//! transaction by a digest commitment, an SPV proof and a funding
//! script, and ranked by a weight of satoshis per stored byte.

use vstd::prelude::*;
use vstd::arithmetic::div_mod::lemma_div_is_ordered_by_denominator;
use crate::codec::{enc_bytes, push_enc_bytes, bytes_eq, copy_bytes};
use crate::hashes::{sha256, sha256d, sha256_of, sha256d_of};
use crate::script::{fscript_of, funding_script, tweak_ok};

verus! {

/// One output of the funding transaction: its value in satoshis and
/// its `script_pubkey` bytes.
pub struct TxOut {
    /// output value in satoshis
    pub value: u64,
    /// the output's script_pubkey
    pub script_pubkey: Vec<u8>,
}

/// The funding transaction, as the validation logic reads it: its
/// consensus-serialized bytes (whose double SHA-256 is the txid) and
/// its outputs.
pub struct Transaction {
    /// consensus serialization of the whole transaction
    pub raw: Vec<u8>,
    /// the transaction's outputs
    pub outputs: Vec<TxOut>,
}

/// Replicated content.
pub struct Content {
    /// content data
    pub data: Vec<u8>,
    /// funding transaction
    pub funding: Transaction,
    /// hash of the block the funding transaction was included into
    pub block_id: Vec<u8>,
    /// Merkle path from the funding txid up to the block's Merkle root
    pub spv_proof: Vec<(bool, Vec<u8>)>,
    /// funder public key, serialized
    pub funder: Vec<u8>,
    /// term of funding in blocks
    pub term: u16,
}

/// The digest pre-image: the consensus length-prefixed data bytes
/// followed by the consensus length-prefixed funder key bytes.
pub open spec fn digest_preimage(data: Seq<u8>, funder: Seq<u8>) -> Seq<u8> {
    enc_bytes(data) + enc_bytes(funder)
}

/// The content digest: SHA-256 of the digest pre-image.
pub open spec fn content_digest(data: Seq<u8>, funder: Seq<u8>) -> Seq<u8> {
    sha256_of(digest_preimage(data, funder))
}

/// One step of the Merkle fold: hash the accumulator with the sibling,
/// sibling first when the sibling lies on the left.
pub open spec fn spv_step(acc: Seq<u8>, left: bool, sib: Seq<u8>) -> Seq<u8> {
    if left {
        sha256d_of(sib + acc)
    } else {
        sha256d_of(acc + sib)
    }
}

/// Folds a Merkle authentication path over an accumulator.
pub open spec fn spv_fold(acc: Seq<u8>, path: Seq<(bool, Seq<u8>)>) -> Seq<u8>
    decreases path.len(),
{
    if path.len() == 0 {
        acc
    } else {
        spv_fold(spv_step(acc, path[0].0, path[0].1), path.drop_first())
    }
}

/// The mathematical view of an SPV proof: each pair's sibling hash as
/// a byte sequence.
pub open spec fn path_view(p: Seq<(bool, Vec<u8>)>) -> Seq<(bool, Seq<u8>)> {
    p.map_values(|e: (bool, Vec<u8>)| (e.0, e.1@))
}

/// Sum of the values of the outputs whose `script_pubkey` equals the
/// given script.
pub open spec fn sum_funding(outs: Seq<TxOut>, script: Seq<u8>) -> int
    decreases outs.len(),
{
    if outs.len() == 0 {
        0
    } else {
        (if outs[0].script_pubkey@ == script {
            outs[0].value as int
        } else {
            0
        }) + sum_funding(outs.drop_first(), script)
    }
}

/// The weight truncated to 32 bits, as `as u32` truncates.
pub open spec fn weight_value(sum: int, fp: int) -> u32
    recommends
        fp > 0,
        sum >= 0,
{
    (((sum / fp) % 0x100000000) as u32)
}

/// Folding one more pair is one more step on the folded prefix.
proof fn lemma_spv_fold_snoc(acc: Seq<u8>, path: Seq<(bool, Seq<u8>)>, e: (bool, Seq<u8>))
    ensures
        spv_fold(acc, path.push(e)) == spv_step(spv_fold(acc, path), e.0, e.1),
    decreases path.len(),
{
    assert(path.push(e)[0] == if path.len() == 0 {
        e
    } else {
        path[0]
    });
    if path.len() == 0 {
        let p = path.push(e);
        assert(p.drop_first() =~= path);
        assert(spv_fold(acc, p) == spv_fold(spv_step(acc, p[0].0, p[0].1), p.drop_first()));
        assert(spv_fold(spv_step(acc, e.0, e.1), path) == spv_step(acc, e.0, e.1));
    } else {
        assert(path.push(e).drop_first() =~= path.drop_first().push(e));
        lemma_spv_fold_snoc(spv_step(acc, path[0].0, path[0].1), path.drop_first(), e);
    }
}

/// One more output adds its value when its script matches.
proof fn lemma_sum_funding_snoc(outs: Seq<TxOut>, script: Seq<u8>, o: TxOut)
    ensures
        sum_funding(outs.push(o), script) == sum_funding(outs, script) + (if o.script_pubkey@
            == script {
            o.value as int
        } else {
            0
        }),
    decreases outs.len(),
{
    if outs.len() == 0 {
        assert(outs.push(o).drop_first() =~= outs);
    } else {
        assert(outs.push(o).drop_first() =~= outs.drop_first().push(o));
        lemma_sum_funding_snoc(outs.drop_first(), script, o);
    }
}

/// The summed output values never go negative.
proof fn lemma_sum_funding_nonneg(outs: Seq<TxOut>, script: Seq<u8>)
    ensures
        sum_funding(outs, script) >= 0,
    decreases outs.len(),
{
    if outs.len() > 0 {
        lemma_sum_funding_nonneg(outs.drop_first(), script);
    }
}

/// Whether some output of `outs` pays to the given script.
pub fn any_output_pays(outs: &Vec<TxOut>, script: &[u8]) -> (r: bool)
    ensures
        r == exists|i: int| 0 <= i < outs@.len() && outs@[i].script_pubkey@ == script@,
{
    let mut i: usize = 0;
    while i < outs.len()
        invariant
            i <= outs@.len(),
            forall|j: int| 0 <= j < i ==> outs@[j].script_pubkey@ != script@,
        decreases outs@.len() - i,
    {
        if bytes_eq(outs[i].script_pubkey.as_slice(), script) {
            return true;
        }
        i += 1;
    }
    false
}

/// Sums the values of the outputs paying to the given script.
fn sum_outputs_paying(outs: &Vec<TxOut>, script: &[u8]) -> (r: u128)
    ensures
        r == sum_funding(outs@, script@),
{
    proof {
        lemma_sum_funding_nonneg(outs@, script@);
    }
    let mut total: u128 = 0;
    let mut i: usize = 0;
    while i < outs.len()
        invariant
            i <= outs@.len(),
            total == sum_funding(outs@.take(i as int), script@),
            total <= i * 0xffff_ffff_ffff_ffff,
        decreases outs@.len() - i,
    {
        proof {
            lemma_sum_funding_snoc(outs@.take(i as int), script@, outs@[i as int]);
            assert(outs@.take(i + 1) =~= outs@.take(i as int).push(outs@[i as int]));
        }
        if bytes_eq(outs[i].script_pubkey.as_slice(), script) {
            total = total + outs[i].value as u128;
        }
        i += 1;
    }
    proof {
        assert(outs@.take(outs@.len() as int) =~= outs@);
    }
    total
}

/// Whether two content records hold the same bytes in every field.
pub open spec fn same_content(a: &Content, b: &Content) -> bool {
    &&& a.data@ == b.data@
    &&& a.funding.raw@ == b.funding.raw@
    &&& a.funding.outputs@.len() == b.funding.outputs@.len()
    &&& forall|i: int|
        0 <= i < a.funding.outputs@.len() ==> #[trigger] a.funding.outputs@[i].value
            == b.funding.outputs@[i].value && a.funding.outputs@[i].script_pubkey@
            == b.funding.outputs@[i].script_pubkey@
    &&& a.block_id@ == b.block_id@
    &&& path_view(a.spv_proof@) == path_view(b.spv_proof@)
    &&& a.funder@ == b.funder@
    &&& a.term == b.term
}

impl Content {
    /// A field-by-field copy of this record.
    pub fn duplicate(&self) -> (r: Content)
        ensures
            same_content(&r, self),
    {
        let mut outputs: Vec<TxOut> = Vec::new();
        let mut i: usize = 0;
        while i < self.funding.outputs.len()
            invariant
                i <= self.funding.outputs@.len(),
                outputs@.len() == i,
                forall|j: int|
                    0 <= j < i ==> #[trigger] outputs@[j].value == self.funding.outputs@[j].value
                        && outputs@[j].script_pubkey@ == self.funding.outputs@[j].script_pubkey@,
            decreases self.funding.outputs@.len() - i,
        {
            outputs.push(
                TxOut {
                    value: self.funding.outputs[i].value,
                    script_pubkey: copy_bytes(self.funding.outputs[i].script_pubkey.as_slice()),
                },
            );
            i += 1;
        }
        let mut spv: Vec<(bool, Vec<u8>)> = Vec::new();
        let mut i: usize = 0;
        while i < self.spv_proof.len()
            invariant
                i <= self.spv_proof@.len(),
                spv@.len() == i,
                forall|j: int|
                    0 <= j < i ==> #[trigger] spv@[j].0 == self.spv_proof@[j].0 && spv@[j].1@
                        == self.spv_proof@[j].1@,
            decreases self.spv_proof@.len() - i,
        {
            spv.push((self.spv_proof[i].0, copy_bytes(self.spv_proof[i].1.as_slice())));
            i += 1;
        }
        let r = Content {
            data: copy_bytes(self.data.as_slice()),
            funding: Transaction { raw: copy_bytes(self.funding.raw.as_slice()), outputs },
            block_id: copy_bytes(self.block_id.as_slice()),
            spv_proof: spv,
            funder: copy_bytes(self.funder.as_slice()),
            term: self.term,
        };
        proof {
            assert(path_view(r.spv_proof@) =~= path_view(self.spv_proof@));
        }
        r
    }

    /// The folded Merkle path of this content, from its funding txid.
    pub open spec fn spv_root(&self) -> Seq<u8> {
        spv_fold(sha256d_of(self.funding.raw@), path_view(self.spv_proof@))
    }

    /// The on-wire footprint the weight is measured against: data
    /// bytes, serialized funding transaction bytes, and 32 bytes for
    /// each proof element.
    pub open spec fn footprint(&self) -> int {
        self.data@.len() as int + self.funding.raw@.len() as int + 32 * self.spv_proof@.len() as int
    }

    /// The digest that identifies this content: SHA-256 over the
    /// length-prefixed data bytes followed by the length-prefixed
    /// funder key bytes.
    pub fn digest(&self) -> (r: Vec<u8>)
        ensures
            r@ == content_digest(self.data@, self.funder@),
            r@.len() == 32,
    {
        let mut preimage: Vec<u8> = Vec::new();
        push_enc_bytes(&mut preimage, self.data.as_slice());
        push_enc_bytes(&mut preimage, self.funder.as_slice());
        proof {
            assert(preimage@ =~= digest_preimage(self.data@, self.funder@));
        }
        sha256(preimage.as_slice())
    }

    /// The id of the funding transaction: double SHA-256 of its
    /// consensus serialization.
    pub fn funding_txid(&self) -> (r: Vec<u8>)
        ensures
            r@ == sha256d_of(self.funding.raw@),
            r@.len() == 32,
    {
        sha256d(self.funding.raw.as_slice())
    }

    /// Checks the SPV proof: folds the Merkle path from the funding
    /// txid and compares the result with the given Merkle root.
    pub fn is_valid_spv_proof(&self, merkle_root: &[u8]) -> (r: bool)
        ensures
            r == (self.spv_root() == merkle_root@),
    {
        let mut acc = self.funding_txid();
        let ghost txid = sha256d_of(self.funding.raw@);
        let mut i: usize = 0;
        while i < self.spv_proof.len()
            invariant
                i <= self.spv_proof@.len(),
                acc@ == spv_fold(txid, path_view(self.spv_proof@).take(i as int)),
            decreases self.spv_proof@.len() - i,
        {
            proof {
                lemma_spv_fold_snoc(
                    txid,
                    path_view(self.spv_proof@).take(i as int),
                    path_view(self.spv_proof@)[i as int],
                );
                assert(path_view(self.spv_proof@).take(i + 1) =~= path_view(
                    self.spv_proof@,
                ).take(i as int).push(path_view(self.spv_proof@)[i as int]));
            }
            let mut buf: Vec<u8> = Vec::new();
            let left = self.spv_proof[i].0;
            if left {
                buf = copy_bytes(self.spv_proof[i].1.as_slice());
                let mut rest = copy_bytes(acc.as_slice());
                buf.append(&mut rest);
            } else {
                buf = copy_bytes(acc.as_slice());
                let mut rest = copy_bytes(self.spv_proof[i].1.as_slice());
                buf.append(&mut rest);
            }
            acc = sha256d(buf.as_slice());
            i += 1;
        }
        proof {
            assert(path_view(self.spv_proof@).take(self.spv_proof@.len() as int) =~= path_view(
                self.spv_proof@,
            ));
        }
        bytes_eq(acc.as_slice(), merkle_root)
    }

    /// Whether the funding transaction really funds this content: the
    /// tweak of the funder key by the content digest is computable,
    /// and some output pays to the expected funding script.
    pub open spec fn funding_ok(&self) -> bool {
        &&& tweak_ok(self.funder@, content_digest(self.data@, self.funder@))
        &&& exists|i: int|
            0 <= i < self.funding.outputs@.len() && self.funding.outputs@[i].script_pubkey@
                == fscript_of(self.funder@, content_digest(self.data@, self.funder@), self.term)
    }

    /// Checks that the funding transaction really funds this content:
    /// some output must pay to the expected funding script. False also
    /// when the secp256k1 tweak of the funder key fails.
    pub fn is_valid_funding(&self) -> (r: bool)
        ensures
            r == self.funding_ok(),
    {
        let d = self.digest();
        match funding_script(self.funder.as_slice(), d.as_slice(), self.term) {
            Some(script) => any_output_pays(&self.funding.outputs, script.as_slice()),
            None => false,
        }
    }

    /// Full validation at a known Merkle root: the funding check and
    /// the SPV proof check together.
    pub fn is_valid(&self, merkle_root: &[u8]) -> (r: bool)
        ensures
            r == (self.funding_ok() && self.spv_root() == merkle_root@),
    {
        let funding_ok = self.is_valid_funding();
        let spv_ok = self.is_valid_spv_proof(merkle_root);
        funding_ok && spv_ok
    }

    /// The weight this content earns given a funding script: satoshis
    /// paid to the script divided by the stored footprint, truncated to
    /// 32 bits. A zero footprint is a validation failure, not a panic.
    pub fn weight_given_script(&self, script: &[u8]) -> (r: Option<u32>)
        ensures
            r == (if self.footprint() > 0 {
                Some(weight_value(sum_funding(self.funding.outputs@, script@), self.footprint()))
            } else {
                Option::<u32>::None
            }),
    {
        let sum = sum_outputs_paying(&self.funding.outputs, script);
        let fp: u128 = self.data.len() as u128 + self.funding.raw.len() as u128 + 32u128
            * self.spv_proof.len() as u128;
        if fp == 0 {
            return None;
        }
        proof {
            lemma_sum_funding_nonneg(self.funding.outputs@, script@);
        }
        let q: u128 = sum / fp;
        let w: u32 = (q % 0x100000000) as u32;
        proof {
            assert(fp as int == self.footprint());
            assert(q as int == sum_funding(self.funding.outputs@, script@) / self.footprint());
        }
        Some(w)
    }

    /// The admission score of this content: satoshis funded per stored
    /// byte. `None` exactly when the footprint is zero or the funder
    /// key cannot be tweaked.
    pub fn weight(&self) -> (r: Option<u32>)
        ensures
            (r is Some <==> self.footprint() > 0 && tweak_ok(
                self.funder@,
                content_digest(self.data@, self.funder@),
            )),
            (r matches Some(w) ==> w == weight_value(
                sum_funding(
                    self.funding.outputs@,
                    fscript_of(self.funder@, content_digest(self.data@, self.funder@), self.term),
                ),
                self.footprint(),
            )),
    {
        let d = self.digest();
        match funding_script(self.funder.as_slice(), d.as_slice(), self.term) {
            Some(script) => self.weight_given_script(script.as_slice()),
            None => None,
        }
    }
}

/// Law: the digest pre-image depends on both the data bytes and the
/// funder bytes — two records agree on the pre-image only when they
/// agree on both fields. The digest itself is a function of the
/// pre-image, so it is deterministic in both.
pub proof fn lemma_digest_preimage_pins_fields(d1: Seq<u8>, f1: Seq<u8>, d2: Seq<u8>, f2: Seq<u8>)
    requires
        d1.len() < 0x10000000000000000,
        f1.len() < 0x10000000000000000,
        d2.len() < 0x10000000000000000,
        f2.len() < 0x10000000000000000,
        digest_preimage(d1, f1) == digest_preimage(d2, f2),
    ensures
        d1 == d2,
        f1 == f2,
{
    crate::codec::lemma_enc_bytes_append_injective(d1, enc_bytes(f1), d2, enc_bytes(f2));
    assert(enc_bytes(f1) + Seq::<u8>::empty() =~= enc_bytes(f1));
    assert(enc_bytes(f2) + Seq::<u8>::empty() =~= enc_bytes(f2));
    crate::codec::lemma_enc_bytes_append_injective(f1, Seq::empty(), f2, Seq::empty());
}

/// Law: with the funded satoshis held fixed, the weight never grows as
/// the footprint grows, as long as the undivided weight fits in 32
/// bits.
pub proof fn lemma_weight_monotonic(sum: int, fp1: int, fp2: int)
    requires
        0 <= sum,
        0 < fp1 <= fp2,
        sum / fp1 <= u32::MAX,
    ensures
        weight_value(sum, fp2) <= weight_value(sum, fp1),
{
    lemma_div_is_ordered_by_denominator(sum, fp1, fp2);
    assert(sum / fp2 <= sum / fp1);
    assert(sum / fp2 >= 0) by {
        vstd::arithmetic::div_mod::lemma_div_pos_is_pos(sum, fp2);
    }
}

} // verus!
