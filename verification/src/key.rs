//! The compact content identifier: a 32-byte digest plus a 32-bit
//! weight, with the XOR-group algebra and keyed hashing that the IBLT
//! cells need.

use vstd::prelude::*;
use crate::codec::{be32, push_be32, push_bytes, bytes_eq, copy_bytes};
use crate::hashes::{sip24, sip24_of};

verus! {

/// Length in bytes of a content digest.
pub const DIGEST_LEN: usize = 32;

/// Componentwise XOR of two byte strings of equal length.
pub open spec fn xor_bytes(a: Seq<u8>, b: Seq<u8>) -> Seq<u8> {
    Seq::new(a.len(), |i: int| a[i] ^ b[i])
}

/// The byte string the keyed hash runs over: the big-endian weight
/// followed by the digest. Big-endian keeps the hash identical across
/// architectures.
pub open spec fn key_preimage(digest: Seq<u8>, weight: u32) -> Seq<u8> {
    be32(weight) + digest
}

/// Compact identifier of a piece of content.
pub struct ContentKey {
    /// content digest
    pub digest: Vec<u8>,
    /// content weight
    pub weight: u32,
}

impl ContentKey {
    /// A well-formed key holds a digest of exactly `DIGEST_LEN` bytes.
    pub open spec fn wf(&self) -> bool {
        self.digest@.len() == DIGEST_LEN
    }

    /// Builds a key from a 32-byte digest and a weight.
    pub fn new(hash: &[u8], weight: u32) -> (r: ContentKey)
        requires
            hash@.len() == DIGEST_LEN,
        ensures
            r.digest@ == hash@,
            r.weight == weight,
            r.wf(),
    {
        ContentKey { digest: copy_bytes(hash), weight }
    }

    /// A copy of this key.
    pub fn duplicate(&self) -> (r: ContentKey)
        ensures
            r.digest@ == self.digest@,
            r.weight == self.weight,
    {
        ContentKey { digest: copy_bytes(self.digest.as_slice()), weight: self.weight }
    }

    /// XOR-combines `rhs` into this key, componentwise on the digest and
    /// on the weight. The operation is associative, commutative and
    /// self-inverse; the all-zero key is its identity.
    pub fn bitxor_assign(&mut self, rhs: &ContentKey)
        requires
            old(self).wf(),
            rhs.wf(),
        ensures
            final(self).wf(),
            final(self).digest@ == xor_bytes(old(self).digest@, rhs.digest@),
            final(self).weight == (old(self).weight ^ rhs.weight),
    {
        self.weight = self.weight ^ rhs.weight;
        let mut mixed: Vec<u8> = Vec::new();
        let mut i: usize = 0;
        while i < 32
            invariant
                old(self).digest@.len() == 32,
                rhs.digest@.len() == 32,
                i <= 32,
                mixed@.len() == i,
                forall|j: int| 0 <= j < i ==> mixed@[j] == (old(self).digest@[j] ^ rhs.digest@[j]),
                self.digest@ == old(self).digest@,
            decreases 32 - i,
        {
            mixed.push(self.digest[i] ^ rhs.digest[i]);
            i += 1;
        }
        self.digest = mixed;
        proof {
            assert(self.digest@ =~= xor_bytes(old(self).digest@, rhs.digest@));
        }
    }

    /// The keyed 64-bit hash used for IBLT cell selection: SipHash-2-4
    /// over the big-endian weight followed by the digest.
    pub fn hash_to_u64_with_keys(&self, k0: u64, k1: u64) -> (r: u64)
        requires
            self.wf(),
        ensures
            r == sip24_of(k0, k1, key_preimage(self.digest@, self.weight)),
    {
        let mut buf: Vec<u8> = Vec::new();
        push_be32(&mut buf, self.weight);
        push_bytes(&mut buf, self.digest.as_slice());
        proof {
            assert(buf@ =~= key_preimage(self.digest@, self.weight));
        }
        sip24(k0, k1, buf.as_slice())
    }

    /// Whether two keys are equal: byte-wise on the digest, numeric on
    /// the weight.
    pub fn key_eq(&self, other: &ContentKey) -> (r: bool)
        ensures
            r == (self.digest@ == other.digest@ && self.weight == other.weight),
    {
        self.weight == other.weight && bytes_eq(self.digest.as_slice(), other.digest.as_slice())
    }
}

/// Law: XOR-combining a key with another key twice restores the
/// original: `(a ^= b) ^= b` leaves `a` as it was.
pub proof fn lemma_bitxor_assign_involutive(a: Seq<u8>, aw: u32, b: Seq<u8>, bw: u32)
    requires
        a.len() == b.len(),
    ensures
        xor_bytes(xor_bytes(a, b), b) == a,
        ((aw ^ bw) ^ bw) == aw,
{
    assert forall|j: int| 0 <= j < a.len() implies xor_bytes(xor_bytes(a, b), b)[j] == a[j] by {
        let x = a[j];
        let y = b[j];
        assert(((x ^ y) ^ y) == x) by (bit_vector);
    }
    assert(xor_bytes(xor_bytes(a, b), b) =~= a);
    assert(((aw ^ bw) ^ bw) == aw) by (bit_vector);
}

/// Law: the keyed hash runs over a pre-image that pins the whole key —
/// two keys of equal digest length feed SipHash the same bytes only
/// when they agree on the weight and on every digest byte. The hash
/// itself therefore depends on nothing less than all of them.
pub proof fn lemma_key_preimage_pins_key(d1: Seq<u8>, w1: u32, d2: Seq<u8>, w2: u32)
    requires
        d1.len() == d2.len(),
        key_preimage(d1, w1) == key_preimage(d2, w2),
    ensures
        w1 == w2,
        d1 == d2,
{
    let p1 = key_preimage(d1, w1);
    let p2 = key_preimage(d2, w2);
    assert(p1[0] == be32(w1)[0] && p1[1] == be32(w1)[1] && p1[2] == be32(w1)[2] && p1[3] == be32(
        w1,
    )[3]);
    assert(p2[0] == be32(w2)[0] && p2[1] == be32(w2)[1] && p2[2] == be32(w2)[2] && p2[3] == be32(
        w2,
    )[3]);
    assert((((w1 >> 24) & 0xff) as u8 == ((w2 >> 24) & 0xff) as u8 && ((w1 >> 16) & 0xff) as u8
        == ((w2 >> 16) & 0xff) as u8 && ((w1 >> 8) & 0xff) as u8 == ((w2 >> 8) & 0xff) as u8 && (w1
        & 0xff) as u8 == (w2 & 0xff) as u8) ==> w1 == w2) by (bit_vector);
    assert forall|i: int| 0 <= i < d1.len() implies d1[i] == d2[i] by {
        assert(p1[4 + i] == d1[i]);
        assert(p2[4 + i] == d2[i]);
    }
    assert(d1 =~= d2);
}

/// Law: the all-zero key is the identity of the XOR-combine, and the
/// combine is commutative.
pub proof fn lemma_bitxor_assign_identity_commutative(a: Seq<u8>, aw: u32, b: Seq<u8>, bw: u32)
    requires
        a.len() == b.len(),
    ensures
        xor_bytes(a, Seq::new(a.len(), |i: int| 0u8)) == a,
        (aw ^ 0) == aw,
        xor_bytes(a, b) == xor_bytes(b, a),
        (aw ^ bw) == (bw ^ aw),
{
    let zero = Seq::new(a.len(), |i: int| 0u8);
    assert forall|j: int| 0 <= j < a.len() implies xor_bytes(a, zero)[j] == a[j] by {
        let x = a[j];
        assert((x ^ 0) == x) by (bit_vector);
    }
    assert(xor_bytes(a, zero) =~= a);
    assert((aw ^ 0) == aw) by (bit_vector);
    assert forall|j: int| 0 <= j < a.len() implies xor_bytes(a, b)[j] == xor_bytes(b, a)[j] by {
        let x = a[j];
        let y = b[j];
        assert((x ^ y) == (y ^ x)) by (bit_vector);
    }
    assert(xor_bytes(a, b) =~= xor_bytes(b, a));
    assert((aw ^ bw) == (bw ^ aw)) by (bit_vector);
}

} // verus!
