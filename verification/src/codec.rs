//! Byte-level encodings used on the wire: big-endian and little-endian
//! integers and the Bitcoin consensus length-prefixed byte array.

use vstd::prelude::*;

verus! {

/// Big-endian bytes of a 32-bit integer.
pub open spec fn be32(w: u32) -> Seq<u8> {
    seq![
        ((w >> 24) & 0xff) as u8,
        ((w >> 16) & 0xff) as u8,
        ((w >> 8) & 0xff) as u8,
        (w & 0xff) as u8,
    ]
}

/// Little-endian bytes of a 16-bit integer.
pub open spec fn le16(n: u16) -> Seq<u8> {
    seq![(n & 0xff) as u8, ((n >> 8) & 0xff) as u8]
}

/// Little-endian bytes of a 32-bit integer.
pub open spec fn le32(n: u32) -> Seq<u8> {
    seq![
        (n & 0xff) as u8,
        ((n >> 8) & 0xff) as u8,
        ((n >> 16) & 0xff) as u8,
        ((n >> 24) & 0xff) as u8,
    ]
}

/// Little-endian bytes of a 64-bit integer.
pub open spec fn le64(n: u64) -> Seq<u8> {
    seq![
        (n & 0xff) as u8,
        ((n >> 8) & 0xff) as u8,
        ((n >> 16) & 0xff) as u8,
        ((n >> 24) & 0xff) as u8,
        ((n >> 32) & 0xff) as u8,
        ((n >> 40) & 0xff) as u8,
        ((n >> 48) & 0xff) as u8,
        ((n >> 56) & 0xff) as u8,
    ]
}

/// Bitcoin's variable-length integer (CompactSize).
pub open spec fn varint(n: u64) -> Seq<u8> {
    if n < 0xfd {
        seq![(n & 0xff) as u8]
    } else if n <= 0xffff {
        seq![0xfdu8] + le16((n & 0xffff) as u16)
    } else if n <= 0xffffffff {
        seq![0xfeu8] + le32((n & 0xffffffff) as u32)
    } else {
        seq![0xffu8] + le64(n)
    }
}

/// Bitcoin consensus encoding of a byte array: CompactSize length
/// prefix followed by the bytes themselves.
pub open spec fn enc_bytes(b: Seq<u8>) -> Seq<u8> {
    varint(b.len() as u64) + b
}

/// Appends the big-endian bytes of `w` to `out`.
pub fn push_be32(out: &mut Vec<u8>, w: u32)
    ensures
        final(out)@ == old(out)@ + be32(w),
{
    out.push(((w >> 24) & 0xff) as u8);
    out.push(((w >> 16) & 0xff) as u8);
    out.push(((w >> 8) & 0xff) as u8);
    out.push((w & 0xff) as u8);
    proof {
        assert(out@ =~= old(out)@ + be32(w));
    }
}

/// Appends the CompactSize encoding of `n` to `out`.
pub fn push_varint(out: &mut Vec<u8>, n: u64)
    ensures
        final(out)@ == old(out)@ + varint(n),
{
    if n < 0xfd {
        out.push((n & 0xff) as u8);
    } else if n <= 0xffff {
        out.push(0xfdu8);
        let m: u16 = (n & 0xffff) as u16;
        out.push((m & 0xff) as u8);
        out.push(((m >> 8) & 0xff) as u8);
    } else if n <= 0xffffffff {
        out.push(0xfeu8);
        let m: u32 = (n & 0xffffffff) as u32;
        out.push((m & 0xff) as u8);
        out.push(((m >> 8) & 0xff) as u8);
        out.push(((m >> 16) & 0xff) as u8);
        out.push(((m >> 24) & 0xff) as u8);
    } else {
        out.push(0xffu8);
        out.push((n & 0xff) as u8);
        out.push(((n >> 8) & 0xff) as u8);
        out.push(((n >> 16) & 0xff) as u8);
        out.push(((n >> 24) & 0xff) as u8);
        out.push(((n >> 32) & 0xff) as u8);
        out.push(((n >> 40) & 0xff) as u8);
        out.push(((n >> 48) & 0xff) as u8);
        out.push(((n >> 56) & 0xff) as u8);
    }
    proof {
        assert(out@ =~= old(out)@ + varint(n));
    }
}

/// Appends the bytes of `b` to `out`.
pub fn push_bytes(out: &mut Vec<u8>, b: &[u8])
    ensures
        final(out)@ == old(out)@ + b@,
{
    let mut i: usize = 0;
    while i < b.len()
        invariant
            i <= b@.len(),
            out@ == old(out)@ + b@.subrange(0, i as int),
        decreases b@.len() - i,
    {
        out.push(b[i]);
        i += 1;
        proof {
            assert(out@ =~= old(out)@ + b@.subrange(0, i as int));
        }
    }
    proof {
        assert(b@.subrange(0, b@.len() as int) =~= b@);
    }
}

/// Appends the consensus encoding of the byte array `b` to `out`.
pub fn push_enc_bytes(out: &mut Vec<u8>, b: &[u8])
    ensures
        final(out)@ == old(out)@ + enc_bytes(b@),
{
    push_varint(out, b.len() as u64);
    push_bytes(out, b);
    proof {
        assert(out@ =~= old(out)@ + enc_bytes(b@));
    }
}

/// Copies a byte vector.
pub fn copy_bytes(b: &[u8]) -> (r: Vec<u8>)
    ensures
        r@ == b@,
{
    let mut out: Vec<u8> = Vec::new();
    push_bytes(&mut out, b);
    proof {
        assert(out@ =~= b@);
    }
    out
}

/// The CompactSize encoding opens with a byte that fixes its own
/// length, so a prefixed byte array can be read back unambiguously:
/// equal concatenations mean equal arrays and equal rests.
pub proof fn lemma_enc_bytes_append_injective(a: Seq<u8>, x: Seq<u8>, b: Seq<u8>, y: Seq<u8>)
    requires
        a.len() < 0x10000000000000000,
        b.len() < 0x10000000000000000,
        enc_bytes(a) + x == enc_bytes(b) + y,
    ensures
        a == b,
        x == y,
{
    let la = a.len() as u64;
    let lb = b.len() as u64;
    let s = enc_bytes(a) + x;
    let t = enc_bytes(b) + y;
    assert forall|i: int| 0 <= i < varint(la).len() implies s[i] == varint(la)[i] by {
        assert(enc_bytes(a)[i] == varint(la)[i]);
    }
    assert forall|i: int| 0 <= i < varint(lb).len() implies t[i] == varint(lb)[i] by {
        assert(enc_bytes(b)[i] == varint(lb)[i]);
    }
    lemma_varint_reads_back(la, lb, s, t);
    assert(a.len() == b.len());
    assert(varint(la).len() == varint(lb).len());
    let vl = varint(la).len() as int;
    assert forall|i: int| 0 <= i < a.len() implies a[i] == b[i] by {
        assert(s[vl + i] == a[i]);
        assert(t[vl + i] == b[i]);
    }
    assert(a =~= b);
    assert(x.len() == y.len());
    assert forall|i: int| 0 <= i < x.len() implies x[i] == y[i] by {
        assert(s[vl + a.len() + i] == x[i]);
        assert(t[vl + b.len() + i] == y[i]);
    }
    assert(x =~= y);
}

/// Two CompactSize encodings standing at the head of one byte string
/// encode the same number.
proof fn lemma_varint_reads_back(la: u64, lb: u64, s: Seq<u8>, t: Seq<u8>)
    requires
        s == t,
        s.len() >= varint(la).len(),
        t.len() >= varint(lb).len(),
        forall|i: int| 0 <= i < varint(la).len() ==> s[i] == varint(la)[i],
        forall|i: int| 0 <= i < varint(lb).len() ==> t[i] == varint(lb)[i],
    ensures
        la == lb,
{
    assert(varint(la).len() >= 1 && varint(lb).len() >= 1);
    assert(s[0] == varint(la)[0]);
    assert(t[0] == varint(lb)[0]);
    assert(varint(la)[0] == varint(lb)[0]);
    if la < 0xfd && lb < 0xfd {
        assert((la & 0xff) as u8 == (lb & 0xff) as u8 && la < 0xfd && lb < 0xfd ==> la == lb)
            by (bit_vector);
    } else if la < 0xfd || lb < 0xfd {
        // one opens with its own value below 0xfd, the other with a
        // marker byte; the first bytes cannot agree
        assert(la < 0xfd ==> (la & 0xff) as u8 != 0xfd && (la & 0xff) as u8 != 0xfe && (la
            & 0xff) as u8 != 0xff) by (bit_vector);
        assert(lb < 0xfd ==> (lb & 0xff) as u8 != 0xfd && (lb & 0xff) as u8 != 0xfe && (lb
            & 0xff) as u8 != 0xff) by (bit_vector);
        assert(false);
    } else if la <= 0xffff && lb <= 0xffff {
        assert(s[1] == varint(la)[1] && s[2] == varint(la)[2]);
        assert(varint(la)[1] == (((la & 0xffff) as u16) & 0xff) as u8);
        assert(varint(la)[2] == ((((la & 0xffff) as u16) >> 8) & 0xff) as u8);
        assert((((la & 0xffff) as u16) & 0xff) as u8 == (((lb & 0xffff) as u16) & 0xff) as u8
            && ((((la & 0xffff) as u16) >> 8) & 0xff) as u8 == ((((lb & 0xffff) as u16) >> 8)
            & 0xff) as u8 && 0xfd <= la <= 0xffff && 0xfd <= lb <= 0xffff ==> la == lb)
            by (bit_vector);
    } else if la <= 0xffff || lb <= 0xffff {
        // marker 0xfd against 0xfe or 0xff
        assert(false);
    } else if la <= 0xffffffff && lb <= 0xffffffff {
        assert(s[1] == varint(la)[1] && s[2] == varint(la)[2] && s[3] == varint(la)[3] && s[4]
            == varint(la)[4]);
        assert(((la & 0xffffffff) as u32 & 0xff) as u8 == ((lb & 0xffffffff) as u32 & 0xff) as u8
            && (((la & 0xffffffff) as u32 >> 8) & 0xff) as u8 == (((lb & 0xffffffff) as u32 >> 8)
            & 0xff) as u8 && (((la & 0xffffffff) as u32 >> 16) & 0xff) as u8 == (((lb
            & 0xffffffff) as u32 >> 16) & 0xff) as u8 && (((la & 0xffffffff) as u32 >> 24)
            & 0xff) as u8 == (((lb & 0xffffffff) as u32 >> 24) & 0xff) as u8 && 0xffff < la
            <= 0xffffffff && 0xffff < lb <= 0xffffffff ==> la == lb) by (bit_vector);
    } else if la <= 0xffffffff || lb <= 0xffffffff {
        // marker 0xfe against 0xff
        assert(false);
    } else {
        assert(s[1] == varint(la)[1] && s[2] == varint(la)[2] && s[3] == varint(la)[3] && s[4]
            == varint(la)[4] && s[5] == varint(la)[5] && s[6] == varint(la)[6] && s[7] == varint(
            la,
        )[7] && s[8] == varint(la)[8]);
        assert((la & 0xff) as u8 == (lb & 0xff) as u8 && ((la >> 8) & 0xff) as u8 == ((lb >> 8)
            & 0xff) as u8 && ((la >> 16) & 0xff) as u8 == ((lb >> 16) & 0xff) as u8 && ((la >> 24)
            & 0xff) as u8 == ((lb >> 24) & 0xff) as u8 && ((la >> 32) & 0xff) as u8 == ((lb >> 32)
            & 0xff) as u8 && ((la >> 40) & 0xff) as u8 == ((lb >> 40) & 0xff) as u8 && ((la >> 48)
            & 0xff) as u8 == ((lb >> 48) & 0xff) as u8 && ((la >> 56) & 0xff) as u8 == ((lb >> 56)
            & 0xff) as u8 ==> la == lb) by (bit_vector);
    }
}

/// Compares two byte strings for equality.
pub fn bytes_eq(a: &[u8], b: &[u8]) -> (r: bool)
    ensures
        r == (a@ == b@),
{
    if a.len() != b.len() {
        return false;
    }
    let mut i: usize = 0;
    while i < a.len()
        invariant
            a@.len() == b@.len(),
            i <= a@.len(),
            forall|j: int| 0 <= j < i ==> a@[j] == b@[j],
        decreases a@.len() - i,
    {
        if a[i] != b[i] {
            return false;
        }
        i += 1;
    }
    proof {
        assert(a@ =~= b@);
    }
    true
}

} // verus!
