use vstd::prelude::*;

verus! {

/// Little-endian encoding of a 32-bit value as four bytes.
pub open spec fn le_u32(v: u32) -> Seq<u8> {
    seq![(v & 0xff) as u8, ((v >> 8) & 0xff) as u8, ((v >> 16) & 0xff) as u8, ((v >> 24) & 0xff) as u8]
}

/// Appends the little-endian bytes of `v`.
pub fn push_le_u32(buf: &mut Vec<u8>, v: u32)
    ensures
        final(buf)@ == old(buf)@ + le_u32(v),
{
    buf.push((v & 0xff) as u8);
    buf.push(((v >> 8) & 0xff) as u8);
    buf.push(((v >> 16) & 0xff) as u8);
    buf.push(((v >> 24) & 0xff) as u8);
}

} // verus!

verus! {

/// Overwrites `buf[pos..pos + 4]` with the little-endian bytes of `v`.
pub fn set_le_u32(buf: &mut Vec<u8>, pos: usize, v: u32)
    requires
        pos + 4 <= old(buf).len(),
    ensures
        final(buf)@ == old(buf)@.subrange(0, pos as int) + le_u32(v) + old(buf)@.subrange(pos + 4, old(buf)@.len() as int),
{
    buf.set(pos, (v & 0xff) as u8);
    buf.set(pos + 1, ((v >> 8) & 0xff) as u8);
    buf.set(pos + 2, ((v >> 16) & 0xff) as u8);
    buf.set(pos + 3, ((v >> 24) & 0xff) as u8);
    assert(buf@ =~= old(buf)@.subrange(0, pos as int) + le_u32(v) + old(buf)@.subrange(pos + 4, old(buf)@.len() as int));
}

} // verus!

verus! {

pub proof fn lemma_le_u32_zero()
    ensures
        le_u32(0) =~= seq![0u8, 0u8, 0u8, 0u8],
{
    assert((0u32 & 0xff) == 0 && ((0u32 >> 8) & 0xff) == 0 && ((0u32 >> 16) & 0xff) == 0 && ((0u32 >> 24) & 0xff) == 0) by (bit_vector);
}

} // verus!

verus! {

/// The little-endian 32-bit value stored at `d[p..p + 4]`.
pub open spec fn read_le_u32(d: Seq<u8>, p: int) -> u32 {
    (d[p] as u32) | ((d[p + 1] as u32) << 8u32) | ((d[p + 2] as u32) << 16u32) | ((d[p + 3] as u32) << 24u32)
}

/// The little-endian 64-bit value stored at `d[p..p + 8]`.
pub open spec fn read_le_u64(d: Seq<u8>, p: int) -> u64 {
    (read_le_u32(d, p) as u64) | ((read_le_u32(d, p + 4) as u64) << 32u64)
}

/// Little-endian encoding of a 64-bit value as eight bytes.
pub open spec fn le_u64(v: u64) -> Seq<u8> {
    le_u32((v & 0xffff_ffff) as u32) + le_u32((v >> 32u64) as u32)
}

pub proof fn lemma_le_u32_roundtrip(v: u32)
    ensures
        read_le_u32(le_u32(v), 0) == v,
        le_u32(v).len() == 4,
{
    let b0 = (v & 0xff) as u8;
    let b1 = ((v >> 8) & 0xff) as u8;
    let b2 = ((v >> 16) & 0xff) as u8;
    let b3 = ((v >> 24) & 0xff) as u8;
    assert(((b0 as u32) | ((b1 as u32) << 8u32) | ((b2 as u32) << 16u32) | ((b3 as u32) << 24u32)) == v) by (bit_vector)
        requires
            b0 == (v & 0xff) as u8,
            b1 == ((v >> 8) & 0xff) as u8,
            b2 == ((v >> 16) & 0xff) as u8,
            b3 == ((v >> 24) & 0xff) as u8,
    ;
}

pub proof fn lemma_read_le_u32_window(d: Seq<u8>, p: int, e: Seq<u8>, q: int)
    requires
        0 <= p,
        p + 4 <= d.len(),
        0 <= q,
        q + 4 <= e.len(),
        d.subrange(p, p + 4) == e.subrange(q, q + 4),
    ensures
        read_le_u32(d, p) == read_le_u32(e, q),
{
    assert(d[p] == d.subrange(p, p + 4)[0]);
    assert(d[p + 1] == d.subrange(p, p + 4)[1]);
    assert(d[p + 2] == d.subrange(p, p + 4)[2]);
    assert(d[p + 3] == d.subrange(p, p + 4)[3]);
    assert(e[q] == e.subrange(q, q + 4)[0]);
    assert(e[q + 1] == e.subrange(q, q + 4)[1]);
    assert(e[q + 2] == e.subrange(q, q + 4)[2]);
    assert(e[q + 3] == e.subrange(q, q + 4)[3]);
}

/// Reads the little-endian 32-bit value at `data[p..p + 4]`.
pub fn get_le_u32(data: &[u8], p: usize) -> (v: u32)
    requires
        p + 4 <= data.len(),
    ensures
        v == read_le_u32(data@, p as int),
{
    (data[p] as u32) | ((data[p + 1] as u32) << 8u32) | ((data[p + 2] as u32) << 16u32) | ((data[p + 3] as u32) << 24u32)
}

/// Reads the little-endian 64-bit value at `data[p..p + 8]`.
pub fn get_le_u64(data: &[u8], p: usize) -> (v: u64)
    requires
        p + 8 <= data.len(),
    ensures
        v == read_le_u64(data@, p as int),
{
    (get_le_u32(data, p) as u64) | ((get_le_u32(data, p + 4) as u64) << 32u64)
}

/// Appends the little-endian bytes of a 64-bit value.
pub fn push_le_u64(buf: &mut Vec<u8>, v: u64)
    ensures
        final(buf)@ == old(buf)@ + le_u64(v),
{
    push_le_u32(buf, (v & 0xffff_ffff) as u32);
    push_le_u32(buf, (v >> 32u64) as u32);
    assert(buf@ =~= old(buf)@ + le_u64(v));
}

pub proof fn lemma_le_u64_roundtrip(v: u64)
    ensures
        read_le_u64(le_u64(v), 0) == v,
        le_u64(v).len() == 8,
{
    let lo = #[verifier::truncate] ((v & 0xffff_ffff) as u32);
    let hi = #[verifier::truncate] ((v >> 32u64) as u32);
    lemma_le_u32_roundtrip(lo);
    lemma_le_u32_roundtrip(hi);
    let s = le_u64(v);
    assert(s.subrange(0, 4) =~= le_u32(lo).subrange(0, 4));
    lemma_read_le_u32_window(s, 0, le_u32(lo), 0);
    assert(s.subrange(4, 8) =~= le_u32(hi).subrange(0, 4));
    lemma_read_le_u32_window(s, 4, le_u32(hi), 0);
    assert(((lo as u64) | ((hi as u64) << 32u64)) == v) by (bit_vector)
        requires
            lo == (v & 0xffff_ffff) as u32,
            hi == (v >> 32u64) as u32,
    ;
}

} // verus!

verus! {

/// A fresh copy of the bytes of `v`.
pub fn copy_bytes(v: &Vec<u8>) -> (r: Vec<u8>)
    ensures
        r@ == v@,
{
    let mut r: Vec<u8> = Vec::new();
    let mut i: usize = 0;
    while i < v.len()
        invariant
            i <= v@.len(),
            r@ == v@.take(i as int),
        decreases v@.len() - i,
    {
        r.push(v[i]);
        i = i + 1;
        assert(r@ =~= v@.take(i as int));
    }
    assert(v@.take(i as int) =~= v@);
    r
}

} // verus!

verus! {

/// Appends the bytes of `other`.
pub fn extend_bytes(buf: &mut Vec<u8>, other: &[u8])
    ensures
        final(buf)@ == old(buf)@ + other@,
{
    let mut i: usize = 0;
    while i < other.len()
        invariant
            i <= other@.len(),
            buf@ == old(buf)@ + other@.take(i as int),
        decreases other@.len() - i,
    {
        buf.push(other[i]);
        i = i + 1;
        assert(buf@ =~= old(buf)@ + other@.take(i as int));
    }
    assert(other@.take(i as int) =~= other@);
}

} // verus!

verus! {

/// The number stored little-endian in the `n` bytes of `d` from `p` (least significant first).
pub open spec fn le_value(d: Seq<u8>, p: int, n: nat) -> int
    decreases n,
{
    if n == 0 {
        0
    } else {
        d[p] + 256 * le_value(d, p + 1, (n - 1) as nat)
    }
}

/// Four bytes written as `le_u32(v)` denote `v`.
pub proof fn lemma_le_value_u32(d: Seq<u8>, p: int, v: u32)
    requires
        0 <= p,
        p + 4 <= d.len(),
        d.subrange(p, p + 4) == le_u32(v),
    ensures
        le_value(d, p, 4) == v,
{
    let b0 = d[p];
    let b1 = d[p + 1];
    let b2 = d[p + 2];
    let b3 = d[p + 3];
    assert(b0 == (v & 0xff) as u8 && b1 == ((v >> 8) & 0xff) as u8 && b2 == ((v >> 16) & 0xff) as u8
        && b3 == ((v >> 24) & 0xff) as u8) by {
        assert(d[p] == d.subrange(p, p + 4)[0]);
        assert(d[p + 1] == d.subrange(p, p + 4)[1]);
        assert(d[p + 2] == d.subrange(p, p + 4)[2]);
        assert(d[p + 3] == d.subrange(p, p + 4)[3]);
    }
    assert(le_value(d, p + 4, 0) == 0);
    assert(le_value(d, p + 3, 1) == b3 as int);
    assert(le_value(d, p + 2, 2) == b2 + 256 * (b3 as int));
    assert(le_value(d, p + 1, 3) == b1 + 256 * (b2 + 256 * (b3 as int)));
    assert(le_value(d, p, 4) == b0 + 256 * (b1 + 256 * (b2 + 256 * (b3 as int))));
    assert(b0 + 256 * (b1 + 256 * (b2 + 256 * (b3 as int))) == v) by (bit_vector)
        requires
            b0 == (v & 0xff) as u8,
            b1 == ((v >> 8) & 0xff) as u8,
            b2 == ((v >> 16) & 0xff) as u8,
            b3 == ((v >> 24) & 0xff) as u8,
    ;
}

/// Eight bytes written as `le_u64(v)` denote `v`.
pub proof fn lemma_le_value_u64(d: Seq<u8>, p: int, v: u64)
    requires
        0 <= p,
        p + 8 <= d.len(),
        d.subrange(p, p + 8) == le_u64(v),
    ensures
        le_value(d, p, 8) == v,
{
    let lo = (v & 0xffff_ffff) as u32;
    let hi = (v >> 32u64) as u32;
    assert(le_u64(v) == le_u32(lo) + le_u32(hi));
    assert forall|i: int| 0 <= i < 4 implies #[trigger] d.subrange(p, p + 4)[i] == le_u32(lo)[i] by {
        assert(d.subrange(p, p + 4)[i] == d.subrange(p, p + 8)[i]);
    }
    assert forall|i: int| 0 <= i < 4 implies #[trigger] d.subrange(p + 4, p + 8)[i] == le_u32(hi)[i] by {
        assert(d.subrange(p + 4, p + 8)[i] == d.subrange(p, p + 8)[4 + i]);
    }
    assert(d.subrange(p, p + 4) =~= le_u32(lo));
    assert(d.subrange(p + 4, p + 8) =~= le_u32(hi));
    lemma_le_value_u32(d, p, lo);
    lemma_le_value_u32(d, p + 4, hi);
    assert(le_value(d, p, 8) == le_value(d, p, 4) + 0x1_0000_0000 * le_value(d, p + 4, 4)) by {
        assert(le_value(d, p + 3, 5) == d[p + 3] + 256 * le_value(d, p + 4, 4));
        assert(le_value(d, p + 2, 6) == d[p + 2] + 256 * le_value(d, p + 3, 5));
        assert(le_value(d, p + 1, 7) == d[p + 1] + 256 * le_value(d, p + 2, 6));
        assert(le_value(d, p + 3, 1) == d[p + 3] + 256 * le_value(d, p + 4, 0));
        assert(le_value(d, p + 2, 2) == d[p + 2] + 256 * le_value(d, p + 3, 1));
        assert(le_value(d, p + 1, 3) == d[p + 1] + 256 * le_value(d, p + 2, 2));
    }
    assert(lo as int + 0x1_0000_0000 * (hi as int) == v) by (bit_vector)
        requires
            lo == (v & 0xffff_ffff) as u32,
            hi == (v >> 32u64) as u32,
    ;
}

} // verus!
