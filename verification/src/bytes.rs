//! Little- and big-endian integer encoding and decoding over byte sequences.
use vstd::prelude::*;

verus! {

/// The `u16` stored little-endian at `s[i..i + 2]`.
pub open spec fn u16_le_at(s: Seq<u8>, i: int) -> u16 {
    (s[i] as u16) | ((s[i + 1] as u16) << 8u16)
}

/// The `u32` stored little-endian at `s[i..i + 4]`.
pub open spec fn u32_le_at(s: Seq<u8>, i: int) -> u32 {
    (s[i] as u32) | ((s[i + 1] as u32) << 8u32) | ((s[i + 2] as u32) << 16u32) | ((s[i + 3] as u32) << 24u32)
}

/// The `u64` stored little-endian at `s[i..i + 8]`.
pub open spec fn u64_le_at(s: Seq<u8>, i: int) -> u64 {
    (s[i] as u64) | ((s[i + 1] as u64) << 8u64) | ((s[i + 2] as u64) << 16u64) | ((s[i + 3] as u64) << 24u64)
        | ((s[i + 4] as u64) << 32u64) | ((s[i + 5] as u64) << 40u64) | ((s[i + 6] as u64) << 48u64)
        | ((s[i + 7] as u64) << 56u64)
}

/// The little-endian bytes of a `u32`.
pub open spec fn u32_le_bytes(x: u32) -> Seq<u8> {
    seq![x as u8, (x >> 8u32) as u8, (x >> 16u32) as u8, (x >> 24u32) as u8]
}

/// The little-endian bytes of a `u64`.
pub open spec fn u64_le_bytes(x: u64) -> Seq<u8> {
    seq![
        x as u8,
        (x >> 8u64) as u8,
        (x >> 16u64) as u8,
        (x >> 24u64) as u8,
        (x >> 32u64) as u8,
        (x >> 40u64) as u8,
        (x >> 48u64) as u8,
        (x >> 56u64) as u8,
    ]
}

pub fn read_u16_le(s: &[u8], i: usize) -> (r: u16)
    requires
        i + 2 <= s@.len(),
    ensures
        r == u16_le_at(s@, i as int),
{
    (s[i] as u16) | ((s[i + 1] as u16) << 8u16)
}

pub fn read_u32_le(s: &[u8], i: usize) -> (r: u32)
    requires
        i + 4 <= s@.len(),
    ensures
        r == u32_le_at(s@, i as int),
{
    (s[i] as u32) | ((s[i + 1] as u32) << 8u32) | ((s[i + 2] as u32) << 16u32) | ((s[i + 3] as u32) << 24u32)
}

pub fn read_u64_le(s: &[u8], i: usize) -> (r: u64)
    requires
        i + 8 <= s@.len(),
    ensures
        r == u64_le_at(s@, i as int),
{
    (s[i] as u64) | ((s[i + 1] as u64) << 8u64) | ((s[i + 2] as u64) << 16u64) | ((s[i + 3] as u64) << 24u64)
        | ((s[i + 4] as u64) << 32u64) | ((s[i + 5] as u64) << 40u64) | ((s[i + 6] as u64) << 48u64)
        | ((s[i + 7] as u64) << 56u64)
}

pub fn push_u32_le(v: &mut Vec<u8>, x: u32)
    ensures
        final(v)@ == old(v)@ + u32_le_bytes(x),
{
    v.push(x as u8);
    v.push((x >> 8u32) as u8);
    v.push((x >> 16u32) as u8);
    v.push((x >> 24u32) as u8);
    assert(final(v)@ =~= old(v)@ + u32_le_bytes(x));
}

pub fn push_u64_le(v: &mut Vec<u8>, x: u64)
    ensures
        final(v)@ == old(v)@ + u64_le_bytes(x),
{
    v.push(x as u8);
    v.push((x >> 8u64) as u8);
    v.push((x >> 16u64) as u8);
    v.push((x >> 24u64) as u8);
    v.push((x >> 32u64) as u8);
    v.push((x >> 40u64) as u8);
    v.push((x >> 48u64) as u8);
    v.push((x >> 56u64) as u8);
    assert(final(v)@ =~= old(v)@ + u64_le_bytes(x));
}

/// The `u64` stored big-endian at `s[i..i + 8]`.
pub open spec fn u64_be_at(s: Seq<u8>, i: int) -> u64 {
    ((s[i] as u64) << 56u64) | ((s[i + 1] as u64) << 48u64) | ((s[i + 2] as u64) << 40u64)
        | ((s[i + 3] as u64) << 32u64) | ((s[i + 4] as u64) << 24u64) | ((s[i + 5] as u64) << 16u64)
        | ((s[i + 6] as u64) << 8u64) | (s[i + 7] as u64)
}

/// The big-endian bytes of a `u64`.
pub open spec fn u64_be_bytes(x: u64) -> Seq<u8> {
    seq![
        (x >> 56u64) as u8,
        (x >> 48u64) as u8,
        (x >> 40u64) as u8,
        (x >> 32u64) as u8,
        (x >> 24u64) as u8,
        (x >> 16u64) as u8,
        (x >> 8u64) as u8,
        x as u8,
    ]
}

pub fn read_u64_be(s: &[u8], i: usize) -> (r: u64)
    requires
        i + 8 <= s@.len(),
    ensures
        r == u64_be_at(s@, i as int),
{
    ((s[i] as u64) << 56u64) | ((s[i + 1] as u64) << 48u64) | ((s[i + 2] as u64) << 40u64)
        | ((s[i + 3] as u64) << 32u64) | ((s[i + 4] as u64) << 24u64) | ((s[i + 5] as u64) << 16u64)
        | ((s[i + 6] as u64) << 8u64) | (s[i + 7] as u64)
}

pub fn push_u64_be(v: &mut Vec<u8>, x: u64)
    ensures
        final(v)@ == old(v)@ + u64_be_bytes(x),
{
    v.push((x >> 56u64) as u8);
    v.push((x >> 48u64) as u8);
    v.push((x >> 40u64) as u8);
    v.push((x >> 32u64) as u8);
    v.push((x >> 24u64) as u8);
    v.push((x >> 16u64) as u8);
    v.push((x >> 8u64) as u8);
    v.push(x as u8);
    assert(final(v)@ =~= old(v)@ + u64_be_bytes(x));
}

proof fn lemma_u32_bytes_bv(x: u32)
    ensures
        ((x as u8) as u32) | ((((x >> 8u32) as u8) as u32) << 8u32) | ((((x >> 16u32) as u8) as u32) << 16u32)
            | ((((x >> 24u32) as u8) as u32) << 24u32) == x,
{
    assert(((x as u8) as u32) | ((((x >> 8u32) as u8) as u32) << 8u32) | ((((x >> 16u32) as u8) as u32) << 16u32)
        | ((((x >> 24u32) as u8) as u32) << 24u32) == x) by (bit_vector);
}

proof fn lemma_u64_bytes_bv(x: u64)
    ensures
        ((x as u8) as u64) | ((((x >> 8u64) as u8) as u64) << 8u64) | ((((x >> 16u64) as u8) as u64) << 16u64)
            | ((((x >> 24u64) as u8) as u64) << 24u64) | ((((x >> 32u64) as u8) as u64) << 32u64)
            | ((((x >> 40u64) as u8) as u64) << 40u64) | ((((x >> 48u64) as u8) as u64) << 48u64)
            | ((((x >> 56u64) as u8) as u64) << 56u64) == x,
{
    assert(((x as u8) as u64) | ((((x >> 8u64) as u8) as u64) << 8u64) | ((((x >> 16u64) as u8) as u64) << 16u64)
        | ((((x >> 24u64) as u8) as u64) << 24u64) | ((((x >> 32u64) as u8) as u64) << 32u64)
        | ((((x >> 40u64) as u8) as u64) << 40u64) | ((((x >> 48u64) as u8) as u64) << 48u64)
        | ((((x >> 56u64) as u8) as u64) << 56u64) == x) by (bit_vector);
}

/// Decoding the little-endian bytes of a `u32` gives it back.
pub proof fn lemma_u32_roundtrip(x: u32, s: Seq<u8>, i: int)
    requires
        0 <= i,
        i + 4 <= s.len(),
        s.subrange(i, i + 4) == u32_le_bytes(x),
    ensures
        u32_le_at(s, i) == x,
{
    assert(s[i] == u32_le_bytes(x)[0]);
    assert(s[i + 1] == u32_le_bytes(x)[1]);
    assert(s[i + 2] == u32_le_bytes(x)[2]);
    assert(s[i + 3] == u32_le_bytes(x)[3]);
    lemma_u32_bytes_bv(x);
}

/// Decoding the little-endian bytes of a `u64` gives it back.
pub proof fn lemma_u64_roundtrip(x: u64, s: Seq<u8>, i: int)
    requires
        0 <= i,
        i + 8 <= s.len(),
        s.subrange(i, i + 8) == u64_le_bytes(x),
    ensures
        u64_le_at(s, i) == x,
{
    assert(s[i] == u64_le_bytes(x)[0]);
    assert(s[i + 1] == u64_le_bytes(x)[1]);
    assert(s[i + 2] == u64_le_bytes(x)[2]);
    assert(s[i + 3] == u64_le_bytes(x)[3]);
    assert(s[i + 4] == u64_le_bytes(x)[4]);
    assert(s[i + 5] == u64_le_bytes(x)[5]);
    assert(s[i + 6] == u64_le_bytes(x)[6]);
    assert(s[i + 7] == u64_le_bytes(x)[7]);
    lemma_u64_bytes_bv(x);
}

/// Copies `s[start..end]` into a new vector.
pub fn copy_range(s: &[u8], start: usize, end: usize) -> (r: Vec<u8>)
    requires
        start <= end <= s@.len(),
    ensures
        r@ == s@.subrange(start as int, end as int),
{
    let mut r: Vec<u8> = Vec::new();
    let mut i = start;
    while i < end
        invariant
            start <= i <= end,
            end <= s@.len(),
            r@ == s@.subrange(start as int, i as int),
        decreases end - i,
    {
        r.push(s[i]);
        proof {
            assert(r@ =~= s@.subrange(start as int, i + 1));
        }
        i = i + 1;
    }
    r
}

} // verus!
