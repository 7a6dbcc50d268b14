//! Little-endian integer framing.
use vstd::prelude::*;

verus! {

pub open spec fn u16_le(s: Seq<u8>) -> u16 {
    (s[0] as u16) | ((s[1] as u16) << 8)
}

pub open spec fn u16_le_bytes(x: u16) -> Seq<u8> {
    seq![(x & 0xff) as u8, ((x >> 8) & 0xff) as u8]
}

pub open spec fn u32_le(s: Seq<u8>) -> u32 {
    (s[0] as u32) | ((s[1] as u32) << 8) | ((s[2] as u32) << 16) | ((s[3] as u32) << 24)
}

pub open spec fn u32_le_bytes(x: u32) -> Seq<u8> {
    seq![
        (x & 0xff) as u8,
        ((x >> 8) & 0xff) as u8,
        ((x >> 16) & 0xff) as u8,
        ((x >> 24) & 0xff) as u8,
    ]
}

pub open spec fn u64_le(s: Seq<u8>) -> u64 {
    (s[0] as u64) | ((s[1] as u64) << 8) | ((s[2] as u64) << 16) | ((s[3] as u64) << 24)
        | ((s[4] as u64) << 32) | ((s[5] as u64) << 40) | ((s[6] as u64) << 48) | ((s[7]
        as u64) << 56)
}

pub open spec fn u64_le_bytes(x: u64) -> Seq<u8> {
    seq![
        (x & 0xff) as u8,
        ((x >> 8) & 0xff) as u8,
        ((x >> 16) & 0xff) as u8,
        ((x >> 24) & 0xff) as u8,
        ((x >> 32) & 0xff) as u8,
        ((x >> 40) & 0xff) as u8,
        ((x >> 48) & 0xff) as u8,
        ((x >> 56) & 0xff) as u8,
    ]
}

/// Reading back the bytes of a `u16` gives the `u16`.
pub proof fn lemma_u16_round_trip(x: u16)
    ensures
        u16_le_bytes(x).len() == 2,
        u16_le(u16_le_bytes(x)) == x,
{
    let b0 = (x & 0xff) as u8;
    let b1 = ((x >> 8) & 0xff) as u8;
    assert((x & 0xff) < 256 && ((x >> 8) & 0xff) < 256) by (bit_vector);
    assert(x == ((x & 0xff) | (((x >> 8) & 0xff) << 8))) by (bit_vector);
}

/// Reading back the bytes of a `u32` gives the `u32`.
pub proof fn lemma_u32_round_trip(x: u32)
    ensures
        u32_le_bytes(x).len() == 4,
        u32_le(u32_le_bytes(x)) == x,
{
    assert((x & 0xff) < 256 && ((x >> 8) & 0xff) < 256 && ((x >> 16) & 0xff) < 256 && ((x >> 24)
        & 0xff) < 256) by (bit_vector);
    assert(x == ((x & 0xff) | (((x >> 8) & 0xff) << 8) | (((x >> 16) & 0xff) << 16) | (((x
        >> 24) & 0xff) << 24))) by (bit_vector);
}

/// Four bytes are the bytes of the `u32` that they encode.
pub proof fn lemma_u32_bytes_round_trip(s: Seq<u8>)
    requires
        s.len() == 4,
    ensures
        u32_le_bytes(u32_le(s)) == s,
{
    let x = u32_le(s);
    let s0 = s[0] as u32;
    let s1 = s[1] as u32;
    let s2 = s[2] as u32;
    let s3 = s[3] as u32;
    assert((x == s0 | (s1 << 8) | (s2 << 16) | (s3 << 24) && s0 < 256 && s1 < 256 && s2 < 256
        && s3 < 256) ==> (s0 == (x & 0xff) && s1 == ((x >> 8) & 0xff) && s2 == ((x >> 16)
        & 0xff) && s3 == ((x >> 24) & 0xff))) by (bit_vector);
    assert(u32_le_bytes(u32_le(s)) =~= s);
}

/// Reading back the bytes of a `u64` gives the `u64`.
pub proof fn lemma_u64_round_trip(x: u64)
    ensures
        u64_le_bytes(x).len() == 8,
        u64_le(u64_le_bytes(x)) == x,
{
    assert((x & 0xff) < 256 && ((x >> 8) & 0xff) < 256 && ((x >> 16) & 0xff) < 256 && ((x >> 24)
        & 0xff) < 256 && ((x >> 32) & 0xff) < 256 && ((x >> 40) & 0xff) < 256 && ((x >> 48)
        & 0xff) < 256 && ((x >> 56) & 0xff) < 256) by (bit_vector);
    assert(x == ((x & 0xff) | (((x >> 8) & 0xff) << 8) | (((x >> 16) & 0xff) << 16) | (((x
        >> 24) & 0xff) << 24) | (((x >> 32) & 0xff) << 32) | (((x >> 40) & 0xff) << 40) | (((x
        >> 48) & 0xff) << 48) | (((x >> 56) & 0xff) << 56))) by (bit_vector);
}

/// The `u16` stored at `at` in `buf`.
pub fn read_u16_le(buf: &[u8], at: usize) -> (r: u16)
    requires
        at + 2 <= buf@.len(),
    ensures
        r == u16_le(buf@.subrange(at as int, at + 2)),
{
    (buf[at] as u16) | ((buf[at + 1] as u16) << 8)
}

/// The `u32` stored at `at` in `buf`.
pub fn read_u32_le(buf: &[u8], at: usize) -> (r: u32)
    requires
        at + 4 <= buf@.len(),
    ensures
        r == u32_le(buf@.subrange(at as int, at + 4)),
{
    (buf[at] as u32) | ((buf[at + 1] as u32) << 8) | ((buf[at + 2] as u32) << 16) | ((buf[at
        + 3] as u32) << 24)
}

/// The `u64` stored at `at` in `buf`.
pub fn read_u64_le(buf: &[u8], at: usize) -> (r: u64)
    requires
        at + 8 <= buf@.len(),
    ensures
        r == u64_le(buf@.subrange(at as int, at + 8)),
{
    (buf[at] as u64) | ((buf[at + 1] as u64) << 8) | ((buf[at + 2] as u64) << 16) | ((buf[at
        + 3] as u64) << 24) | ((buf[at + 4] as u64) << 32) | ((buf[at + 5] as u64) << 40) | ((
    buf[at + 6] as u64) << 48) | ((buf[at + 7] as u64) << 56)
}

/// Appends the little-endian bytes of `x`.
pub fn push_u16_le(buf: &mut Vec<u8>, x: u16)
    ensures
        final(buf)@ == old(buf)@ + u16_le_bytes(x),
{
    buf.push((x & 0xff) as u8);
    buf.push(((x >> 8) & 0xff) as u8);
    assert(final(buf)@ =~= old(buf)@ + u16_le_bytes(x));
}

/// Appends the little-endian bytes of `x`.
pub fn push_u32_le(buf: &mut Vec<u8>, x: u32)
    ensures
        final(buf)@ == old(buf)@ + u32_le_bytes(x),
{
    buf.push((x & 0xff) as u8);
    buf.push(((x >> 8) & 0xff) as u8);
    buf.push(((x >> 16) & 0xff) as u8);
    buf.push(((x >> 24) & 0xff) as u8);
    assert(final(buf)@ =~= old(buf)@ + u32_le_bytes(x));
}

/// Appends the little-endian bytes of `x`.
pub fn push_u64_le(buf: &mut Vec<u8>, x: u64)
    ensures
        final(buf)@ == old(buf)@ + u64_le_bytes(x),
{
    buf.push((x & 0xff) as u8);
    buf.push(((x >> 8) & 0xff) as u8);
    buf.push(((x >> 16) & 0xff) as u8);
    buf.push(((x >> 24) & 0xff) as u8);
    buf.push(((x >> 32) & 0xff) as u8);
    buf.push(((x >> 40) & 0xff) as u8);
    buf.push(((x >> 48) & 0xff) as u8);
    buf.push(((x >> 56) & 0xff) as u8);
    assert(final(buf)@ =~= old(buf)@ + u64_le_bytes(x));
}

/// Appends all of `src`.
pub fn push_bytes(buf: &mut Vec<u8>, src: &[u8])
    ensures
        final(buf)@ == old(buf)@ + src@,
{
    let mut i: usize = 0;
    while i < src.len()
        invariant
            i <= src@.len(),
            buf@ == old(buf)@ + src@.subrange(0, i as int),
        decreases src@.len() - i,
    {
        buf.push(src[i]);
        i = i + 1;
        assert(buf@ =~= old(buf)@ + src@.subrange(0, i as int));
    }
    assert(src@.subrange(0, i as int) =~= src@);
}

} // verus!
