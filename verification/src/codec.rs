//! Big-endian integer encoding, as used by every field of the wire protocol.

use vstd::prelude::*;

verus! {

/// The two bytes of `x`, most significant first.
pub open spec fn u16_be(x: u16) -> Seq<u8> {
    seq![(x >> 8u16) as u8, x as u8]
}

/// The four bytes of `x`, most significant first.
pub open spec fn u32_be(x: u32) -> Seq<u8> {
    seq![(x >> 24u32) as u8, (x >> 16u32) as u8, (x >> 8u32) as u8, x as u8]
}

/// The eight bytes of `x`, most significant first.
pub open spec fn u64_be(x: u64) -> Seq<u8> {
    seq![
        (x >> 56u64) as u8,
        (x >> 48u64) as u8,
        (x >> 40u64) as u8,
        (x >> 32u64) as u8,
        (x >> 24u64) as u8,
        (x >> 16u64) as u8,
        (x >> 8u64) as u8,
        x as u8,
    ]
}

/// The value of two big-endian bytes.
pub open spec fn be_u16(a: u8, b: u8) -> u16 {
    ((a as u16) << 8u16) | (b as u16)
}

/// The value of four big-endian bytes.
pub open spec fn be_u32(a: u8, b: u8, c: u8, d: u8) -> u32 {
    ((a as u32) << 24u32) | ((b as u32) << 16u32) | ((c as u32) << 8u32) | (d as u32)
}

/// The value of eight big-endian bytes.
pub open spec fn be_u64(b0: u8, b1: u8, b2: u8, b3: u8, b4: u8, b5: u8, b6: u8, b7: u8) -> u64 {
    ((b0 as u64) << 56u64) | ((b1 as u64) << 48u64) | ((b2 as u64) << 40u64) | ((b3 as u64)
        << 32u64) | ((b4 as u64) << 24u64) | ((b5 as u64) << 16u64) | ((b6 as u64) << 8u64) | (
    b7 as u64)
}

/// The big-endian `u16` that starts at `off` in `s`.
pub open spec fn read_u16(s: Seq<u8>, off: int) -> u16 {
    be_u16(s[off], s[off + 1])
}

/// The big-endian `u32` that starts at `off` in `s`.
pub open spec fn read_u32(s: Seq<u8>, off: int) -> u32 {
    be_u32(s[off], s[off + 1], s[off + 2], s[off + 3])
}

/// The big-endian `u64` that starts at `off` in `s`.
pub open spec fn read_u64(s: Seq<u8>, off: int) -> u64 {
    be_u64(s[off], s[off + 1], s[off + 2], s[off + 3], s[off + 4], s[off + 5], s[off + 6], s[off + 7])
}

/// Reading back the bytes of a `u16` gives the `u16`.
pub proof fn lemma_u16_roundtrip(x: u16)
    ensures
        be_u16((x >> 8u16) as u8, x as u8) == x,
{
    assert(((((x >> 8u16) as u8) as u16) << 8u16) | ((x as u8) as u16) == x) by (bit_vector);
}

/// Reading back the bytes of a `u32` gives the `u32`.
pub proof fn lemma_u32_roundtrip(x: u32)
    ensures
        be_u32((x >> 24u32) as u8, (x >> 16u32) as u8, (x >> 8u32) as u8, x as u8) == x,
{
    assert(((((x >> 24u32) as u8) as u32) << 24u32) | ((((x >> 16u32) as u8) as u32) << 16u32)
        | ((((x >> 8u32) as u8) as u32) << 8u32) | ((x as u8) as u32) == x) by (bit_vector);
}

/// Reading back the bytes of a `u64` gives the `u64`.
pub proof fn lemma_u64_roundtrip(x: u64)
    ensures
        be_u64(
            (x >> 56u64) as u8,
            (x >> 48u64) as u8,
            (x >> 40u64) as u8,
            (x >> 32u64) as u8,
            (x >> 24u64) as u8,
            (x >> 16u64) as u8,
            (x >> 8u64) as u8,
            x as u8,
        ) == x,
{
    assert(((((x >> 56u64) as u8) as u64) << 56u64) | ((((x >> 48u64) as u8) as u64) << 48u64)
        | ((((x >> 40u64) as u8) as u64) << 40u64) | ((((x >> 32u64) as u8) as u64) << 32u64)
        | ((((x >> 24u64) as u8) as u64) << 24u64) | ((((x >> 16u64) as u8) as u64) << 16u64)
        | ((((x >> 8u64) as u8) as u64) << 8u64) | ((x as u8) as u64) == x) by (bit_vector);
}

/// Reading a `u16` out of `u16_be(x)` at any position gives `x`.
pub proof fn lemma_read_u16_be(s: Seq<u8>, off: int, x: u16)
    requires
        0 <= off,
        off + 2 <= s.len(),
        s.subrange(off, off + 2) == u16_be(x),
    ensures
        read_u16(s, off) == x,
{
    assert(s[off] == s.subrange(off, off + 2)[0]);
    assert(s[off + 1] == s.subrange(off, off + 2)[1]);
    lemma_u16_roundtrip(x);
}

/// Reading a `u32` out of `u32_be(x)` at any position gives `x`.
pub proof fn lemma_read_u32_be(s: Seq<u8>, off: int, x: u32)
    requires
        0 <= off,
        off + 4 <= s.len(),
        s.subrange(off, off + 4) == u32_be(x),
    ensures
        read_u32(s, off) == x,
{
    let t = s.subrange(off, off + 4);
    assert(s[off] == t[0] && s[off + 1] == t[1] && s[off + 2] == t[2] && s[off + 3] == t[3]);
    lemma_u32_roundtrip(x);
}

/// Reading a `u64` out of `u64_be(x)` at any position gives `x`.
pub proof fn lemma_read_u64_be(s: Seq<u8>, off: int, x: u64)
    requires
        0 <= off,
        off + 8 <= s.len(),
        s.subrange(off, off + 8) == u64_be(x),
    ensures
        read_u64(s, off) == x,
{
    let t = s.subrange(off, off + 8);
    assert(s[off] == t[0] && s[off + 1] == t[1] && s[off + 2] == t[2] && s[off + 3] == t[3]);
    assert(s[off + 4] == t[4] && s[off + 5] == t[5] && s[off + 6] == t[6] && s[off + 7] == t[7]);
    lemma_u64_roundtrip(x);
}

/// Appends the big-endian bytes of `x` to `buf`.
pub fn put_u16(buf: &mut Vec<u8>, x: u16)
    ensures
        final(buf)@ == old(buf)@ + u16_be(x),
{
    buf.push((x >> 8u16) as u8);
    buf.push(x as u8);
}

/// Appends the big-endian bytes of `x` to `buf`.
pub fn put_u32(buf: &mut Vec<u8>, x: u32)
    ensures
        final(buf)@ == old(buf)@ + u32_be(x),
{
    buf.push((x >> 24u32) as u8);
    buf.push((x >> 16u32) as u8);
    buf.push((x >> 8u32) as u8);
    buf.push(x as u8);
}

/// Appends the big-endian bytes of `x` to `buf`.
pub fn put_u64(buf: &mut Vec<u8>, x: u64)
    ensures
        final(buf)@ == old(buf)@ + u64_be(x),
{
    buf.push((x >> 56u64) as u8);
    buf.push((x >> 48u64) as u8);
    buf.push((x >> 40u64) as u8);
    buf.push((x >> 32u64) as u8);
    buf.push((x >> 24u64) as u8);
    buf.push((x >> 16u64) as u8);
    buf.push((x >> 8u64) as u8);
    buf.push(x as u8);
}

/// Appends all of `data` to `buf`.
pub fn put_slice(buf: &mut Vec<u8>, data: &[u8])
    ensures
        final(buf)@ == old(buf)@ + data@,
{
    let ghost start = buf@;
    let mut i: usize = 0;
    while i < data.len()
        invariant
            i <= data@.len(),
            buf@ == start + data@.subrange(0, i as int),
        decreases data@.len() - i,
    {
        buf.push(data[i]);
        i = i + 1;
        assert(data@.subrange(0, i as int) == data@.subrange(0, i - 1) + seq![data@[i - 1]]);
    }
    assert(data@.subrange(0, data@.len() as int) == data@);
}

/// The big-endian `u16` at `off` in `b`.
pub fn get_u16(b: &[u8], off: usize) -> (r: u16)
    requires
        off + 2 <= b@.len(),
    ensures
        r == read_u16(b@, off as int),
{
    ((b[off] as u16) << 8u16) | (b[off + 1] as u16)
}

/// The big-endian `u32` at `off` in `b`.
pub fn get_u32(b: &[u8], off: usize) -> (r: u32)
    requires
        off + 4 <= b@.len(),
    ensures
        r == read_u32(b@, off as int),
{
    ((b[off] as u32) << 24u32) | ((b[off + 1] as u32) << 16u32) | ((b[off + 2] as u32) << 8u32)
        | (b[off + 3] as u32)
}

/// The big-endian `u64` at `off` in `b`.
pub fn get_u64(b: &[u8], off: usize) -> (r: u64)
    requires
        off + 8 <= b@.len(),
    ensures
        r == read_u64(b@, off as int),
{
    ((b[off] as u64) << 56u64) | ((b[off + 1] as u64) << 48u64) | ((b[off + 2] as u64) << 40u64)
        | ((b[off + 3] as u64) << 32u64) | ((b[off + 4] as u64) << 24u64) | ((b[off + 5] as u64)
        << 16u64) | ((b[off + 6] as u64) << 8u64) | (b[off + 7] as u64)
}

/// The bytes of `b` from `start` to `end`, copied.
pub fn copy_range(b: &[u8], start: usize, end: usize) -> (r: Vec<u8>)
    requires
        start <= end <= b@.len(),
    ensures
        r@ == b@.subrange(start as int, end as int),
{
    let mut r: Vec<u8> = Vec::new();
    let mut i = start;
    while i < end
        invariant
            start <= i <= end <= b@.len(),
            r@ == b@.subrange(start as int, i as int),
        decreases end - i,
    {
        r.push(b[i]);
        i = i + 1;
        assert(b@.subrange(start as int, i as int) == b@.subrange(start as int, i - 1) + seq![
            b@[i - 1],
        ]);
    }
    r
}

} // verus!
