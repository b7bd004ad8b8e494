//! Little- and big-endian fixed-width integer encodings and byte-buffer helpers.

use vstd::prelude::*;

verus! {

pub open spec fn le32(x: u32) -> Seq<u8> {
    seq![
        (x & 0xff) as u8,
        ((x >> 8u32) & 0xff) as u8,
        ((x >> 16u32) & 0xff) as u8,
        ((x >> 24u32) & 0xff) as u8,
    ]
}

pub open spec fn from_le32(b: Seq<u8>) -> u32 {
    (b[0] as u32) | ((b[1] as u32) << 8u32) | ((b[2] as u32) << 16u32) | ((b[3] as u32) << 24u32)
}

pub open spec fn le64(x: u64) -> Seq<u8> {
    seq![
        (x & 0xff) as u8,
        ((x >> 8u64) & 0xff) as u8,
        ((x >> 16u64) & 0xff) as u8,
        ((x >> 24u64) & 0xff) as u8,
        ((x >> 32u64) & 0xff) as u8,
        ((x >> 40u64) & 0xff) as u8,
        ((x >> 48u64) & 0xff) as u8,
        ((x >> 56u64) & 0xff) as u8,
    ]
}

pub open spec fn from_le64(b: Seq<u8>) -> u64 {
    (b[0] as u64) | ((b[1] as u64) << 8u64) | ((b[2] as u64) << 16u64) | ((b[3] as u64) << 24u64)
        | ((b[4] as u64) << 32u64) | ((b[5] as u64) << 40u64) | ((b[6] as u64) << 48u64) | ((
    b[7] as u64) << 56u64)
}

/// Big-endian encoding of a `u64` (most significant byte first).
pub open spec fn be64(x: u64) -> Seq<u8> {
    seq![
        ((x >> 56u64) & 0xff) as u8,
        ((x >> 48u64) & 0xff) as u8,
        ((x >> 40u64) & 0xff) as u8,
        ((x >> 32u64) & 0xff) as u8,
        ((x >> 24u64) & 0xff) as u8,
        ((x >> 16u64) & 0xff) as u8,
        ((x >> 8u64) & 0xff) as u8,
        (x & 0xff) as u8,
    ]
}

pub open spec fn from_be64(b: Seq<u8>) -> u64 {
    (b[7] as u64) | ((b[6] as u64) << 8u64) | ((b[5] as u64) << 16u64) | ((b[4] as u64) << 24u64)
        | ((b[3] as u64) << 32u64) | ((b[2] as u64) << 40u64) | ((b[1] as u64) << 48u64) | ((
    b[0] as u64) << 56u64)
}

pub proof fn lemma_le32_roundtrip(x: u32)
    ensures
        from_le32(le32(x)) == x,
        le32(x).len() == 4,
{
    let b0 = (x & 0xff) as u8;
    let b1 = ((x >> 8u32) & 0xff) as u8;
    let b2 = ((x >> 16u32) & 0xff) as u8;
    let b3 = ((x >> 24u32) & 0xff) as u8;
    assert((b0 as u32) | ((b1 as u32) << 8u32) | ((b2 as u32) << 16u32) | ((b3 as u32) << 24u32)
        == x) by (bit_vector)
        requires
            b0 == (x & 0xff) as u8,
            b1 == ((x >> 8u32) & 0xff) as u8,
            b2 == ((x >> 16u32) & 0xff) as u8,
            b3 == ((x >> 24u32) & 0xff) as u8,
    ;
}

pub proof fn lemma_le64_roundtrip(x: u64)
    ensures
        from_le64(le64(x)) == x,
        le64(x).len() == 8,
{
    let b0 = (x & 0xff) as u8;
    let b1 = ((x >> 8u64) & 0xff) as u8;
    let b2 = ((x >> 16u64) & 0xff) as u8;
    let b3 = ((x >> 24u64) & 0xff) as u8;
    let b4 = ((x >> 32u64) & 0xff) as u8;
    let b5 = ((x >> 40u64) & 0xff) as u8;
    let b6 = ((x >> 48u64) & 0xff) as u8;
    let b7 = ((x >> 56u64) & 0xff) as u8;
    assert((b0 as u64) | ((b1 as u64) << 8u64) | ((b2 as u64) << 16u64) | ((b3 as u64) << 24u64)
        | ((b4 as u64) << 32u64) | ((b5 as u64) << 40u64) | ((b6 as u64) << 48u64) | ((b7 as u64)
        << 56u64) == x) by (bit_vector)
        requires
            b0 == (x & 0xff) as u8,
            b1 == ((x >> 8u64) & 0xff) as u8,
            b2 == ((x >> 16u64) & 0xff) as u8,
            b3 == ((x >> 24u64) & 0xff) as u8,
            b4 == ((x >> 32u64) & 0xff) as u8,
            b5 == ((x >> 40u64) & 0xff) as u8,
            b6 == ((x >> 48u64) & 0xff) as u8,
            b7 == ((x >> 56u64) & 0xff) as u8,
    ;
}

pub proof fn lemma_be64_roundtrip(x: u64)
    ensures
        from_be64(be64(x)) == x,
        be64(x).len() == 8,
{
    let b0 = ((x >> 56u64) & 0xff) as u8;
    let b1 = ((x >> 48u64) & 0xff) as u8;
    let b2 = ((x >> 40u64) & 0xff) as u8;
    let b3 = ((x >> 32u64) & 0xff) as u8;
    let b4 = ((x >> 24u64) & 0xff) as u8;
    let b5 = ((x >> 16u64) & 0xff) as u8;
    let b6 = ((x >> 8u64) & 0xff) as u8;
    let b7 = (x & 0xff) as u8;
    assert((b7 as u64) | ((b6 as u64) << 8u64) | ((b5 as u64) << 16u64) | ((b4 as u64) << 24u64)
        | ((b3 as u64) << 32u64) | ((b2 as u64) << 40u64) | ((b1 as u64) << 48u64) | ((b0 as u64)
        << 56u64) == x) by (bit_vector)
        requires
            b0 == ((x >> 56u64) & 0xff) as u8,
            b1 == ((x >> 48u64) & 0xff) as u8,
            b2 == ((x >> 40u64) & 0xff) as u8,
            b3 == ((x >> 32u64) & 0xff) as u8,
            b4 == ((x >> 24u64) & 0xff) as u8,
            b5 == ((x >> 16u64) & 0xff) as u8,
            b6 == ((x >> 8u64) & 0xff) as u8,
            b7 == (x & 0xff) as u8,
    ;
}

/// Two's-complement view of a signed integer as unsigned bits, and back.
pub proof fn lemma_i64_bits_roundtrip(n: i64)
    ensures
        (n as u64) as i64 == n,
{
    assert((n as u64) as i64 == n) by (bit_vector);
}

/// Append the little-endian bytes of `n`.
pub fn write_u32(out: &mut Vec<u8>, n: u32)
    ensures
        final(out)@ == old(out)@ + le32(n),
{
    out.push((n & 0xff) as u8);
    out.push(((n >> 8u32) & 0xff) as u8);
    out.push(((n >> 16u32) & 0xff) as u8);
    out.push(((n >> 24u32) & 0xff) as u8);
    assert(out@ =~= old(out)@ + le32(n));
}

/// Append the little-endian bytes of `n`.
pub fn write_u64(out: &mut Vec<u8>, n: u64)
    ensures
        final(out)@ == old(out)@ + le64(n),
{
    out.push((n & 0xff) as u8);
    out.push(((n >> 8u64) & 0xff) as u8);
    out.push(((n >> 16u64) & 0xff) as u8);
    out.push(((n >> 24u64) & 0xff) as u8);
    out.push(((n >> 32u64) & 0xff) as u8);
    out.push(((n >> 40u64) & 0xff) as u8);
    out.push(((n >> 48u64) & 0xff) as u8);
    out.push(((n >> 56u64) & 0xff) as u8);
    assert(out@ =~= old(out)@ + le64(n));
}

/// Append the big-endian bytes of `n`.
pub fn write_u64_be(out: &mut Vec<u8>, n: u64)
    ensures
        final(out)@ == old(out)@ + be64(n),
{
    out.push(((n >> 56u64) & 0xff) as u8);
    out.push(((n >> 48u64) & 0xff) as u8);
    out.push(((n >> 40u64) & 0xff) as u8);
    out.push(((n >> 32u64) & 0xff) as u8);
    out.push(((n >> 24u64) & 0xff) as u8);
    out.push(((n >> 16u64) & 0xff) as u8);
    out.push(((n >> 8u64) & 0xff) as u8);
    out.push((n & 0xff) as u8);
    assert(out@ =~= old(out)@ + be64(n));
}

/// Read four little-endian bytes at `pos`.
pub fn read_u32_at(buf: &[u8], pos: usize) -> (r: u32)
    requires
        pos + 4 <= buf@.len(),
    ensures
        r == from_le32(buf@.subrange(pos as int, pos + 4)),
{
    (buf[pos] as u32) | ((buf[pos + 1] as u32) << 8u32) | ((buf[pos + 2] as u32) << 16u32) | ((
    buf[pos + 3] as u32) << 24u32)
}

/// Read eight little-endian bytes at `pos`.
pub fn read_u64_at(buf: &[u8], pos: usize) -> (r: u64)
    requires
        pos + 8 <= buf@.len(),
    ensures
        r == from_le64(buf@.subrange(pos as int, pos + 8)),
{
    (buf[pos] as u64) | ((buf[pos + 1] as u64) << 8u64) | ((buf[pos + 2] as u64) << 16u64) | ((
    buf[pos + 3] as u64) << 24u64) | ((buf[pos + 4] as u64) << 32u64) | ((buf[pos + 5] as u64)
        << 40u64) | ((buf[pos + 6] as u64) << 48u64) | ((buf[pos + 7] as u64) << 56u64)
}

/// Read eight big-endian bytes at `pos`.
pub fn read_u64_be_at(buf: &[u8], pos: usize) -> (r: u64)
    requires
        pos + 8 <= buf@.len(),
    ensures
        r == from_be64(buf@.subrange(pos as int, pos + 8)),
{
    let _n = buf.len();
    (buf[pos + 7] as u64) | ((buf[pos + 6] as u64) << 8u64) | ((buf[pos + 5] as u64) << 16u64) | ((
    buf[pos + 4] as u64) << 24u64) | ((buf[pos + 3] as u64) << 32u64) | ((buf[pos + 2] as u64)
        << 40u64) | ((buf[pos + 1] as u64) << 48u64) | ((buf[pos] as u64) << 56u64)
}

/// Append all of `b`.
pub fn append_bytes(out: &mut Vec<u8>, b: &[u8])
    ensures
        final(out)@ == old(out)@ + b@,
{
    let mut i: usize = 0;
    while i < b.len()
        invariant
            i <= b@.len(),
            out@ == old(out)@ + b@.take(i as int),
        decreases b@.len() - i,
    {
        out.push(b[i]);
        assert(b@.take(i + 1) =~= b@.take(i as int).push(b@[i as int]));
        i = i + 1;
    }
    assert(b@.take(i as int) =~= b@);
}

/// A copy of `b[start..end]`.
pub fn copy_range(b: &[u8], start: usize, end: usize) -> (r: Vec<u8>)
    requires
        start <= end <= b@.len(),
    ensures
        r@ == b@.subrange(start as int, end as int),
{
    let mut out: Vec<u8> = Vec::new();
    let mut i: usize = start;
    while i < end
        invariant
            start <= i <= end,
            end <= b@.len(),
            out@ == b@.subrange(start as int, i as int),
        decreases end - i,
    {
        out.push(b[i]);
        assert(b@.subrange(start as int, i + 1) =~= b@.subrange(start as int, i as int).push(
            b@[i as int],
        ));
        i = i + 1;
    }
    out
}

/// Whether `b` starts with `prefix`.
pub fn starts_with(b: &[u8], prefix: &[u8]) -> (r: bool)
    ensures
        r == (prefix@.len() <= b@.len() && b@.take(prefix@.len() as int) == prefix@),
{
    if prefix.len() > b.len() {
        return false;
    }
    let mut i: usize = 0;
    while i < prefix.len()
        invariant
            i <= prefix@.len() <= b@.len(),
            b@.take(i as int) == prefix@.take(i as int),
        decreases prefix@.len() - i,
    {
        if b[i] != prefix[i] {
            assert(b@.take(prefix@.len() as int)[i as int] != prefix@[i as int]);
            return false;
        }
        assert(b@.take(i + 1) =~= b@.take(i as int).push(b@[i as int]));
        assert(prefix@.take(i + 1) =~= prefix@.take(i as int).push(prefix@[i as int]));
        i = i + 1;
    }
    assert(prefix@.take(i as int) =~= prefix@);
    true
}

} // verus!
