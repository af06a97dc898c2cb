//! Big-endian byte reading and writing.
use vstd::prelude::*;

verus! {

/// The big-endian 16-bit value at `off`.
pub open spec fn be16(s: Seq<u8>, off: int) -> int {
    s[off] as int * 256 + s[off + 1] as int
}

/// The big-endian 32-bit value at `off`.
pub open spec fn be32(s: Seq<u8>, off: int) -> int {
    s[off] as int * 16777216 + s[off + 1] as int * 65536 + s[off + 2] as int * 256 + s[off + 3] as int
}

/// The big-endian 64-bit value at `off`.
pub open spec fn be64(s: Seq<u8>, off: int) -> int {
    be32(s, off) * 4294967296 + be32(s, off + 4)
}

/// The two big-endian bytes of `v`.
pub open spec fn u16_be(v: u16) -> Seq<u8> {
    seq![(v / 256) as u8, (v % 256) as u8]
}

/// The four big-endian bytes of `v`.
pub open spec fn u32_be(v: u32) -> Seq<u8> {
    seq![(v / 16777216) as u8, ((v / 65536) % 256) as u8, ((v / 256) % 256) as u8, (v % 256) as u8]
}

/// The four bytes of `v` read back big-endian give `v`.
pub proof fn lemma_u32_be_roundtrip(v: u32)
    ensures
        be32(u32_be(v), 0) == v,
        u32_be(v).len() == 4,
{
}

/// The two bytes of `v` read back big-endian give `v`.
pub proof fn lemma_u16_be_roundtrip(v: u16)
    ensures
        be16(u16_be(v), 0) == v,
        u16_be(v).len() == 2,
{
}

/// Reads the big-endian `u16` at `off`, when two bytes are there.
pub fn read_u16_at(bytes: &[u8], off: usize) -> (r: Option<u16>)
    ensures
        r is Some <==> off + 2 <= bytes@.len(),
        r matches Some(v) ==> v == be16(bytes@, off as int),
{
    if off <= bytes.len() && bytes.len() - off >= 2 {
        Some((bytes[off] as u16) * 256 + bytes[off + 1] as u16)
    } else {
        None
    }
}

/// Reads the big-endian `u32` at `off`, when four bytes are there.
pub fn read_u32_at(bytes: &[u8], off: usize) -> (r: Option<u32>)
    ensures
        r is Some <==> off + 4 <= bytes@.len(),
        r matches Some(v) ==> v == be32(bytes@, off as int),
{
    if off <= bytes.len() && bytes.len() - off >= 4 {
        Some((bytes[off] as u32) * 16777216 + (bytes[off + 1] as u32) * 65536
            + (bytes[off + 2] as u32) * 256 + bytes[off + 3] as u32)
    } else {
        None
    }
}

/// Reads the big-endian `u64` at `off`, when eight bytes are there.
pub fn read_u64_at(bytes: &[u8], off: usize) -> (r: Option<u64>)
    ensures
        r is Some <==> off + 8 <= bytes@.len(),
        r matches Some(v) ==> v == be64(bytes@, off as int),
{
    if off <= bytes.len() && bytes.len() - off >= 8 {
        let hi = read_u32_at(bytes, off).unwrap();
        let lo = read_u32_at(bytes, off + 4).unwrap();
        Some((hi as u64) * 4294967296 + lo as u64)
    } else {
        None
    }
}

/// Appends the two big-endian bytes of `v`.
pub fn push_u16(out: &mut Vec<u8>, v: u16)
    ensures
        final(out)@ == old(out)@ + u16_be(v),
{
    out.push((v / 256) as u8);
    out.push((v % 256) as u8);
    assert(final(out)@ =~= old(out)@ + u16_be(v));
}

/// Appends the four big-endian bytes of `v`.
pub fn push_u32(out: &mut Vec<u8>, v: u32)
    ensures
        final(out)@ == old(out)@ + u32_be(v),
{
    out.push((v / 16777216) as u8);
    out.push(((v / 65536) % 256) as u8);
    out.push(((v / 256) % 256) as u8);
    out.push((v % 256) as u8);
    assert(final(out)@ =~= old(out)@ + u32_be(v));
}

/// Appends all of `src`.
pub fn push_all(out: &mut Vec<u8>, src: &[u8])
    ensures
        final(out)@ == old(out)@ + src@,
{
    let mut i: usize = 0;
    while i < src.len()
        invariant
            i <= src@.len(),
            out@ =~= old(out)@ + src@.take(i as int),
        decreases src@.len() - i,
    {
        out.push(src[i]);
        i += 1;
    }
    assert(src@.take(src@.len() as int) =~= src@);
}

/// A copy of `src[start..end]`.
pub fn copy_range(src: &[u8], start: usize, end: usize) -> (r: Vec<u8>)
    requires
        start <= end <= src@.len(),
    ensures
        r@ == src@.subrange(start as int, end as int),
{
    let mut out: Vec<u8> = Vec::new();
    let mut i = start;
    while i < end
        invariant
            start <= i <= end <= src@.len(),
            out@ =~= src@.subrange(start as int, i as int),
        decreases end - i,
    {
        out.push(src[i]);
        i += 1;
    }
    out
}

} // verus!
