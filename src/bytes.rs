//! Byte-sequence helpers shared by the codec and the line parsers.

use vstd::prelude::*;

verus! {

/// The views of a sequence of byte vectors.
pub open spec fn views(v: Seq<Vec<u8>>) -> Seq<Seq<u8>> {
    v.map_values(|x: Vec<u8>| x@)
}

/// Appends `src[start..end]` to `out`.
pub fn append_range(out: &mut Vec<u8>, src: &[u8], start: usize, end: usize)
    requires
        start <= end <= src@.len(),
    ensures
        final(out)@ == old(out)@ + src@.subrange(start as int, end as int),
{
    let mut i: usize = start;
    while i < end
        invariant
            start <= i <= end <= src@.len(),
            out@ == old(out)@ + src@.subrange(start as int, i as int),
        decreases end - i,
    {
        out.push(src[i]);
        i = i + 1;
        assert(src@.subrange(start as int, i as int) =~= src@.subrange(start as int, i - 1).push(
            src@[i - 1],
        ));
    }
}

/// A copy of `src[start..end]`.
pub fn copy_range(src: &[u8], start: usize, end: usize) -> (r: Vec<u8>)
    requires
        start <= end <= src@.len(),
    ensures
        r@ == src@.subrange(start as int, end as int),
{
    let mut out: Vec<u8> = Vec::new();
    append_range(&mut out, src, start, end);
    assert(out@ =~= src@.subrange(start as int, end as int));
    out
}

/// Big-endian bytes of a 16-bit value.
pub open spec fn be16(x: u16) -> Seq<u8> {
    seq![(x / 256) as u8, (x % 256) as u8]
}

/// Big-endian bytes of a 32-bit value.
pub open spec fn be32(x: u32) -> Seq<u8> {
    seq![(x / 0x100_0000) as u8, ((x / 0x1_0000) % 256) as u8, ((x / 256) % 256) as u8, (x % 256) as u8]
}

/// The 16-bit value stored big-endian at `pos`.
pub open spec fn read16(d: Seq<u8>, pos: int) -> u16 {
    (d[pos] as int * 256 + d[pos + 1] as int) as u16
}

/// The 32-bit value stored big-endian at `pos`.
pub open spec fn read32(d: Seq<u8>, pos: int) -> u32 {
    (d[pos] as int * 0x100_0000 + d[pos + 1] as int * 0x1_0000 + d[pos + 2] as int * 256
        + d[pos + 3] as int) as u32
}

pub fn push_u16(out: &mut Vec<u8>, x: u16)
    ensures
        final(out)@ == old(out)@ + be16(x),
{
    out.push((x / 256) as u8);
    out.push((x % 256) as u8);
    assert(out@ =~= old(out)@ + be16(x));
}

pub fn push_u32(out: &mut Vec<u8>, x: u32)
    ensures
        final(out)@ == old(out)@ + be32(x),
{
    out.push((x / 0x100_0000) as u8);
    out.push(((x / 0x1_0000) % 256) as u8);
    out.push(((x / 256) % 256) as u8);
    out.push((x % 256) as u8);
    assert(out@ =~= old(out)@ + be32(x));
}

pub fn get_u16(d: &[u8], pos: usize) -> (r: u16)
    requires
        pos + 2 <= d@.len(),
    ensures
        r == read16(d@, pos as int),
{
    let hi = d[pos] as u16;
    let lo = d[pos + 1] as u16;
    hi * 256 + lo
}

pub fn get_u32(d: &[u8], pos: usize) -> (r: u32)
    requires
        pos + 4 <= d@.len(),
    ensures
        r == read32(d@, pos as int),
{
    let a = d[pos] as u32;
    let b = d[pos + 1] as u32;
    let c = d[pos + 2] as u32;
    let e = d[pos + 3] as u32;
    a * 0x100_0000 + b * 0x1_0000 + c * 256 + e
}

pub proof fn lemma_read16_be16(d: Seq<u8>, pos: int, x: u16)
    requires
        0 <= pos,
        pos + 2 <= d.len(),
        d.subrange(pos, pos + 2) == be16(x),
    ensures
        read16(d, pos) == x,
{
    assert(d[pos] == d.subrange(pos, pos + 2)[0]);
    assert(d[pos + 1] == d.subrange(pos, pos + 2)[1]);
}

pub proof fn lemma_read32_be32(d: Seq<u8>, pos: int, x: u32)
    requires
        0 <= pos,
        pos + 4 <= d.len(),
        d.subrange(pos, pos + 4) == be32(x),
    ensures
        read32(d, pos) == x,
{
    assert(d[pos] == d.subrange(pos, pos + 4)[0]);
    assert(d[pos + 1] == d.subrange(pos, pos + 4)[1]);
    assert(d[pos + 2] == d.subrange(pos, pos + 4)[2]);
    assert(d[pos + 3] == d.subrange(pos, pos + 4)[3]);
}

} // verus!
