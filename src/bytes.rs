//! Little-endian integers as they appear in archive files.
use vstd::prelude::*;

verus! {

/// The value of two little-endian bytes.
pub open spec fn le_u16(s: Seq<u8>) -> int {
    s[0] as int + 256 * (s[1] as int)
}

/// The value of four little-endian bytes.
pub open spec fn le_u32(s: Seq<u8>) -> int {
    s[0] as int + 256 * (s[1] as int) + 65536 * (s[2] as int) + 16777216 * (s[3] as int)
}

/// The two little-endian bytes of `x`.
pub open spec fn u16_le(x: u16) -> Seq<u8> {
    seq![(x % 256) as u8, (x / 256) as u8]
}

/// The four little-endian bytes of `x`.
pub open spec fn u32_le(x: u32) -> Seq<u8> {
    seq![(x % 256) as u8, ((x / 256) % 256) as u8, ((x / 65536) % 256) as u8, (x / 16777216) as u8]
}

/// The `u32` stored at `pos`, if four bytes are there.
pub open spec fn u32_at(s: Seq<u8>, pos: int) -> Option<u32> {
    if 0 <= pos && pos + 4 <= s.len() {
        Some(le_u32(s.subrange(pos, pos + 4)) as u32)
    } else {
        None
    }
}

pub proof fn lemma_le_u32_bound(s: Seq<u8>)
    requires
        s.len() == 4,
    ensures
        0 <= le_u32(s) <= u32::MAX,
{
}

/// Encoding a `u32` and decoding it gives it back.
pub proof fn lemma_u32_round_trip(x: u32)
    ensures
        u32_le(x).len() == 4,
        le_u32(u32_le(x)) == x,
{
}

/// Encoding a `u16` and decoding it gives it back.
pub proof fn lemma_u16_round_trip(x: u16)
    ensures
        u16_le(x).len() == 2,
        le_u16(u16_le(x)) == x,
{
}

/// Reads the `u32` at `pos` of `data`.
pub fn read_u32(data: &[u8], pos: usize) -> (r: Option<u32>)
    ensures
        r == u32_at(data@, pos as int),
{
    if pos > data.len() || data.len() - pos < 4 {
        return None;
    }
    let v: u32 = data[pos] as u32 + 256 * (data[pos + 1] as u32) + 65536 * (data[pos + 2] as u32)
        + 16777216 * (data[pos + 3] as u32);
    assert(data@.subrange(pos as int, pos + 4)[1] == data@[pos + 1]);
    assert(data@.subrange(pos as int, pos + 4)[2] == data@[pos + 2]);
    assert(data@.subrange(pos as int, pos + 4)[3] == data@[pos + 3]);
    Some(v)
}

/// Reads the `u16` at `pos` of `data`.
pub fn read_u16(data: &[u8], pos: usize) -> (r: Option<u16>)
    ensures
        r == (if pos + 2 <= data@.len() {
            Some(le_u16(data@.subrange(pos as int, pos + 2)) as u16)
        } else {
            None
        }),
{
    if pos > data.len() || data.len() - pos < 2 {
        return None;
    }
    let v: u16 = data[pos] as u16 + 256 * (data[pos + 1] as u16);
    assert(data@.subrange(pos as int, pos + 2)[1] == data@[pos + 1]);
    Some(v)
}

/// Appends the four little-endian bytes of `x` to `out`.
pub fn push_u32(out: &mut Vec<u8>, x: u32)
    ensures
        final(out)@ == old(out)@ + u32_le(x),
{
    out.push((x % 256) as u8);
    out.push(((x / 256) % 256) as u8);
    out.push(((x / 65536) % 256) as u8);
    out.push((x / 16777216) as u8);
    assert(final(out)@ =~= old(out)@ + u32_le(x));
}

/// Appends the two little-endian bytes of `x` to `out`.
pub fn push_u16(out: &mut Vec<u8>, x: u16)
    ensures
        final(out)@ == old(out)@ + u16_le(x),
{
    out.push((x % 256) as u8);
    out.push((x / 256) as u8);
    assert(final(out)@ =~= old(out)@ + u16_le(x));
}

/// Appends all of `src` to `out`.
pub fn push_all(out: &mut Vec<u8>, src: &[u8])
    ensures
        final(out)@ == old(out)@ + src@,
{
    let mut i: usize = 0;
    while i < src.len()
        invariant
            i <= src@.len(),
            out@ == old(out)@ + src@.subrange(0, i as int),
        decreases src@.len() - i,
    {
        out.push(src[i]);
        i = i + 1;
        assert(out@ =~= old(out)@ + src@.subrange(0, i as int));
    }
    assert(src@.subrange(0, i as int) =~= src@);
}

/// The bytes of `data` from `start` to `end`.
pub fn copy_range(data: &[u8], start: usize, end: usize) -> (r: Vec<u8>)
    requires
        start <= end <= data@.len(),
    ensures
        r@ == data@.subrange(start as int, end as int),
{
    let mut r: Vec<u8> = Vec::new();
    let mut i: usize = start;
    while i < end
        invariant
            start <= i <= end <= data@.len(),
            r@ == data@.subrange(start as int, i as int),
        decreases end - i,
    {
        r.push(data[i]);
        i = i + 1;
        assert(r@ =~= data@.subrange(start as int, i as int));
    }
    r
}

} // verus!
