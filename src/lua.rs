//! Lua 5.3 bytecode headers: the valid form and the crippled form some games expect.
use vstd::prelude::*;
use crate::bytes::{push_all, copy_range};

verus! {

/// The width of the integers a bytecode header declares.
#[derive(Clone, Copy, Debug, PartialEq, Eq, Structural)]
pub enum Bits {
    Int32,
    Int64,
}

/// Signature, version 5.3, format 0 and the `LUAC_DATA` bytes.
pub open spec fn lua_prefix() -> Seq<u8> {
    seq![0x1Bu8, 0x4Cu8, 0x75u8, 0x61u8, 0x53u8, 0x00u8, 0x19u8, 0x93u8, 0x0Du8, 0x0Au8, 0x1Au8, 0x0Au8]
}

/// The test integer 0x5678 in the declared width.
pub open spec fn luac_int(bits: Bits) -> Seq<u8> {
    match bits {
        Bits::Int32 => seq![0x78u8, 0x56u8, 0x00u8, 0x00u8],
        Bits::Int64 => seq![0x78u8, 0x56u8, 0x00u8, 0x00u8, 0x00u8, 0x00u8, 0x00u8, 0x00u8],
    }
}

/// The test number 370.5 as a little-endian double.
pub open spec fn luac_num() -> Seq<u8> {
    seq![0x00u8, 0x00u8, 0x00u8, 0x00u8, 0x00u8, 0x28u8, 0x77u8, 0x40u8]
}

/// The five size bytes of a valid header.
pub open spec fn valid_sizes(bits: Bits) -> Seq<u8> {
    match bits {
        Bits::Int32 => seq![0x04u8, 0x04u8, 0x04u8, 0x04u8, 0x08u8],
        Bits::Int64 => seq![0x04u8, 0x04u8, 0x04u8, 0x08u8, 0x08u8],
    }
}

/// The three size bytes of a crippled header.
pub open spec fn crippled_sizes() -> Seq<u8> {
    seq![0x04u8, 0x04u8, 0x08u8]
}

/// A valid header: 29 bytes for 32-bit integers, 33 for 64-bit.
pub open spec fn spec_valid_header(bits: Bits) -> Seq<u8> {
    lua_prefix() + valid_sizes(bits) + luac_int(bits) + luac_num()
}

/// A crippled header: two size bytes fewer than the valid one.
pub open spec fn spec_invalid_header(bits: Bits) -> Seq<u8> {
    lua_prefix() + crippled_sizes() + luac_int(bits) + luac_num()
}

/// Whether `s` holds `pat` at `pos`.
pub open spec fn holds_at(s: Seq<u8>, pos: int, pat: Seq<u8>) -> bool {
    pos + pat.len() <= s.len() && s.subrange(pos, pos + pat.len()) == pat
}

/// Whether `s` starts like a header with `sizes` size bytes (of any value) and
/// integers of width `bits`.
pub open spec fn header_with(s: Seq<u8>, sizes: int, bits: Bits) -> bool {
    &&& holds_at(s, 0, lua_prefix())
    &&& holds_at(s, 12 + sizes, luac_int(bits))
    &&& holds_at(s, 12 + sizes + luac_int(bits).len(), luac_num())
}

/// The header that starts `s`, with `sizes` size bytes: its width and its
/// length. 32-bit integers are tried first.
pub open spec fn spec_match_header(s: Seq<u8>, sizes: int) -> Option<(Bits, int)> {
    if header_with(s, sizes, Bits::Int32) {
        Some((Bits::Int32, 12 + sizes + 12))
    } else if header_with(s, sizes, Bits::Int64) {
        Some((Bits::Int64, 12 + sizes + 16))
    } else {
        None
    }
}

/// `s` with a valid header replaced by the crippled one.
pub open spec fn spec_cripple(s: Seq<u8>) -> Seq<u8> {
    match spec_match_header(s, 5) {
        Some((bits, end)) => spec_invalid_header(bits) + s.subrange(end, s.len() as int),
        None => s,
    }
}

/// `s` with a crippled header replaced by the valid one.
pub open spec fn spec_fix(s: Seq<u8>) -> Seq<u8> {
    match spec_match_header(s, 3) {
        Some((bits, end)) => spec_valid_header(bits) + s.subrange(end, s.len() as int),
        None => s,
    }
}

fn push_bytes4(out: &mut Vec<u8>, a: u8, b: u8, c: u8, d: u8)
    ensures
        final(out)@ == old(out)@ + seq![a, b, c, d],
{
    out.push(a);
    out.push(b);
    out.push(c);
    out.push(d);
    assert(final(out)@ =~= old(out)@ + seq![a, b, c, d]);
}

fn prefix_bytes() -> (r: Vec<u8>)
    ensures
        r@ == lua_prefix(),
{
    let mut r: Vec<u8> = Vec::new();
    push_bytes4(&mut r, 0x1B, 0x4C, 0x75, 0x61);
    push_bytes4(&mut r, 0x53, 0x00, 0x19, 0x93);
    push_bytes4(&mut r, 0x0D, 0x0A, 0x1A, 0x0A);
    assert(r@ =~= lua_prefix());
    r
}

fn int_bytes(bits: Bits) -> (r: Vec<u8>)
    ensures
        r@ == luac_int(bits),
{
    let mut r: Vec<u8> = Vec::new();
    push_bytes4(&mut r, 0x78, 0x56, 0x00, 0x00);
    if let Bits::Int64 = bits {
        push_bytes4(&mut r, 0x00, 0x00, 0x00, 0x00);
    }
    assert(r@ =~= luac_int(bits));
    r
}

fn num_bytes() -> (r: Vec<u8>)
    ensures
        r@ == luac_num(),
{
    let mut r: Vec<u8> = Vec::new();
    push_bytes4(&mut r, 0x00, 0x00, 0x00, 0x00);
    push_bytes4(&mut r, 0x00, 0x28, 0x77, 0x40);
    assert(r@ =~= luac_num());
    r
}

/// The valid header for integers of width `bits`.
pub fn valid_header(bits: Bits) -> (r: Vec<u8>)
    ensures
        r@ == spec_valid_header(bits),
{
    let mut r = prefix_bytes();
    match bits {
        Bits::Int32 => {
            push_bytes4(&mut r, 0x04, 0x04, 0x04, 0x04);
        },
        Bits::Int64 => {
            push_bytes4(&mut r, 0x04, 0x04, 0x04, 0x08);
        },
    }
    r.push(0x08);
    push_all(&mut r, int_bytes(bits).as_slice());
    push_all(&mut r, num_bytes().as_slice());
    assert(r@ =~= spec_valid_header(bits));
    r
}

/// The crippled header for integers of width `bits`.
pub fn invalid_header(bits: Bits) -> (r: Vec<u8>)
    ensures
        r@ == spec_invalid_header(bits),
{
    let mut r = prefix_bytes();
    r.push(0x04);
    r.push(0x04);
    r.push(0x08);
    push_all(&mut r, int_bytes(bits).as_slice());
    push_all(&mut r, num_bytes().as_slice());
    assert(r@ =~= spec_invalid_header(bits));
    r
}

/// Whether `data` holds `pat` at `pos`.
fn bytes_at(data: &[u8], pos: usize, pat: &[u8]) -> (r: bool)
    ensures
        r == holds_at(data@, pos as int, pat@),
{
    if pos > data.len() || data.len() - pos < pat.len() {
        return false;
    }
    let mut i: usize = 0;
    let len = data.len();
    while i < pat.len()
        invariant
            len == data@.len(),
            pos + pat@.len() <= data@.len(),
            i <= pat@.len(),
            forall|j: int| 0 <= j < i ==> data@[pos + j] == pat@[j],
        decreases pat@.len() - i,
    {
        if data[pos + i] != pat[i] {
            assert(data@.subrange(pos as int, pos + pat@.len())[i as int] != pat@[i as int]);
            return false;
        }
        i = i + 1;
    }
    assert(data@.subrange(pos as int, pos + pat@.len()) =~= pat@);
    true
}

fn header_with_exec(data: &[u8], sizes: usize, bits: Bits) -> (r: bool)
    requires
        sizes <= 5,
    ensures
        r == header_with(data@, sizes as int, bits),
{
    let test_int = int_bytes(bits);
    bytes_at(data, 0, prefix_bytes().as_slice()) && bytes_at(data, 12 + sizes, test_int.as_slice())
        && bytes_at(data, 12 + sizes + test_int.len(), num_bytes().as_slice())
}

fn match_header(data: &[u8], sizes: usize) -> (r: Option<(Bits, usize)>)
    requires
        sizes <= 5,
    ensures
        r matches Some((b, e)) ==> spec_match_header(data@, sizes as int) == Some((b, e as int)),
        r is None ==> spec_match_header(data@, sizes as int) is None,
{
    if header_with_exec(data, sizes, Bits::Int32) {
        Some((Bits::Int32, 12 + sizes + 12))
    } else if header_with_exec(data, sizes, Bits::Int64) {
        Some((Bits::Int64, 12 + sizes + 16))
    } else {
        None
    }
}

/// Matches a valid header at the start of `data`: its width and the position
/// after it.
pub fn check_valid_header(data: &[u8]) -> (r: Option<(Bits, usize)>)
    ensures
        r matches Some((b, e)) ==> spec_match_header(data@, 5) == Some((b, e as int)),
        r is None ==> spec_match_header(data@, 5) is None,
{
    match_header(data, 5)
}

/// Matches a crippled header at the start of `data`: its width and the
/// position after it.
pub fn check_invalid_header(data: &[u8]) -> (r: Option<(Bits, usize)>)
    ensures
        r matches Some((b, e)) ==> spec_match_header(data@, 3) == Some((b, e as int)),
        r is None ==> spec_match_header(data@, 3) is None,
{
    match_header(data, 3)
}

/// `data` with a valid header at its start replaced by the crippled one.
pub fn cripple_header(data: &[u8]) -> (r: Vec<u8>)
    ensures
        r@ == spec_cripple(data@),
{
    match check_valid_header(data) {
        Some((bits, end)) => {
            let mut r = invalid_header(bits);
            push_all(&mut r, copy_range(data, end, data.len()).as_slice());
            r
        },
        None => {
            let r = copy_range(data, 0, data.len());
            assert(data@.subrange(0, data@.len() as int) =~= data@);
            r
        },
    }
}

/// `data` with a crippled header at its start replaced by the valid one.
pub fn fix_header(data: &[u8]) -> (r: Vec<u8>)
    ensures
        r@ == spec_fix(data@),
{
    match check_invalid_header(data) {
        Some((bits, end)) => {
            let mut r = valid_header(bits);
            push_all(&mut r, copy_range(data, end, data.len()).as_slice());
            r
        },
        None => {
            let r = copy_range(data, 0, data.len());
            assert(data@.subrange(0, data@.len() as int) =~= data@);
            r
        },
    }
}

proof fn lemma_valid_header_matches(bits: Bits, tail: Seq<u8>)
    ensures
        spec_match_header(spec_valid_header(bits) + tail, 5) == Some(
            (bits, spec_valid_header(bits).len() as int),
        ),
{
    let s = spec_valid_header(bits) + tail;
    assert(s.subrange(0, 12) =~= lua_prefix());
    match bits {
        Bits::Int32 => {
            assert(s.subrange(17, 21) =~= luac_int(Bits::Int32));
            assert(s.subrange(21, 29) =~= luac_num());
        },
        Bits::Int64 => {
            assert(s.subrange(21, 29)[5] != luac_num()[5]);
            assert(s.subrange(17, 25) =~= luac_int(Bits::Int64));
            assert(s.subrange(25, 33) =~= luac_num());
        },
    }
}

proof fn lemma_invalid_header_matches(bits: Bits, tail: Seq<u8>)
    ensures
        spec_match_header(spec_invalid_header(bits) + tail, 3) == Some(
            (bits, spec_invalid_header(bits).len() as int),
        ),
{
    let s = spec_invalid_header(bits) + tail;
    assert(s.subrange(0, 12) =~= lua_prefix());
    match bits {
        Bits::Int32 => {
            assert(s.subrange(15, 19) =~= luac_int(Bits::Int32));
            assert(s.subrange(19, 27) =~= luac_num());
        },
        Bits::Int64 => {
            assert(s.subrange(19, 27)[5] != luac_num()[5]);
            assert(s.subrange(15, 23) =~= luac_int(Bits::Int64));
            assert(s.subrange(23, 31) =~= luac_num());
        },
    }
}

/// Crippling a valid header and fixing it again gives back the starting
/// bytes, whatever follows the header.
pub proof fn lemma_fix_cripple_round_trip(bits: Bits, tail: Seq<u8>)
    ensures
        spec_fix(spec_cripple(spec_valid_header(bits) + tail)) == spec_valid_header(bits) + tail,
{
    let s = spec_valid_header(bits) + tail;
    lemma_valid_header_matches(bits, tail);
    assert(s.subrange(spec_valid_header(bits).len() as int, s.len() as int) =~= tail);
    lemma_invalid_header_matches(bits, tail);
    let c = spec_invalid_header(bits) + tail;
    assert(c.subrange(spec_invalid_header(bits).len() as int, c.len() as int) =~= tail);
}

} // verus!

verus! {

/// Which way a rewriter turns the header.
#[derive(Clone, Copy, Debug, PartialEq, Eq, Structural)]
pub enum Rewrite {
    /// Replace a valid header by the crippled one, on reads.
    Cripple,
    /// Replace a crippled header by the valid one, on writes.
    Fix,
}

/// A one-shot header rewriter: the first chunk that passes through it is
/// rewritten, later ones pass unchanged.
pub struct LuaHeaderRewriter {
    pub done: bool,
    pub rewrite: Rewrite,
}

impl LuaHeaderRewriter {
    pub fn new(rewrite: Rewrite) -> (r: LuaHeaderRewriter)
        ensures
            !r.done,
            r.rewrite == rewrite,
    {
        LuaHeaderRewriter { done: false, rewrite }
    }

    /// Passes a chunk that was read: the first one is crippled (for a
    /// crippling rewriter), later ones pass as they are.
    pub fn read(&mut self, chunk: &[u8]) -> (r: Vec<u8>)
        ensures
            final(self).done,
            final(self).rewrite == old(self).rewrite,
            r@ == (if !old(self).done && old(self).rewrite == Rewrite::Cripple {
                spec_cripple(chunk@)
            } else {
                chunk@
            }),
    {
        let first = !self.done;
        self.done = true;
        if first && self.rewrite == Rewrite::Cripple {
            cripple_header(chunk)
        } else {
            let r = copy_range(chunk, 0, chunk.len());
            assert(chunk@.subrange(0, chunk@.len() as int) =~= chunk@);
            r
        }
    }

    /// Writes a chunk to `out`: the first one fixed (for a fixing rewriter),
    /// later ones as they are. Gives the number of bytes taken from `buf`:
    /// where a header was expanded, the two bytes it gained are not counted,
    /// so that a copy loop sees all of `buf` taken.
    pub fn write(&mut self, buf: &[u8], out: &mut Vec<u8>) -> (r: usize)
        ensures
            final(self).done,
            final(self).rewrite == old(self).rewrite,
            final(out)@ == old(out)@ + (if !old(self).done && old(self).rewrite == Rewrite::Fix {
                spec_fix(buf@)
            } else {
                buf@
            }),
            r == buf@.len(),
    {
        let first = !self.done;
        self.done = true;
        if first && self.rewrite == Rewrite::Fix {
            match check_invalid_header(buf) {
                Some((bits, end)) => {
                    let header = valid_header(bits);
                    let rest = copy_range(buf, end, buf.len());
                    push_all(out, header.as_slice());
                    push_all(out, rest.as_slice());
                    assert(out@ =~= old(out)@ + spec_fix(buf@));
                    (header.len() - 2) + rest.len()
                },
                None => {
                    push_all(out, buf);
                    buf.len()
                },
            }
        } else {
            push_all(out, buf);
            buf.len()
        }
    }
}

} // verus!
