//! Chunked compression: the compression header and the payload behind it.
use vstd::prelude::*;
use crate::bytes::{u32_le, read_u32, push_u32, push_all, copy_range};
use crate::bytes::lemma_u32_round_trip;
use crate::codec::{
    zlib_encoded, lz4_encoded, zlib_decoded, lz4_decoded, zstd_decoded, zlib_encode, lz4_encode,
    zlib_decode, lz4_decode, zstd_decode,
};
use crate::error::{HpkError, HpkResult};
use crate::format::u32_field;

verus! {

/// The codec of a chunked payload, named by its first four bytes.
#[derive(Clone, Copy, Debug, PartialEq, Eq, Structural)]
pub enum Compression {
    Zlib,
    Lz4,
    Zstd,
    Stored,
}

/// `ZLIB`
pub open spec fn zlib_tag() -> Seq<u8> {
    seq![0x5Au8, 0x4Cu8, 0x49u8, 0x42u8]
}

/// `LZ4 `, with a space.
pub open spec fn lz4_tag() -> Seq<u8> {
    seq![0x4Cu8, 0x5Au8, 0x34u8, 0x20u8]
}

/// `ZSTD`
pub open spec fn zstd_tag() -> Seq<u8> {
    seq![0x5Au8, 0x53u8, 0x54u8, 0x44u8]
}

/// The codec whose tag starts `s`; `None` where no tag does.
pub open spec fn spec_detect(s: Seq<u8>) -> Compression {
    if s.len() < 4 {
        Compression::Stored
    } else if s.subrange(0, 4) == zlib_tag() {
        Compression::Zlib
    } else if s.subrange(0, 4) == lz4_tag() {
        Compression::Lz4
    } else if s.subrange(0, 4) == zstd_tag() {
        Compression::Zstd
    } else {
        Compression::Stored
    }
}

impl Compression {
    /// The tag written for the codec; empty for `None`.
    pub open spec fn spec_tag(self) -> Seq<u8> {
        match self {
            Compression::Zlib => zlib_tag(),
            Compression::Lz4 => lz4_tag(),
            Compression::Zstd => zstd_tag(),
            Compression::Stored => seq![],
        }
    }

    pub fn is_compressed(&self) -> (r: bool)
        ensures
            r == (*self != Compression::Stored),
    {
        !matches!(*self, Compression::Stored)
    }

    /// The codec's name as the tool prints it.
    pub fn name(&self) -> (r: &'static str)
        ensures
            *self == Compression::Zlib ==> r@ == "ZLIB"@,
            *self == Compression::Lz4 ==> r@ == "LZ4"@,
            *self == Compression::Zstd ==> r@ == "ZSTD"@,
            *self == Compression::Stored ==> r@ == "None"@,
    {
        match *self {
            Compression::Zlib => "ZLIB",
            Compression::Lz4 => "LZ4",
            Compression::Zstd => "ZSTD",
            Compression::Stored => "None",
        }
    }

    /// Reads the tag at the start of `data`: an error where fewer than four
    /// bytes are there, `None` where they are no known tag.
    pub fn read_from(data: &[u8]) -> (r: HpkResult<Compression>)
        ensures
            data@.len() < 4 ==> r == Err::<Compression, HpkError>(HpkError::UnexpectedEof),
            data@.len() >= 4 ==> r == Ok::<Compression, HpkError>(spec_detect(data@)),
    {
        if data.len() < 4 {
            return Err(HpkError::UnexpectedEof);
        }
        Ok(get_compression(data))
    }

    /// Appends the codec's tag to `out`; gives its length.
    pub fn write_identifier(&self, out: &mut Vec<u8>) -> (r: u64)
        ensures
            final(out)@ == old(out)@ + self.spec_tag(),
            r == self.spec_tag().len(),
    {
        let ghost start = out@;
        match *self {
            Compression::Zlib => {
                out.push(0x5A);
                out.push(0x4C);
                out.push(0x49);
                out.push(0x42);
            },
            Compression::Lz4 => {
                out.push(0x4C);
                out.push(0x5A);
                out.push(0x34);
                out.push(0x20);
            },
            Compression::Zstd => {
                out.push(0x5A);
                out.push(0x53);
                out.push(0x54);
                out.push(0x44);
            },
            Compression::Stored => {
                assert(out@ =~= start + self.spec_tag());
                return 0;
            },
        }
        assert(out@ =~= start + self.spec_tag());
        4
    }
}

/// The codec whose tag starts `data`.
pub fn get_compression(data: &[u8]) -> (r: Compression)
    ensures
        r == spec_detect(data@),
{
    if data.len() < 4 {
        return Compression::Stored;
    }
    let ghost head = data@.subrange(0, 4);
    assert(head[0] == data@[0] && head[1] == data@[1] && head[2] == data@[2] && head[3]
        == data@[3]);
    let (a, b, c, d) = (data[0], data[1], data[2], data[3]);
    if a == 0x5A && b == 0x4C && c == 0x49 && d == 0x42 {
        assert(head =~= zlib_tag());
        Compression::Zlib
    } else if a == 0x4C && b == 0x5A && c == 0x34 && d == 0x20 {
        assert(head != zlib_tag()) by {
            if head == zlib_tag() {
                assert(head[0] == zlib_tag()[0]);
            }
        }
        assert(head =~= lz4_tag());
        Compression::Lz4
    } else if a == 0x5A && b == 0x53 && c == 0x54 && d == 0x44 {
        assert(head != zlib_tag()) by {
            if head == zlib_tag() {
                assert(head[1] == zlib_tag()[1]);
            }
        }
        assert(head != lz4_tag()) by {
            if head == lz4_tag() {
                assert(head[0] == lz4_tag()[0]);
            }
        }
        assert(head =~= zstd_tag());
        Compression::Zstd
    } else {
        assert(head != zlib_tag()) by {
            if head == zlib_tag() {
                assert(head[0] == zlib_tag()[0] && head[1] == zlib_tag()[1] && head[2]
                    == zlib_tag()[2] && head[3] == zlib_tag()[3]);
            }
        }
        assert(head != lz4_tag()) by {
            if head == lz4_tag() {
                assert(head[0] == lz4_tag()[0] && head[1] == lz4_tag()[1] && head[2]
                    == lz4_tag()[2] && head[3] == lz4_tag()[3]);
            }
        }
        assert(head != zstd_tag()) by {
            if head == zstd_tag() {
                assert(head[0] == zstd_tag()[0] && head[1] == zstd_tag()[1] && head[2]
                    == zstd_tag()[2] && head[3] == zstd_tag()[3]);
            }
        }
        Compression::Stored
    }
}

/// One chunk of a compressed payload: its start within the payload and its length.
#[derive(Clone, Copy, Debug, PartialEq, Eq, Structural)]
pub struct Chunk {
    pub offset: u64,
    pub length: u64,
}

/// The header in front of a chunked payload.
pub struct CompressionHeader {
    pub compressor: Compression,
    pub inflated_length: u32,
    pub chunk_size: u32,
    pub chunks: Vec<Chunk>,
}

/// The number of chunk offsets after the first one, given the first.
pub open spec fn extra_offsets(first: u32) -> int {
    (first - 16) / 4
}

/// The chunk offsets stored in `s`: the first at byte 12 tells how many follow.
pub open spec fn stored_offsets(s: Seq<u8>) -> Seq<u64> {
    Seq::new(
        (extra_offsets(u32_field(s, 12)) + 1) as nat,
        |k: int| u32_field(s, 12 + 4 * k) as u64,
    )
}

/// Whether the offsets rise and end within a payload of `length` bytes.
pub open spec fn offsets_fit(offs: Seq<u64>, length: u64) -> bool {
    &&& forall|k: int| 0 <= k < offs.len() - 1 ==> #[trigger] offs[k] <= offs[k + 1]
    &&& offs.len() > 0 ==> offs.last() <= length
}

/// The chunks that the offsets mark out in a payload of `length` bytes: each
/// runs to the next offset, the last to the payload's end.
pub open spec fn chunks_of(offs: Seq<u64>, length: u64) -> Seq<Chunk> {
    Seq::new(
        offs.len(),
        |k: int|
            Chunk {
                offset: offs[k],
                length: ((if k + 1 < offs.len() {
                    offs[k + 1]
                } else {
                    length
                }) - offs[k]) as u64,
            },
    )
}

/// What reading a compression header from `s`, for a payload of `length`
/// bytes, gives: codec, inflated length, chunk size and chunks.
pub open spec fn spec_read_compression_header(length: u64, s: Seq<u8>) -> HpkResult<
    (Compression, u32, u32, Seq<Chunk>),
> {
    if s.len() < 12 {
        Err(HpkError::UnexpectedEof)
    } else if s.len() < 16 {
        Ok((spec_detect(s), u32_field(s, 4), u32_field(s, 8), seq![]))
    } else if u32_field(s, 12) < 16 || 16 + 4 * extra_offsets(u32_field(s, 12)) > s.len() {
        Err(HpkError::UnexpectedEof)
    } else if !offsets_fit(stored_offsets(s), length) {
        Err(HpkError::UnexpectedEof)
    } else {
        Ok(
            (
                spec_detect(s),
                u32_field(s, 4),
                u32_field(s, 8),
                chunks_of(stored_offsets(s), length),
            ),
        )
    }
}

impl CompressionHeader {
    /// Reads the header at the start of `data`, a payload of `length` bytes.
    pub fn read_from(length: u64, data: &[u8]) -> (r: HpkResult<CompressionHeader>)
        ensures
            r matches Ok(h) ==> spec_read_compression_header(length, data@) == Ok::<
                _,
                HpkError,
            >((h.compressor, h.inflated_length, h.chunk_size, h.chunks@)),
            r matches Err(e) ==> spec_read_compression_header(length, data@) == Err::<
                (Compression, u32, u32, Seq<Chunk>),
                HpkError,
            >(e),
    {
        let compressor = Compression::read_from(data)?;
        let inflated_length = match read_u32(data, 4) {
            Some(v) => v,
            None => return Err(HpkError::UnexpectedEof),
        };
        let chunk_size = match read_u32(data, 8) {
            Some(v) => v,
            None => return Err(HpkError::UnexpectedEof),
        };
        let first = match read_u32(data, 12) {
            Some(v) => v,
            None => {
                return Ok(CompressionHeader { compressor, inflated_length, chunk_size, chunks: Vec::new() });
            },
        };
        if first < 16 {
            return Err(HpkError::UnexpectedEof);
        }
        let n = ((first - 16) / 4) as usize;
        if n > (data.len() - 16) / 4 {
            assert(16 + 4 * extra_offsets(first) > data@.len());
            return Err(HpkError::UnexpectedEof);
        }
        let offsets = read_offsets(data, n);
        match chunks_from(&offsets, length) {
            Some(chunks) => Ok(CompressionHeader { compressor, inflated_length, chunk_size, chunks }),
            None => Err(HpkError::UnexpectedEof),
        }
    }
}

impl CompressionHeader {
    /// Appends a compression header for `offsets`, the starts of the encoded
    /// chunks after the header: the codec's tag, the inflated length, the
    /// chunk size and each offset moved past the header. Gives the header's
    /// length, `12 + 4 * offsets.len()`.
    pub fn write(options: &CompressOptions, inflated_length: u32, offsets: &[u32], out: &mut Vec<u8>) -> (r: u64)
        requires
            forall|i: int| 0 <= i < offsets@.len() ==> 12 + 4 * offsets@.len() + #[trigger] offsets@[i] <= u32::MAX,
        ensures
            final(out)@ == old(out)@ + header_bytes(
                options.compressor,
                inflated_length,
                options.chunk_size,
                offsets@.map_values(|o: u32| 12 + 4 * offsets@.len() + o),
            ),
            r == 12 + 4 * offsets@.len(),
    {
        let ghost stored = offsets@.map_values(|o: u32| 12 + 4 * offsets@.len() + o);
        let ghost start = out@;
        options.compressor.write_identifier(out);
        push_u32(out, inflated_length);
        push_u32(out, options.chunk_size);
        let ghost head = out@;
        let n = offsets.len();
        if n > 0 {
            assert(12 + 4 * offsets@.len() + offsets@[0] <= u32::MAX);
        }
        let header_size: u64 = 12 + 4 * (n as u64);
        let mut k: usize = 0;
        while k < n
            invariant
                n == offsets@.len(),
                k <= n,
                header_size == 12 + 4 * n,
                n > 0 ==> header_size <= u32::MAX,
                stored == offsets@.map_values(|o: u32| 12 + 4 * offsets@.len() + o),
                forall|i: int| 0 <= i < offsets@.len() ==> 12 + 4 * offsets@.len() + #[trigger] offsets@[i] <= u32::MAX,
                out@ == head + offset_bytes(stored.subrange(0, k as int)),
            decreases n - k,
        {
            let ghost before = stored.subrange(0, k as int);
            push_u32(out, (header_size + offsets[k] as u64) as u32);
            k = k + 1;
            assert(stored.subrange(0, k as int).drop_last() =~= before);
        }
        assert(stored.subrange(0, n as int) =~= stored);
        assert(out@ =~= start + header_bytes(options.compressor, inflated_length, options.chunk_size, stored));
        header_size
    }
}

/// The offsets stored from byte 12 of `data` on: `n` after the first.
fn read_offsets(data: &[u8], n: usize) -> (r: Vec<u64>)
    requires
        u32_field(data@, 12) >= 16,
        n == extra_offsets(u32_field(data@, 12)),
        16 + 4 * n <= data@.len(),
    ensures
        r@ == stored_offsets(data@),
{
    let ghost offs = stored_offsets(data@);
    let mut offsets: Vec<u64> = Vec::new();
    let mut k: usize = 0;
    while k <= n
        invariant
            n == extra_offsets(u32_field(data@, 12)),
            16 + 4 * n <= data@.len(),
            offs == stored_offsets(data@),
            k <= n + 1,
            offsets@ == offs.subrange(0, k as int),
        decreases n + 1 - k,
    {
        let v = read_u32(data, 12 + 4 * k).unwrap();
        offsets.push(v as u64);
        k = k + 1;
        assert(offsets@ =~= offs.subrange(0, k as int));
    }
    assert(offsets@ =~= offs);
    offsets
}

/// The chunks that `offsets` mark out in a payload of `length` bytes, where
/// they rise and end within it.
fn chunks_from(offsets: &Vec<u64>, length: u64) -> (r: Option<Vec<Chunk>>)
    requires
        offsets@.len() > 0,
    ensures
        r is Some <==> offsets_fit(offsets@, length),
        r matches Some(c) ==> c@ == chunks_of(offsets@, length),
{
    let ghost offs = offsets@;
    let n = offsets.len() - 1;
    let mut chunks: Vec<Chunk> = Vec::new();
    let mut i: usize = 0;
    while i <= n
        invariant
            offsets@ == offs,
            offs.len() == n + 1,
            n < usize::MAX,
            i <= n + 1,
            forall|j: int| 0 <= j < i && j < n ==> #[trigger] offs[j] <= offs[j + 1],
            i == n + 1 ==> offs[n as int] <= length,
            chunks@ == chunks_of(offs, length).subrange(0, i as int),
        decreases n + 1 - i,
    {
        let next = if i < n {
            offsets[i + 1]
        } else {
            length
        };
        if next < offsets[i] {
            assert(!offsets_fit(offs, length)) by {
                if i < n {
                    assert(offs[i as int] > offs[i + 1]);
                } else {
                    assert(offs.last() > length);
                }
            }
            return None;
        }
        chunks.push(Chunk { offset: offsets[i], length: next - offsets[i] });
        i = i + 1;
        assert(chunks@ =~= chunks_of(offs, length).subrange(0, i as int));
    }
    assert(offsets_fit(offs, length));
    assert(chunks@ =~= chunks_of(offs, length));
    Some(chunks)
}


} // verus!

verus! {

/// The parts joined in order.
pub open spec fn concat(parts: Seq<Seq<u8>>) -> Seq<u8>
    decreases parts.len(),
{
    if parts.len() == 0 {
        seq![]
    } else {
        concat(parts.drop_last()) + parts.last()
    }
}

pub proof fn lemma_concat_push(parts: Seq<Seq<u8>>, x: Seq<u8>)
    ensures
        concat(parts.push(x)) == concat(parts) + x,
{
    assert(parts.push(x).drop_last() =~= parts);
}

/// `data` cut into pieces of `size` bytes, the last one possibly shorter;
/// nothing where `size` is 0 or `data` is empty.
pub open spec fn split_chunks(data: Seq<u8>, size: nat) -> Seq<Seq<u8>>
    decreases data.len(),
{
    if size == 0 || data.len() == 0 {
        seq![]
    } else if data.len() <= size {
        seq![data]
    } else {
        seq![data.subrange(0, size as int)] + split_chunks(
            data.subrange(size as int, data.len() as int),
            size,
        )
    }
}

/// What the encoder of `c` makes of `s`; the codecs that cannot encode keep it.
pub open spec fn encode_with(c: Compression, s: Seq<u8>) -> Seq<u8> {
    match c {
        Compression::Zlib => zlib_encoded(s),
        Compression::Lz4 => lz4_encoded(s),
        _ => s,
    }
}

/// What the decoder of `c` makes of `s`, if it can decode it.
pub open spec fn decode_with(c: Compression, s: Seq<u8>) -> Option<Seq<u8>> {
    match c {
        Compression::Zlib => zlib_decoded(s),
        Compression::Lz4 => lz4_decoded(s),
        Compression::Zstd => zstd_decoded(s),
        Compression::Stored => None,
    }
}

/// A chunk decoded, or kept as it is where it does not decode.
pub open spec fn restore(c: Compression, s: Seq<u8>) -> Seq<u8> {
    match decode_with(c, s) {
        Some(d) => d,
        None => s,
    }
}

/// Each piece encoded.
pub open spec fn encode_all(c: Compression, pieces: Seq<Seq<u8>>) -> Seq<Seq<u8>> {
    pieces.map_values(|p: Seq<u8>| encode_with(c, p))
}

/// Where each encoded piece starts in their concatenation.
pub open spec fn piece_starts(parts: Seq<Seq<u8>>) -> Seq<int> {
    Seq::new(parts.len(), |k: int| concat(parts.subrange(0, k)).len() as int)
}

/// The offsets a header stores: piece starts moved past the header itself.
pub open spec fn stored_chunk_offsets(parts: Seq<Seq<u8>>) -> Seq<int> {
    piece_starts(parts).map_values(|o: int| 12 + 4 * parts.len() + o)
}

/// The bytes of a list of offsets, four for each.
pub open spec fn offset_bytes(offs: Seq<int>) -> Seq<u8>
    decreases offs.len(),
{
    if offs.len() == 0 {
        seq![]
    } else {
        offset_bytes(offs.drop_last()) + u32_le(offs.last() as u32)
    }
}

/// The bytes of a compression header.
pub open spec fn header_bytes(c: Compression, inflated_length: u32, chunk_size: u32, offs: Seq<int>) -> Seq<u8> {
    c.spec_tag() + u32_le(inflated_length) + u32_le(chunk_size) + offset_bytes(offs)
}

/// The encoded pieces of `data` under `options`.
pub open spec fn encoded_pieces(c: Compression, chunk_size: u32, data: Seq<u8>) -> Seq<Seq<u8>> {
    encode_all(c, split_chunks(data, chunk_size as nat))
}

/// Whether the compressed form of `data` fits the format's 32-bit fields.
pub open spec fn compress_fits(c: Compression, chunk_size: u32, data: Seq<u8>) -> bool {
    &&& data.len() <= u32::MAX
    &&& forall|k: int|
        0 <= k < encoded_pieces(c, chunk_size, data).len() ==> #[trigger] stored_chunk_offsets(
            encoded_pieces(c, chunk_size, data),
        )[k] <= u32::MAX
}

/// The compressed form of `data`: header, then the encoded pieces back to back.
pub open spec fn compressed_bytes(c: Compression, chunk_size: u32, data: Seq<u8>) -> Seq<u8> {
    header_bytes(
        c,
        data.len() as u32,
        chunk_size,
        stored_chunk_offsets(encoded_pieces(c, chunk_size, data)),
    ) + concat(encoded_pieces(c, chunk_size, data))
}

/// How a payload is compressed: codec and chunk size.
pub struct CompressOptions {
    pub chunk_size: u32,
    pub compressor: Compression,
}

impl CompressOptions {
    /// Whether the codec is one that can encode.
    pub open spec fn can_encode(self) -> bool {
        self.compressor == Compression::Zlib || self.compressor == Compression::Lz4
    }
}

impl Default for CompressOptions {
    /// Zlib in chunks of 32768 bytes.
    fn default() -> (r: Self)
        ensures
            r.chunk_size == 32768,
            r.compressor == Compression::Zlib,
    {
        CompressOptions { chunk_size: 32768, compressor: Compression::Zlib }
    }
}

/// Encodes one piece with the codec of `c`.
fn encode_piece(c: Compression, piece: &[u8]) -> (r: Vec<u8>)
    requires
        c == Compression::Zlib || c == Compression::Lz4,
    ensures
        r@ == encode_with(c, piece@),
{
    match c {
        Compression::Lz4 => lz4_encode(piece),
        _ => zlib_encode(piece),
    }
}

proof fn lemma_split_step(data: Seq<u8>, size: nat, pos: int, end: int)
    requires
        size > 0,
        0 <= pos < end <= data.len(),
        end == (if data.len() - pos <= size { data.len() as int } else { pos + size }),
    ensures
        split_chunks(data.subrange(pos, data.len() as int), size) == seq![data.subrange(pos, end)]
            + split_chunks(data.subrange(end, data.len() as int), size),
{
    let rest = data.subrange(pos, data.len() as int);
    if data.len() - pos <= size {
        assert(rest =~= data.subrange(pos, end));
        assert(data.subrange(end, data.len() as int) =~= seq![]);
        assert(split_chunks(seq![], size) =~= seq![]);
        assert(seq![rest] + seq![] =~= seq![rest]);
    } else {
        assert(rest.subrange(0, size as int) =~= data.subrange(pos, end));
        assert(rest.subrange(size as int, rest.len() as int) =~= data.subrange(end, data.len() as int));
    }
}

/// Compresses `data`: cuts it into pieces of the chunk size, encodes each,
/// and puts the compression header in front. An empty input gives a header
/// with no offsets.
pub fn compress(options: &CompressOptions, data: &[u8]) -> (r: HpkResult<Vec<u8>>)
    requires
        options.can_encode(),
    ensures
        r matches Ok(v) ==> v@ == compressed_bytes(options.compressor, options.chunk_size, data@),
        data@.len() == 0 ==> (r matches Ok(v) && v@ == options.compressor.spec_tag() + u32_le(0)
            + u32_le(options.chunk_size)),
        r is Ok <==> compress_fits(options.compressor, options.chunk_size, data@),
        r is Err ==> r == Err::<Vec<u8>, HpkError>(HpkError::TooLarge),
{
    let c = options.compressor;
    let cs = options.chunk_size as usize;
    let ghost pieces = split_chunks(data@, cs as nat);
    if data.len() > 0xFFFF_FFFF {
        return Err(HpkError::TooLarge);
    }
    let mut body: Vec<u8> = Vec::new();
    let mut starts: Vec<u64> = Vec::new();
    let ghost mut done: Seq<Seq<u8>> = seq![];
    let mut pos: usize = 0;
    if cs > 0 {
        assert(data@.subrange(0, data@.len() as int) =~= data@);
        while pos < data.len()
            invariant
                cs > 0,
                cs == options.chunk_size,
                c == options.compressor,
                c == Compression::Zlib || c == Compression::Lz4,
                pos <= data@.len() <= u32::MAX,
                pieces == split_chunks(data@, cs as nat),
                pieces == done + split_chunks(data@.subrange(pos as int, data@.len() as int), cs as nat),
                body@ == concat(encode_all(c, done)),
                starts@.len() == done.len(),
                forall|k: int| 0 <= k < done.len() ==> #[trigger] starts@[k] == piece_starts(encode_all(c, done))[k],
            decreases data@.len() - pos,
        {
            let end = if data.len() - pos <= cs {
                data.len()
            } else {
                pos + cs
            };
            proof {
                lemma_split_step(data@, cs as nat, pos as int, end as int);
            }
            let piece = copy_range(data, pos, end);
            let encoded = encode_piece(c, piece.as_slice());
            let ghost old_done = done;
            starts.push(body.len() as u64);
            push_all(&mut body, encoded.as_slice());
            proof {
                done = done.push(piece@);
                assert(encode_all(c, done) =~= encode_all(c, old_done).push(encoded@));
                lemma_concat_push(encode_all(c, old_done), encoded@);
                assert(pieces =~= done + split_chunks(data@.subrange(end as int, data@.len() as int), cs as nat));
                assert forall|k: int| 0 <= k < done.len() implies #[trigger] starts@[k] == piece_starts(encode_all(c, done))[k] by {
                    assert(encode_all(c, done).subrange(0, k) =~= encode_all(c, old_done).subrange(0, k)) by {
                        if k < old_done.len() {
                        } else {
                            assert(encode_all(c, old_done).subrange(0, k) =~= encode_all(c, old_done));
                        }
                    }
                    if k == old_done.len() {
                        assert(encode_all(c, old_done).subrange(0, k) =~= encode_all(c, old_done));
                    }
                }
            }
            pos = end;
        }
        assert(data@.subrange(pos as int, data@.len() as int) =~= seq![]);
    }
    assert(pieces =~= done);
    let ghost parts = encode_all(c, done);
    let n = starts.len();
    assert(n <= data@.len()) by {
        lemma_split_count(data@, cs as nat);
    }
    let header_size: u64 = 12 + 4 * (n as u64);
    let mut raw: Vec<u32> = Vec::new();
    let mut k: usize = 0;
    while k < n
        invariant
            n == starts@.len(),
            n == parts.len(),
            n <= data@.len(),
            c == options.compressor,
            parts == encoded_pieces(c, options.chunk_size, data@),
            header_size == 12 + 4 * n,
            k <= n,
            raw@.len() == k,
            forall|j: int| 0 <= j < n ==> #[trigger] starts@[j] == piece_starts(parts)[j],
            forall|j: int| 0 <= j < k ==> #[trigger] raw@[j] == piece_starts(parts)[j],
            forall|j: int| 0 <= j < k ==> #[trigger] stored_chunk_offsets(parts)[j] <= u32::MAX,
        decreases n - k,
    {
        let o = starts[k];
        if header_size > 0xFFFF_FFFF || o > 0xFFFF_FFFF - header_size {
            assert(stored_chunk_offsets(parts)[k as int] > u32::MAX);
            assert(!compress_fits(c, options.chunk_size, data@));
            return Err(HpkError::TooLarge);
        }
        raw.push(o as u32);
        k = k + 1;
    }
    assert forall|j: int| 0 <= j < raw@.len() implies 12 + 4 * raw@.len() + #[trigger] raw@[j] <= u32::MAX by {
        assert(stored_chunk_offsets(parts)[j] <= u32::MAX);
        assert(stored_chunk_offsets(parts)[j] == 12 + 4 * parts.len() + piece_starts(parts)[j]);
    }
    let mut out: Vec<u8> = Vec::new();
    CompressionHeader::write(options, data.len() as u32, raw.as_slice(), &mut out);
    assert(raw@.map_values(|o: u32| 12 + 4 * raw@.len() + o) =~= stored_chunk_offsets(parts));
    push_all(&mut out, body.as_slice());
    assert(out@ =~= compressed_bytes(c, options.chunk_size, data@));
    Ok(out)
}

/// There are no more pieces than bytes.
proof fn lemma_split_count(data: Seq<u8>, size: nat)
    ensures
        split_chunks(data, size).len() <= data.len(),
    decreases data.len(),
{
    if size == 0 || data.len() == 0 {
    } else if data.len() <= size {
    } else {
        lemma_split_count(data.subrange(size as int, data.len() as int), size);
    }
}

} // verus!

verus! {

/// The bytes of chunk `k` as they are read: one after another from the end
/// of the offset table on.
pub open spec fn chunk_bytes(s: Seq<u8>, chunks: Seq<Chunk>, k: int) -> Seq<u8> {
    s.subrange(
        12 + 4 * chunks.len() + chunks[k].offset - chunks[0].offset,
        12 + 4 * chunks.len() + chunks[k].offset - chunks[0].offset + chunks[k].length,
    )
}

/// What decompressing the chunked payload `s` gives: each chunk decoded by
/// the codec of the header, or kept where it does not decode.
pub open spec fn spec_decompress(s: Seq<u8>) -> HpkResult<Seq<u8>> {
    match spec_read_compression_header(s.len() as u64, s) {
        Err(e) => Err(e),
        Ok((c, _, _, chunks)) => Ok(
            concat(Seq::new(chunks.len(), |k: int| restore(c, chunk_bytes(s, chunks, k)))),
        ),
    }
}

/// What reading a stored or compressed file's bytes gives.
pub open spec fn spec_decode_payload(s: Seq<u8>) -> HpkResult<Seq<u8>> {
    if spec_detect(s) == Compression::Stored {
        Ok(s)
    } else {
        spec_decompress(s)
    }
}

proof fn lemma_offsets_bounds(offs: Seq<u64>, length: u64, k: int)
    requires
        offsets_fit(offs, length),
        0 <= k < offs.len(),
    ensures
        offs[0] <= offs[k] <= length,
    decreases offs.len() - k,
{
    if k + 1 < offs.len() {
        lemma_offsets_bounds(offs, length, k + 1);
        assert(offs[k] <= offs[k + 1]);
        lemma_offsets_lower(offs, length, k);
    } else {
        lemma_offsets_lower(offs, length, k);
    }
}

proof fn lemma_offsets_lower(offs: Seq<u64>, length: u64, k: int)
    requires
        offsets_fit(offs, length),
        0 <= k < offs.len(),
    ensures
        offs[0] <= offs[k],
    decreases k,
{
    if k > 0 {
        lemma_offsets_lower(offs, length, k - 1);
        assert(offs[k - 1] <= offs[k]);
    }
}

/// Decodes a chunk with the codec of `c`, or keeps it where it does not decode.
fn restore_chunk(c: Compression, chunk: Vec<u8>) -> (r: Vec<u8>)
    ensures
        r@ == restore(c, chunk@),
{
    let decoded = match c {
        Compression::Zlib => zlib_decode(chunk.as_slice()),
        Compression::Lz4 => lz4_decode(chunk.as_slice()),
        Compression::Zstd => zstd_decode(chunk.as_slice()),
        Compression::Stored => None,
    };
    match decoded {
        Some(d) => d,
        None => chunk,
    }
}

/// The chunks of `s` restored one by one.
pub open spec fn restored_pieces(c: Compression, s: Seq<u8>, chunks: Seq<Chunk>) -> Seq<Seq<u8>> {
    Seq::new(chunks.len(), |k: int| restore(c, chunk_bytes(s, chunks, k)))
}

proof fn lemma_chunk_in_bounds(s: Seq<u8>, chunks: Seq<Chunk>, k: int)
    requires
        s.len() >= 16,
        s.len() <= u64::MAX,
        u32_field(s, 12) >= 16,
        chunks == chunks_of(stored_offsets(s), s.len() as u64),
        offsets_fit(stored_offsets(s), s.len() as u64),
        0 <= k < chunks.len(),
    ensures
        chunks[0].offset <= chunks[k].offset,
        12 + 4 * chunks.len() <= chunks[0].offset,
        chunks[k].offset + chunks[k].length <= s.len(),
{
    let offs = stored_offsets(s);
    let first = u32_field(s, 12);
    assert(4 * ((first - 16) / 4) <= first - 16) by (nonlinear_arith)
        requires
            first >= 16,
    ;
    lemma_offsets_bounds(offs, s.len() as u64, k);
    if k + 1 < offs.len() {
        lemma_offsets_bounds(offs, s.len() as u64, k + 1);
    }
}

/// Decompresses the chunked payload `data`, header included.
#[verifier::rlimit(40)]
pub fn decompress(data: &[u8]) -> (r: HpkResult<Vec<u8>>)
    ensures
        r matches Ok(v) ==> spec_decompress(data@) == Ok::<Seq<u8>, HpkError>(v@),
        r matches Err(e) ==> spec_decompress(data@) == Err::<Seq<u8>, HpkError>(e),
{
    let hdr = CompressionHeader::read_from(data.len() as u64, data)?;
    let ghost s = data@;
    let ghost chunks = hdr.chunks@;
    let ghost pieces = restored_pieces(hdr.compressor, s, chunks);
    let n = hdr.chunks.len();
    let mut out: Vec<u8> = Vec::new();
    if n == 0 {
        assert(pieces =~= seq![]);
        return Ok(out);
    }
    proof {
        lemma_chunk_in_bounds(s, chunks, 0);
    }
    let start = 12 + 4 * n;
    let first = hdr.chunks[0].offset;
    let mut k: usize = 0;
    while k < n
        invariant
            n == chunks.len(),
            chunks == hdr.chunks@,
            s == data@,
            s.len() >= 16,
            s.len() <= usize::MAX,
            u32_field(s, 12) >= 16,
            chunks == chunks_of(stored_offsets(s), s.len() as u64),
            offsets_fit(stored_offsets(s), s.len() as u64),
            first == chunks[0].offset,
            start == 12 + 4 * n,
            k <= n,
            pieces == restored_pieces(hdr.compressor, s, chunks),
            out@ == concat(pieces.subrange(0, k as int)),
        decreases n - k,
    {
        let ch = hdr.chunks[k];
        proof {
            lemma_chunk_in_bounds(s, chunks, k as int);
        }
        assert(ch.offset + ch.length <= s.len());
        let from = start + (ch.offset - first) as usize;
        let to = from + ch.length as usize;
        assert(to == 12 + 4 * chunks.len() + ch.offset - chunks[0].offset + ch.length);
        let piece = copy_range(data, from, to);
        assert(piece@ == chunk_bytes(s, chunks, k as int));
        let restored = restore_chunk(hdr.compressor, piece);
        push_all(&mut out, restored.as_slice());
        proof {
            lemma_concat_push(pieces.subrange(0, k as int), restored@);
            assert(pieces.subrange(0, k + 1) =~= pieces.subrange(0, k as int).push(restored@));
        }
        k = k + 1;
    }
    assert(pieces.subrange(0, n as int) =~= pieces);
    Ok(out)
}

/// The bytes of a file as stored: decompressed where a codec tag starts them,
/// as they are otherwise.
pub fn decode_payload(data: &[u8]) -> (r: HpkResult<Vec<u8>>)
    ensures
        r matches Ok(v) ==> spec_decode_payload(data@) == Ok::<Seq<u8>, HpkError>(v@),
        r matches Err(e) ==> spec_decode_payload(data@) == Err::<Seq<u8>, HpkError>(e),
{
    if get_compression(data).is_compressed() {
        decompress(data)
    } else {
        let r = copy_range(data, 0, data.len());
        assert(data@.subrange(0, data@.len() as int) =~= data@);
        Ok(r)
    }
}

} // verus!

verus! {

/// A compressed payload starts with its codec's tag, so its codec is
/// recognised from its first four bytes.
pub proof fn lemma_compressed_tag(c: Compression, chunk_size: u32, data: Seq<u8>)
    requires
        c == Compression::Zlib || c == Compression::Lz4,
    ensures
        spec_detect(compressed_bytes(c, chunk_size, data)) == c,
{
    let s = compressed_bytes(c, chunk_size, data);
    assert(s.subrange(0, 4) =~= c.spec_tag());
    if c == Compression::Lz4 {
        assert(lz4_tag() != zlib_tag()) by {
            assert(lz4_tag()[0] != zlib_tag()[0]);
        }
    }
}

} // verus!

verus! {

/// The join of `a` then `b` is the join of `a + b`.
pub proof fn lemma_concat_append(a: Seq<Seq<u8>>, b: Seq<Seq<u8>>)
    ensures
        concat(a + b) == concat(a) + concat(b),
    decreases b.len(),
{
    if b.len() == 0 {
        assert(a + b =~= a);
        assert(concat(b) =~= seq![]);
        assert(concat(a) + concat(b) =~= concat(a));
    } else {
        lemma_concat_append(a, b.drop_last());
        assert((a + b).drop_last() =~= a + b.drop_last());
        assert((a + b).last() == b.last());
        assert(concat(a) + concat(b.drop_last()) + b.last() =~= concat(a) + (concat(b.drop_last())
            + b.last()));
    }
}

/// Part `k` stands in the join right after the parts before it.
pub proof fn lemma_concat_part(parts: Seq<Seq<u8>>, k: int)
    requires
        0 <= k < parts.len(),
    ensures
        concat(parts.subrange(0, k)).len() + parts[k].len() == concat(parts.subrange(0, k + 1)).len(),
        concat(parts.subrange(0, k + 1)).len() <= concat(parts).len(),
        concat(parts).subrange(
            concat(parts.subrange(0, k)).len() as int,
            concat(parts.subrange(0, k)).len() + parts[k].len() as int,
        ) == parts[k],
{
    let front = parts.subrange(0, k);
    let back = parts.subrange(k + 1, parts.len() as int);
    assert(parts =~= front.push(parts[k]) + back);
    assert(parts.subrange(0, k + 1) =~= front.push(parts[k]));
    lemma_concat_append(front.push(parts[k]), back);
    lemma_concat_push(front, parts[k]);
    let s = concat(front) + parts[k] + concat(back);
    assert(s.subrange(concat(front).len() as int, concat(front).len() + parts[k].len() as int) =~= parts[k]);
}

/// Where each part starts never decreases.
proof fn lemma_starts_rise(parts: Seq<Seq<u8>>, i: int, j: int)
    requires
        0 <= i <= j <= parts.len(),
    ensures
        concat(parts.subrange(0, i)).len() <= concat(parts.subrange(0, j)).len(),
    decreases j - i,
{
    if i < j {
        lemma_starts_rise(parts, i, j - 1);
        lemma_concat_part(parts, j - 1);
    }
}

/// Offset `k` is stored as four bytes at `4 * k`.
proof fn lemma_offset_bytes(offs: Seq<int>, k: int)
    requires
        0 <= k < offs.len(),
    ensures
        offset_bytes(offs).len() == 4 * offs.len(),
        offset_bytes(offs).subrange(4 * k, 4 * k + 4) == u32_le(offs[k] as u32),
    decreases offs.len(),
{
    lemma_offset_bytes_len(offs);
    if k < offs.len() - 1 {
        lemma_offset_bytes(offs.drop_last(), k);
        assert(offs.drop_last()[k] == offs[k]);
        let a = offset_bytes(offs.drop_last());
        assert((a + u32_le(offs.last() as u32)).subrange(4 * k, 4 * k + 4) =~= a.subrange(4 * k, 4 * k + 4));
    } else {
        lemma_offset_bytes_len(offs.drop_last());
        let a = offset_bytes(offs.drop_last());
        assert((a + u32_le(offs.last() as u32)).subrange(4 * k, 4 * k + 4) =~= u32_le(offs.last() as u32));
    }
}

proof fn lemma_offset_bytes_len(offs: Seq<int>)
    ensures
        offset_bytes(offs).len() == 4 * offs.len(),
    decreases offs.len(),
{
    if offs.len() > 0 {
        lemma_offset_bytes_len(offs.drop_last());
    }
}

/// Each offset of a header reads back from its place.
proof fn lemma_stored_read_back(s: Seq<u8>, head: Seq<u8>, stored: Seq<int>, body: Seq<u8>)
    requires
        head.len() == 12,
        s == head + offset_bytes(stored) + body,
        forall|k: int| 0 <= k < stored.len() ==> 0 <= #[trigger] stored[k] <= u32::MAX,
    ensures
        forall|k: int| 0 <= k < stored.len() ==> u32_field(s, 12 + 4 * k) == #[trigger] stored[k],
{
    lemma_offset_bytes_len(stored);
    assert forall|k: int| 0 <= k < stored.len() implies u32_field(s, 12 + 4 * k) == #[trigger] stored[k] by {
        lemma_offset_bytes(stored, k);
        assert(s.subrange(12 + 4 * k, 16 + 4 * k) =~= offset_bytes(stored).subrange(4 * k, 4 * k + 4));
        lemma_u32_round_trip(stored[k] as u32);
    }
}

/// The stored offsets, read back from a framed payload, rise and end inside it.
proof fn lemma_framed_offsets(s: Seq<u8>, parts: Seq<Seq<u8>>)
    requires
        parts.len() > 0,
        s.len() == 12 + 4 * parts.len() + concat(parts).len(),
        s.len() <= u64::MAX,
        forall|k: int| 0 <= k < parts.len() ==> u32_field(s, 12 + 4 * k) == #[trigger] stored_chunk_offsets(parts)[k],
    ensures
        u32_field(s, 12) == 12 + 4 * parts.len(),
        extra_offsets(u32_field(s, 12)) == parts.len() - 1,
        forall|k: int| 0 <= k < parts.len() ==> #[trigger] stored_offsets(s)[k] == stored_chunk_offsets(parts)[k],
        stored_offsets(s).len() == parts.len(),
        offsets_fit(stored_offsets(s), s.len() as u64),
{
    let n = parts.len() as int;
    let stored = stored_chunk_offsets(parts);
    assert(parts.subrange(0, 0) =~= seq![]);
    assert(stored[0] == 12 + 4 * n);
    let offs = stored_offsets(s);
    assert forall|k: int| 0 <= k < n implies #[trigger] offs[k] == stored[k] by {}
    assert forall|k: int| 0 <= k < offs.len() - 1 implies #[trigger] offs[k] <= offs[k + 1] by {
        lemma_starts_rise(parts, k, k + 1);
        assert(offs[k] == stored[k] && offs[k + 1] == stored[k + 1]);
    }
    assert(offs.last() <= s.len()) by {
        lemma_concat_part(parts, n - 1);
        assert(offs[n - 1] == stored[n - 1]);
        assert(parts.subrange(0, n) =~= parts);
    }
}

/// Chunk `k` of a framed payload holds part `k`.
proof fn lemma_framed_chunk(s: Seq<u8>, parts: Seq<Seq<u8>>, k: int)
    requires
        parts.len() > 0,
        0 <= k < parts.len(),
        s.len() == 12 + 4 * parts.len() + concat(parts).len(),
        s.len() <= u64::MAX,
        s.subrange(12 + 4 * parts.len() as int, s.len() as int) == concat(parts),
        stored_offsets(s).len() == parts.len(),
        forall|j: int| 0 <= j < parts.len() ==> #[trigger] stored_offsets(s)[j] == stored_chunk_offsets(parts)[j],
    ensures
        chunk_bytes(s, chunks_of(stored_offsets(s), s.len() as u64), k) == parts[k],
{
    let n = parts.len() as int;
    let offs = stored_offsets(s);
    let chunks = chunks_of(offs, s.len() as u64);
    let before = concat(parts.subrange(0, k)).len() as int;
    lemma_concat_part(parts, k);
    assert(parts.subrange(0, 0) =~= seq![]);
    assert(offs[0] == 12 + 4 * n);
    assert(offs[k] == 12 + 4 * n + before);
    if k + 1 < n {
        assert(offs[k + 1] == 12 + 4 * n + concat(parts.subrange(0, k + 1)).len());
    } else {
        assert(parts.subrange(0, n) =~= parts);
    }
    assert(chunks[k].length == parts[k].len());
    assert(s.subrange(12 + 4 * n + before, 12 + 4 * n + before + parts[k].len()) =~= concat(parts).subrange(
        before,
        before + parts[k].len(),
    ));
}

/// The header of a framed payload reads back: its codec, lengths and the
/// chunks that hold the parts, the first offset less 16 being four bytes for
/// each further chunk.
pub proof fn lemma_framing(c: Compression, inflated: u32, chunk_size: u32, parts: Seq<Seq<u8>>)
    requires
        c == Compression::Zlib || c == Compression::Lz4,
        parts.len() > 0,
        forall|k: int| 0 <= k < parts.len() ==> #[trigger] stored_chunk_offsets(parts)[k] <= u32::MAX,
        12 + 4 * parts.len() + concat(parts).len() <= u64::MAX,
    ensures
        ({
            let s = header_bytes(c, inflated, chunk_size, stored_chunk_offsets(parts)) + concat(parts);
            &&& spec_read_compression_header(s.len() as u64, s) matches Ok((comp, inf, size, chunks))
            &&& comp == c
            &&& inf == inflated
            &&& size == chunk_size
            &&& chunks.len() == parts.len()
            &&& chunks[0].offset - 16 == 4 * (chunks.len() - 1)
            &&& forall|k: int| 0 <= k < parts.len() ==> #[trigger] chunk_bytes(s, chunks, k) == parts[k]
        }),
{
    let stored = stored_chunk_offsets(parts);
    let head = c.spec_tag() + u32_le(inflated) + u32_le(chunk_size);
    let s = header_bytes(c, inflated, chunk_size, stored) + concat(parts);
    let n = parts.len() as int;
    lemma_offset_bytes_len(stored);
    assert(s =~= head + offset_bytes(stored) + concat(parts));
    assert forall|k: int| 0 <= k < n implies 0 <= #[trigger] stored[k] <= u32::MAX by {
        assert(piece_starts(parts)[k] == concat(parts.subrange(0, k)).len());
    }
    lemma_stored_read_back(s, head, stored, concat(parts));
    lemma_u32_round_trip(inflated);
    lemma_u32_round_trip(chunk_size);
    assert(s.subrange(4, 8) =~= u32_le(inflated));
    assert(s.subrange(8, 12) =~= u32_le(chunk_size));
    assert(s.subrange(0, 4) =~= c.spec_tag());
    if c == Compression::Lz4 {
        assert(lz4_tag()[0] != zlib_tag()[0]);
    }
    assert(spec_detect(s) == c);
    lemma_framed_offsets(s, parts);
    assert(s.subrange(12 + 4 * n, s.len() as int) =~= concat(parts));
    let chunks = chunks_of(stored_offsets(s), s.len() as u64);
    assert forall|k: int| 0 <= k < n implies #[trigger] chunk_bytes(s, chunks, k) == parts[k] by {
        lemma_framed_chunk(s, parts, k);
    }
}

/// Decompressing a framed payload decodes each part in order.
proof fn lemma_framed_round_trip(c: Compression, inflated: u32, chunk_size: u32, parts: Seq<Seq<u8>>)
    requires
        c == Compression::Zlib || c == Compression::Lz4,
        forall|k: int| 0 <= k < parts.len() ==> #[trigger] stored_chunk_offsets(parts)[k] <= u32::MAX,
        12 + 4 * parts.len() + concat(parts).len() <= u64::MAX,
    ensures
        spec_decompress(header_bytes(c, inflated, chunk_size, stored_chunk_offsets(parts)) + concat(parts))
            == Ok::<Seq<u8>, HpkError>(concat(parts.map_values(|p: Seq<u8>| restore(c, p)))),
{
    let s = header_bytes(c, inflated, chunk_size, stored_chunk_offsets(parts)) + concat(parts);
    lemma_offset_bytes_len(stored_chunk_offsets(parts));
    if parts.len() == 0 {
        assert(concat(parts) =~= seq![]);
        assert(parts.map_values(|p: Seq<u8>| restore(c, p)) =~= seq![]);
        assert(s.len() == 12);
        match spec_read_compression_header(s.len() as u64, s) {
            Ok((comp, _, _, chunks)) => {
                assert(Seq::new(chunks.len(), |k: int| restore(comp, chunk_bytes(s, chunks, k))) =~= seq![]);
            },
            Err(_) => {},
        }
    } else {
        lemma_framing(c, inflated, chunk_size, parts);
        match spec_read_compression_header(s.len() as u64, s) {
            Ok((comp, _, _, chunks)) => {
                assert(Seq::new(chunks.len(), |k: int| restore(comp, chunk_bytes(s, chunks, k)))
                    =~= parts.map_values(|p: Seq<u8>| restore(c, p)));
            },
            Err(_) => {},
        }
    }
}

/// Decompressing what `compress` makes gives each piece back as its codec
/// decodes its encoding: the framing loses and reorders nothing.
#[verifier::spinoff_prover]
#[verifier::rlimit(100)]
pub proof fn lemma_compress_round_trip(c: Compression, chunk_size: u32, data: Seq<u8>)
    requires
        c == Compression::Zlib || c == Compression::Lz4,
        compress_fits(c, chunk_size, data),
        compressed_bytes(c, chunk_size, data).len() <= u64::MAX,
    ensures
        spec_decompress(compressed_bytes(c, chunk_size, data)) == Ok::<Seq<u8>, HpkError>(
            concat(encoded_pieces(c, chunk_size, data).map_values(|p: Seq<u8>| restore(c, p))),
        ),
{
    let parts = encoded_pieces(c, chunk_size, data);
    let s = compressed_bytes(c, chunk_size, data);
    assert(s == header_bytes(c, data.len() as u32, chunk_size, stored_chunk_offsets(parts)) + concat(parts));
    lemma_offset_bytes_len(stored_chunk_offsets(parts));
    lemma_framed_round_trip(c, data.len() as u32, chunk_size, parts);
}

/// The header of what `compress` makes marks out its encoded pieces as
/// chunks, the first offset less 16 being four bytes for each further chunk.
#[verifier::spinoff_prover]
#[verifier::rlimit(100)]
pub proof fn lemma_compressed_header(c: Compression, chunk_size: u32, data: Seq<u8>)
    requires
        c == Compression::Zlib || c == Compression::Lz4,
        compress_fits(c, chunk_size, data),
        encoded_pieces(c, chunk_size, data).len() > 0,
        compressed_bytes(c, chunk_size, data).len() <= u64::MAX,
    ensures
        spec_read_compression_header(
            compressed_bytes(c, chunk_size, data).len() as u64,
            compressed_bytes(c, chunk_size, data),
        ) matches Ok((comp, inflated, size, chunks)) && comp == c && inflated == data.len() as u32
            && size == chunk_size && chunks.len() == encoded_pieces(c, chunk_size, data).len()
            && chunks[0].offset - 16 == 4 * (chunks.len() - 1),
{
    let parts = encoded_pieces(c, chunk_size, data);
    let s = compressed_bytes(c, chunk_size, data);
    assert(s == header_bytes(c, data.len() as u32, chunk_size, stored_chunk_offsets(parts)) + concat(parts));
    lemma_offset_bytes_len(stored_chunk_offsets(parts));
    lemma_framing(c, data.len() as u32, chunk_size, parts);
    let r = spec_read_compression_header(s.len() as u64, s);
    assert(r is Ok);
    let (comp, inflated, size, chunks) = r->Ok_0;
    assert(comp == c && inflated == data.len() as u32 && size == chunk_size);
    assert(chunks.len() == parts.len());
    assert(chunks[0].offset - 16 == 4 * (chunks.len() - 1));
}

} // verus!
