//! Chunk codecs: the calls into zlib, LZ4-block and zstd implementations.
use vstd::prelude::*;

verus! {

/// The zlib stream that flate2 produces for `s` at the best level.
pub uninterp spec fn zlib_encoded(s: Seq<u8>) -> Seq<u8>;

/// The LZ4 block that lz4_compress produces for `s`. Its hash table reads
/// words in the target's byte order, so the block is fixed for one build
/// target; every build decodes it back the same way.
pub uninterp spec fn lz4_encoded(s: Seq<u8>) -> Seq<u8>;

/// What flate2 inflates the zlib stream `s` to, if it is one.
pub uninterp spec fn zlib_decoded(s: Seq<u8>) -> Option<Seq<u8>>;

/// What lz4_compress decodes the LZ4 block `s` to, if it is one.
pub uninterp spec fn lz4_decoded(s: Seq<u8>) -> Option<Seq<u8>>;

/// What zstd decodes the zstd frames `s` to, if they are such.
pub uninterp spec fn zstd_decoded(s: Seq<u8>) -> Option<Seq<u8>>;

/// Relies on `flate2::write::ZlibEncoder` at `Compression::best()`, writing
/// into a `Vec`, which never fails: the encoding of `chunk`.
#[verifier::external_body]
pub(crate) fn zlib_encode(chunk: &[u8]) -> (r: Vec<u8>)
    ensures
        r@ == zlib_encoded(chunk@),
{
    let mut enc = flate2::write::ZlibEncoder::new(Vec::new(), flate2::Compression::best());
    match std::io::Write::write_all(&mut enc, chunk) {
        Ok(()) => enc.finish().unwrap_or_default(),
        Err(_) => Vec::new(),
    }
}

/// Relies on `lz4_compress::compress`, which encodes a whole slice as one block.
#[verifier::external_body]
pub(crate) fn lz4_encode(chunk: &[u8]) -> (r: Vec<u8>)
    ensures
        r@ == lz4_encoded(chunk@),
{
    lz4_compress::compress(chunk)
}

/// Relies on `flate2::read::ZlibDecoder`, read to the end.
#[verifier::external_body]
pub(crate) fn zlib_decode(chunk: &[u8]) -> (r: Option<Vec<u8>>)
    ensures
        r matches Some(v) ==> zlib_decoded(chunk@) == Some(v@),
        r is None ==> zlib_decoded(chunk@) is None,
{
    let mut out = Vec::new();
    let mut dec = flate2::read::ZlibDecoder::new(chunk);
    match std::io::Read::read_to_end(&mut dec, &mut out) {
        Ok(_) => Some(out),
        Err(_) => None,
    }
}

/// Relies on `lz4_compress::decompress`, which decodes one whole block.
#[verifier::external_body]
pub(crate) fn lz4_decode(chunk: &[u8]) -> (r: Option<Vec<u8>>)
    ensures
        r matches Some(v) ==> lz4_decoded(chunk@) == Some(v@),
        r is None ==> lz4_decoded(chunk@) is None,
{
    lz4_compress::decompress(chunk).ok()
}

/// Relies on `zstd::stream::decode_all`, which decodes every frame of a slice.
#[verifier::external_body]
pub(crate) fn zstd_decode(chunk: &[u8]) -> (r: Option<Vec<u8>>)
    ensures
        r matches Some(v) ==> zstd_decoded(chunk@) == Some(v@),
        r is None ==> zstd_decoded(chunk@) is None,
{
    zstd::stream::decode_all(chunk).ok()
}

} // verus!

verus! {

/// A codec that encodes a whole chunk at once.
pub trait Encoder {
    /// What the codec makes of `chunk`.
    spec fn encoded(chunk: Seq<u8>) -> Seq<u8>;

    /// Appends the encoding of `chunk` to `w`; gives its length.
    fn encode_chunk(chunk: &[u8], w: &mut Vec<u8>) -> (r: u64)
        ensures
            final(w)@ == old(w)@ + Self::encoded(chunk@),
            r == Self::encoded(chunk@).len(),
    ;
}

/// A codec that decodes a whole chunk at once.
pub trait Decoder {
    /// What the codec decodes `chunk` to, if it can.
    spec fn decoded(chunk: Seq<u8>) -> Option<Seq<u8>>;

    /// Appends the decoding of `chunk` to `w`; gives its length. Fails, and
    /// leaves `w` alone, where `chunk` does not decode.
    fn decode_chunk(chunk: &[u8], w: &mut Vec<u8>) -> (r: Option<u64>)
        ensures
            Self::decoded(chunk@) matches Some(d) ==> r == Some(d.len() as u64) && final(w)@ == old(w)@ + d,
            Self::decoded(chunk@) is None ==> r is None && final(w)@ == old(w)@,
    ;
}

/// zlib streams, encoded at the best level.
pub struct Zlib;

/// Raw LZ4 blocks, without frame.
pub struct Lz4Block;

/// zstd frames; decoding only.
pub struct Zstd;

/// Appends `v` to `w` and gives its length.
fn append(w: &mut Vec<u8>, v: Vec<u8>) -> (r: u64)
    ensures
        final(w)@ == old(w)@ + v@,
        r == v@.len(),
{
    let n = v.len() as u64;
    crate::bytes::push_all(w, v.as_slice());
    n
}

impl Encoder for Zlib {
    open spec fn encoded(chunk: Seq<u8>) -> Seq<u8> {
        zlib_encoded(chunk)
    }

    fn encode_chunk(chunk: &[u8], w: &mut Vec<u8>) -> (r: u64) {
        append(w, zlib_encode(chunk))
    }
}

impl Decoder for Zlib {
    open spec fn decoded(chunk: Seq<u8>) -> Option<Seq<u8>> {
        zlib_decoded(chunk)
    }

    fn decode_chunk(chunk: &[u8], w: &mut Vec<u8>) -> (r: Option<u64>) {
        match zlib_decode(chunk) {
            Some(v) => Some(append(w, v)),
            None => None,
        }
    }
}

impl Encoder for Lz4Block {
    open spec fn encoded(chunk: Seq<u8>) -> Seq<u8> {
        lz4_encoded(chunk)
    }

    fn encode_chunk(chunk: &[u8], w: &mut Vec<u8>) -> (r: u64) {
        append(w, lz4_encode(chunk))
    }
}

impl Decoder for Lz4Block {
    open spec fn decoded(chunk: Seq<u8>) -> Option<Seq<u8>> {
        lz4_decoded(chunk)
    }

    fn decode_chunk(chunk: &[u8], w: &mut Vec<u8>) -> (r: Option<u64>) {
        match lz4_decode(chunk) {
            Some(v) => Some(append(w, v)),
            None => None,
        }
    }
}

impl Decoder for Zstd {
    open spec fn decoded(chunk: Seq<u8>) -> Option<Seq<u8>> {
        zstd_decoded(chunk)
    }

    fn decode_chunk(chunk: &[u8], w: &mut Vec<u8>) -> (r: Option<u64>) {
        match zstd_decode(chunk) {
            Some(v) => Some(append(w, v)),
            None => None,
        }
    }
}

} // verus!
