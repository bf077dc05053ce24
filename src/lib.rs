//! Reading and writing HPK archives, the container of several Haemimont
//! Games titles: the header, fragment table and directory entries, the
//! chunked compression of files and of whole archives, the reader that
//! joins a file's fragments into one stream, and the rewrite of Lua
//! bytecode headers some titles expect.
use vstd::prelude::*;

pub mod bytes;
pub mod codec;
pub mod compression;
pub mod create;
pub mod error;
pub mod filedates;
pub mod format;
pub mod lua;
pub mod reader;
pub mod walk;

verus! {

pub use crate::codec::{Decoder, Encoder, Lz4Block, Zlib, Zstd};
pub use crate::compression::{
    compress, decode_payload, decompress, get_compression, Chunk, CompressOptions, Compression,
    CompressionHeader,
};
pub use crate::create::{create, CreateOptions, FileDateFormat, SourceEntry};
pub use crate::error::{HpkError, HpkResult};
pub use crate::filedates::{filedate_value, parse_filedates, strip_first_component, FileDate};
pub use crate::format::{DirEntry, EntryType, Fragment, Header};
pub use crate::lua::{
    check_invalid_header, check_valid_header, cripple_header, fix_header, invalid_header,
    valid_header, Bits, LuaHeaderRewriter, Rewrite,
};
pub use crate::reader::{FragmentedReader, SeekFrom};
pub use crate::walk::{copy, extract_action, walk, ExtractAction, HpkIter};

} // verus!
