//! Building an archive from a directory tree listed in post-order.
use vstd::prelude::*;
use crate::bytes::{push_all, copy_range, u32_le, lemma_u32_round_trip};
use crate::compression::{compress, compressed_bytes, compress_fits, concat, lemma_concat_part, lemma_concat_push, spec_detect, CompressOptions, Compression};
use crate::error::{HpkError, HpkResult};
use crate::format::{dir_entry_bytes, is_utf8, spec_read_header, storable_name, write_dir_entry, Fragment, Header, hpk_sig};
use crate::lua::{cripple_header, spec_cripple};
use crate::reader::zeros;

verus! {

/// How `_filedates` stores a modification time.
#[derive(Clone, Copy, Debug, PartialEq, Eq, Structural)]
pub enum FileDateFormat {
    /// Windows file time: 100 ns ticks since 1601-01-01.
    Default,
    /// Windows file time divided by 2000.
    Short,
}

/// The options of `create`.
pub struct CreateOptions {
    pub compress: bool,
    pub compress_options: CompressOptions,
    pub cripple_lua_files: bool,
    pub extensions: Vec<String>,
    pub filedates_fmt: Option<FileDateFormat>,
}

/// The lower-case ASCII form of a byte.
pub open spec fn ascii_lower(b: u8) -> u8 {
    if 0x41 <= b <= 0x5A {
        (b + 32) as u8
    } else {
        b
    }
}

/// The last `.` of `name`, searching below `end`.
pub open spec fn last_dot(name: Seq<u8>, end: int) -> int
    decreases end,
{
    if end <= 0 {
        -1
    } else if name[end - 1] == 0x2E {
        end - 1
    } else {
        last_dot(name, end - 1)
    }
}

/// A file name's extension in lower case: what follows its last `.`, where
/// that dot is not the name's first byte.
pub open spec fn spec_extension(name: Seq<u8>) -> Seq<u8> {
    if last_dot(name, name.len() as int) > 0 {
        name.subrange(last_dot(name, name.len() as int) + 1, name.len() as int).map_values(
            |b: u8| ascii_lower(b),
        )
    } else {
        seq![]
    }
}

/// `lua`
pub open spec fn lua_ext() -> Seq<u8> {
    seq![0x6Cu8, 0x75u8, 0x61u8]
}

impl CreateOptions {
    pub open spec fn wf(self) -> bool {
        self.compress_options.can_encode()
    }

    /// Whether files with extension `ext` are compressed.
    pub open spec fn compresses(self, ext: Seq<u8>) -> bool {
        exists|i: int|
            0 <= i < self.extensions@.len() && vstd::utf8::encode_utf8(
                (#[trigger] self.extensions@[i])@,
            ) == ext
    }

    /// A file's contents, crippled where it is Lua and crippling is asked for.
    pub open spec fn spec_body(self, name: Seq<u8>, data: Seq<u8>) -> Seq<u8> {
        if self.cripple_lua_files && spec_extension(name) == lua_ext() {
            spec_cripple(data)
        } else {
            data
        }
    }

    /// What a file named `name` with contents `data` becomes in the archive:
    /// its body, compressed where its extension is listed. Whether the whole
    /// archive is compressed plays no part: per-file compression follows the
    /// extensions alone, and an empty list turns it off.
    pub open spec fn spec_payload(self, name: Seq<u8>, data: Seq<u8>) -> Seq<u8> {
        if self.compresses(spec_extension(name)) {
            compressed_bytes(
                self.compress_options.compressor,
                self.compress_options.chunk_size,
                self.spec_body(name, data),
            )
        } else {
            self.spec_body(name, data)
        }
    }

    /// Whether the payload of a file fits the 32-bit fields of a compression header.
    pub open spec fn payload_fits(self, name: Seq<u8>, data: Seq<u8>) -> bool {
        self.compresses(spec_extension(name)) ==> compress_fits(
            self.compress_options.compressor,
            self.compress_options.chunk_size,
            self.spec_body(name, data),
        )
    }

    pub fn new() -> (r: CreateOptions)
        ensures
            r.wf(),
            !r.compress,
            !r.cripple_lua_files,
            r.filedates_fmt is None,
            r.compress_options.chunk_size == 32768,
            r.compress_options.compressor == Compression::Zlib,
            r.extensions@.len() == 8,
            r.extensions@[0]@ == "lst"@,
            r.extensions@[1]@ == "lua"@,
            r.extensions@[2]@ == "xml"@,
            r.extensions@[3]@ == "tga"@,
            r.extensions@[4]@ == "dds"@,
            r.extensions@[5]@ == "xtex"@,
            r.extensions@[6]@ == "bin"@,
            r.extensions@[7]@ == "csv"@,
    {
        CreateOptions::default()
    }

    /// Compress the whole archive once it is built.
    pub fn compress(&mut self)
        ensures
            final(self).compress,
            final(self).compress_options == old(self).compress_options,
            final(self).cripple_lua_files == old(self).cripple_lua_files,
            final(self).extensions@ == old(self).extensions@,
            final(self).filedates_fmt == old(self).filedates_fmt,
    {
        self.compress = true;
    }

    pub fn use_lz4(&mut self)
        ensures
            final(self).compress_options.compressor == Compression::Lz4,
            final(self).compress_options.chunk_size == old(self).compress_options.chunk_size,
            final(self).compress == old(self).compress,
            final(self).cripple_lua_files == old(self).cripple_lua_files,
            final(self).extensions@ == old(self).extensions@,
            final(self).filedates_fmt == old(self).filedates_fmt,
    {
        self.compress_options.compressor = Compression::Lz4;
    }

    pub fn cripple_lua_files(&mut self)
        ensures
            final(self).cripple_lua_files,
            final(self).compress == old(self).compress,
            final(self).compress_options == old(self).compress_options,
            final(self).extensions@ == old(self).extensions@,
            final(self).filedates_fmt == old(self).filedates_fmt,
    {
        self.cripple_lua_files = true;
    }

    pub fn with_chunk_size(&mut self, chunk_size: u32)
        ensures
            final(self).compress_options.chunk_size == chunk_size,
            final(self).compress_options.compressor == old(self).compress_options.compressor,
            final(self).compress == old(self).compress,
            final(self).cripple_lua_files == old(self).cripple_lua_files,
            final(self).extensions@ == old(self).extensions@,
            final(self).filedates_fmt == old(self).filedates_fmt,
    {
        self.compress_options.chunk_size = chunk_size;
    }

    /// The extensions of files to compress; none compresses no file.
    pub fn with_extensions(&mut self, ext: Vec<String>)
        ensures
            final(self).extensions@ == ext@,
            final(self).compress == old(self).compress,
            final(self).compress_options == old(self).compress_options,
            final(self).cripple_lua_files == old(self).cripple_lua_files,
            final(self).filedates_fmt == old(self).filedates_fmt,
    {
        self.extensions = ext;
    }

    pub fn with_default_filedates_format(&mut self)
        ensures
            final(self).filedates_fmt == Some(FileDateFormat::Default),
            final(self).compress == old(self).compress,
            final(self).compress_options == old(self).compress_options,
            final(self).cripple_lua_files == old(self).cripple_lua_files,
            final(self).extensions@ == old(self).extensions@,
    {
        self.filedates_fmt = Some(FileDateFormat::Default);
    }

    pub fn with_short_filedates_format(&mut self)
        ensures
            final(self).filedates_fmt == Some(FileDateFormat::Short),
            final(self).compress == old(self).compress,
            final(self).compress_options == old(self).compress_options,
            final(self).cripple_lua_files == old(self).cripple_lua_files,
            final(self).extensions@ == old(self).extensions@,
    {
        self.filedates_fmt = Some(FileDateFormat::Short);
    }

    pub fn with_filedates(&self) -> (r: bool)
        ensures
            r == self.filedates_fmt is Some,
    {
        self.filedates_fmt.is_some()
    }

    /// Whether files with extension `ext` are compressed.
    pub fn compresses_extension(&self, ext: &[u8]) -> (r: bool)
        ensures
            r == self.compresses(ext@),
    {
        let mut i: usize = 0;
        while i < self.extensions.len()
            invariant
                i <= self.extensions@.len(),
                forall|j: int| 0 <= j < i ==> vstd::utf8::encode_utf8((#[trigger] self.extensions@[j])@) != ext@,
            decreases self.extensions@.len() - i,
        {
            let e = self.extensions[i].as_str().as_bytes();
            if bytes_equal(e, ext) {
                return true;
            }
            i = i + 1;
        }
        false
    }

    /// What the file `name` with contents `data` becomes in the archive.
    pub fn file_payload(&self, name: &[u8], data: &[u8]) -> (r: HpkResult<Vec<u8>>)
        requires
            self.wf(),
        ensures
            r is Ok <==> self.payload_fits(name@, data@),
            r matches Ok(v) ==> v@ == self.spec_payload(name@, data@),
            r is Err ==> r == Err::<Vec<u8>, HpkError>(HpkError::TooLarge),
    {
        let ext = extension(name);
        let is_lua = bytes_equal(ext.as_slice(), lua_bytes().as_slice());
        let body = if self.cripple_lua_files && is_lua {
            cripple_header(data)
        } else {
            let b = copy_range(data, 0, data.len());
            assert(data@.subrange(0, data@.len() as int) =~= data@);
            b
        };
        if self.compresses_extension(ext.as_slice()) {
            compress(&self.compress_options, body.as_slice())
        } else {
            Ok(body)
        }
    }
}

impl Default for CreateOptions {
    /// No compression of the archive, zlib in chunks of 32768 bytes for files
    /// with one of the extensions lst, lua, xml, tga, dds, xtex, bin and csv,
    /// no crippling and no `_filedates`.
    fn default() -> (r: Self)
        ensures
            r.wf(),
            !r.compress,
            !r.cripple_lua_files,
            r.filedates_fmt is None,
            r.compress_options.chunk_size == 32768,
            r.compress_options.compressor == Compression::Zlib,
            r.extensions@.len() == 8,
            r.extensions@[0]@ == "lst"@,
            r.extensions@[1]@ == "lua"@,
            r.extensions@[2]@ == "xml"@,
            r.extensions@[3]@ == "tga"@,
            r.extensions@[4]@ == "dds"@,
            r.extensions@[5]@ == "xtex"@,
            r.extensions@[6]@ == "bin"@,
            r.extensions@[7]@ == "csv"@,
    {
        let mut extensions: Vec<String> = Vec::new();
        extensions.push("lst".to_owned());
        extensions.push("lua".to_owned());
        extensions.push("xml".to_owned());
        extensions.push("tga".to_owned());
        extensions.push("dds".to_owned());
        extensions.push("xtex".to_owned());
        extensions.push("bin".to_owned());
        extensions.push("csv".to_owned());
        CreateOptions {
            compress: false,
            compress_options: CompressOptions { chunk_size: 32768, compressor: Compression::Zlib },
            cripple_lua_files: false,
            extensions,
            filedates_fmt: None,
        }
    }
}

pub(crate) fn lua_bytes() -> (r: Vec<u8>)
    ensures
        r@ == lua_ext(),
{
    let mut r: Vec<u8> = Vec::new();
    r.push(0x6C);
    r.push(0x75);
    r.push(0x61);
    assert(r@ =~= lua_ext());
    r
}

/// Whether `a` and `b` hold the same bytes.
pub fn bytes_equal(a: &[u8], b: &[u8]) -> (r: bool)
    ensures
        r == (a@ == b@),
{
    if a.len() != b.len() {
        return false;
    }
    let mut i: usize = 0;
    while i < a.len()
        invariant
            a@.len() == b@.len(),
            i <= a@.len(),
            forall|j: int| 0 <= j < i ==> a@[j] == b@[j],
        decreases a@.len() - i,
    {
        if a[i] != b[i] {
            return false;
        }
        i = i + 1;
    }
    assert(a@ =~= b@);
    true
}

/// The lower-case extension of the file name `name`.
pub fn extension(name: &[u8]) -> (r: Vec<u8>)
    ensures
        r@ == spec_extension(name@),
{
    let mut i: usize = name.len();
    while i > 0 && name[i - 1] != 0x2E
        invariant
            i <= name@.len(),
            last_dot(name@, name@.len() as int) == last_dot(name@, i as int),
        decreases i,
    {
        i = i - 1;
    }
    let mut r: Vec<u8> = Vec::new();
    if i <= 1 {
        return r;
    }
    let mut k: usize = i;
    while k < name.len()
        invariant
            i <= k <= name@.len(),
            r@ == name@.subrange(i as int, k as int).map_values(|b: u8| ascii_lower(b)),
        decreases name@.len() - k,
    {
        let b = name[k];
        let lower = if 0x41 <= b && b <= 0x5A {
            b + 32
        } else {
            b
        };
        r.push(lower);
        k = k + 1;
        assert(r@ =~= name@.subrange(i as int, k as int).map_values(|b: u8| ascii_lower(b)));
    }
    r
}

} // verus!

verus! {

/// One entry of the source tree, as a post-order walk sorted by name lists
/// it: a directory comes after its contents, and the root, at depth 0, last.
pub struct SourceEntry {
    /// The entry's name: its last path component.
    pub name: Vec<u8>,
    /// The path below the root, components joined by `/`.
    pub path: Vec<u8>,
    /// 0 for the root, 1 for its children, and so on.
    pub depth: usize,
    pub is_dir: bool,
    /// A file's contents; empty for a directory.
    pub contents: Vec<u8>,
    /// The `_filedates` value of the entry, used where filedates are asked for.
    pub filedate: i64,
}

/// Whether the step from entry `i` to entry `i + 1` keeps to post-order: going
/// up the tree, it goes up one level, to the directory whose contents end.
pub open spec fn step_ok(entries: Seq<SourceEntry>, i: int) -> bool {
    entries[i + 1].depth < entries[i].depth ==> entries[i + 1].depth + 1 == entries[i].depth
        && entries[i + 1].is_dir
}

/// Whether `entries` lists a tree in post-order: the root, a directory at
/// depth 0, comes last and only there, and each directory right after its
/// last child's subtree.
pub open spec fn post_order(entries: Seq<SourceEntry>) -> bool {
    &&& entries.len() > 0
    &&& entries.last().is_dir
    &&& entries.last().depth == 0
    &&& forall|i: int| 0 <= i < entries.len() - 1 ==> (#[trigger] entries[i]).depth > 0
    &&& forall|i: int| 0 <= i < entries.len() - 1 ==> #[trigger] step_ok(entries, i)
}

/// Whether entry `i` cannot be stored: below the root, a name that no
/// directory entry can hold; anywhere, a depth past what can be counted.
pub open spec fn bad_entry(entries: Seq<SourceEntry>, i: int) -> bool {
    ||| (i < entries.len() - 1 && !storable_name(entries[i].name@))
    ||| entries[i].name@.len() > u16::MAX
    ||| entries[i].depth >= usize::MAX - 1
}

/// Whether some entry cannot be stored.
pub open spec fn has_bad_entry(entries: Seq<SourceEntry>) -> bool {
    exists|i: int| 0 <= i < entries.len() && #[trigger] bad_entry(entries, i)
}

/// The kind value stored for an entry.
pub open spec fn kind_value(e: SourceEntry) -> u32 {
    if e.is_dir {
        1
    } else {
        0
    }
}

/// The directory entries at depth `d` among the first `k` entries that no
/// directory has taken yet. Entry `j` is stored with the one-based index
/// `j + 2`: its row is `j + 1`, after the root's row 0. A directory at depth
/// `d - 1` takes all waiting at depth `d`: in post-order, exactly its children.
pub open spec fn pending(entries: Seq<SourceEntry>, k: int, d: int) -> Seq<u8>
    decreases k,
{
    if k <= 0 {
        seq![]
    } else {
        let e = entries[k - 1];
        if e.is_dir && d == e.depth + 1 {
            seq![]
        } else if d == e.depth && e.depth > 0 {
            pending(entries, k - 1, d) + dir_entry_bytes((k + 1) as u32, kind_value(e), e.name@)
        } else {
            pending(entries, k - 1, d)
        }
    }
}

/// The decimal digits of `n`.
pub open spec fn decimal(n: nat) -> Seq<u8>
    decreases n,
{
    if n < 10 {
        seq![(0x30 + n) as u8]
    } else {
        decimal(n / 10).push((0x30 + n % 10) as u8)
    }
}

/// The `_filedates` line `path=value`.
pub open spec fn filedate_line(path: Seq<u8>, value: i64) -> Seq<u8> {
    path + seq![0x3Du8] + (if value < 0 {
        seq![0x2Du8] + decimal((-value) as nat)
    } else {
        decimal(value as nat)
    }) + seq![0x0Au8]
}

/// The lines of `_filedates` for the first `k` entries: one for each entry
/// below the root.
pub open spec fn filedates_text(entries: Seq<SourceEntry>, k: int) -> Seq<u8>
    decreases k,
{
    if k <= 0 {
        seq![]
    } else {
        filedates_text(entries, k - 1) + if entries[k - 1].depth > 0 {
            filedate_line(entries[k - 1].path@, entries[k - 1].filedate)
        } else {
            seq![]
        }
    }
}

/// `_filedates`
pub open spec fn filedates_name() -> Seq<u8> {
    seq![0x5Fu8, 0x66u8, 0x69u8, 0x6Cu8, 0x65u8, 0x64u8, 0x61u8, 0x74u8, 0x65u8, 0x73u8]
}

impl CreateOptions {
    /// The row of entry `i` below the root: a file's payload, or a
    /// directory's listing of its children.
    pub open spec fn entry_row(self, entries: Seq<SourceEntry>, i: int) -> Seq<u8> {
        if entries[i].is_dir {
            pending(entries, i, entries[i].depth + 1)
        } else {
            self.spec_payload(entries[i].name@, entries[i].contents@)
        }
    }

    /// The root's listing: its children, then `_filedates` where it is written.
    pub open spec fn root_listing(self, entries: Seq<SourceEntry>) -> Seq<u8> {
        pending(entries, entries.len() - 1, 1) + if self.filedates_fmt is Some {
            dir_entry_bytes((entries.len() + 1) as u32, 0, filedates_name())
        } else {
            seq![]
        }
    }

    /// The rows in the order they are written after the header: each entry
    /// below the root, then `_filedates` where asked for, then the root.
    pub open spec fn written_rows(self, entries: Seq<SourceEntry>) -> Seq<Seq<u8>> {
        Seq::new((entries.len() - 1) as nat, |i: int| self.entry_row(entries, i)) + (if self.filedates_fmt is Some {
            seq![filedates_text(entries, entries.len() as int)]
        } else {
            seq![]
        }) + seq![self.root_listing(entries)]
    }

    /// Whether every payload fits, and the archive of `entries` fits 32 bits.
    pub open spec fn archive_fits(self, entries: Seq<SourceEntry>) -> bool {
        &&& entries.len() + 2 <= u32::MAX
        &&& forall|i: int|
            0 <= i < entries.len() - 1 && !(#[trigger] entries[i]).is_dir ==> self.payload_fits(
                entries[i].name@,
                entries[i].contents@,
            )
        &&& spec_archive(self, entries).len() <= u32::MAX
    }

    /// Whether `create` succeeds on well-formed `entries`: the archive fits,
    /// and so does its compressed form where that is asked for.
    pub open spec fn create_fits(self, entries: Seq<SourceEntry>) -> bool {
        &&& self.archive_fits(entries)
        &&& self.compress ==> compress_fits(
            self.compress_options.compressor,
            self.compress_options.chunk_size,
            spec_archive(self, entries),
        )
    }
}

/// Row `k` of the written rows: where it starts and how long it is.
pub open spec fn row_fragment(rows: Seq<Seq<u8>>, k: int) -> Fragment {
    Fragment { offset: (36 + concat(rows.subrange(0, k)).len()) as u64, length: rows[k].len() as u64 }
}

/// The fragment table: the root's row, written last, first; the others in
/// the order written.
pub open spec fn table_fragments(rows: Seq<Seq<u8>>) -> Seq<Fragment> {
    seq![row_fragment(rows, rows.len() - 1)] + Seq::new(
        (rows.len() - 1) as nat,
        |k: int| row_fragment(rows, k),
    )
}

/// The bytes of a fragment table.
pub open spec fn table_bytes(frags: Seq<Fragment>) -> Seq<u8>
    decreases frags.len(),
{
    if frags.len() == 0 {
        seq![]
    } else {
        table_bytes(frags.drop_last()) + frags.last().spec_bytes()
    }
}

/// The header of a new archive whose table starts at `offset` and takes `length` bytes.
pub open spec fn new_header(offset: u64, length: u64) -> Header {
    Header {
        data_offset: 36,
        fragments_per_file: 1,
        reserved_a: 0xFFFF_FFFF,
        fragments_residual_offset: 0,
        fragments_residual_count: 0,
        reserved_b: 1,
        fragmented_filesystem_offset: offset,
        fragmented_filesystem_length: length,
    }
}

/// The archive of `entries`: header, the rows in the order written, then the
/// fragment table.
pub open spec fn spec_archive(options: CreateOptions, entries: Seq<SourceEntry>) -> Seq<u8> {
    let rows = options.written_rows(entries);
    let frags = table_fragments(rows);
    new_header((36 + concat(rows).len()) as u64, (8 * frags.len()) as u64).spec_bytes() + concat(rows)
        + table_bytes(frags)
}

/// The archive `create` gives: compressed as a whole where that is asked for.
pub open spec fn spec_create(options: CreateOptions, entries: Seq<SourceEntry>) -> Seq<u8> {
    if options.compress {
        compressed_bytes(
            options.compress_options.compressor,
            options.compress_options.chunk_size,
            spec_archive(options, entries),
        )
    } else {
        spec_archive(options, entries)
    }
}

pub(crate) fn filedates_name_bytes() -> (r: Vec<u8>)
    ensures
        r@ == filedates_name(),
{
    let mut r: Vec<u8> = Vec::new();
    r.push(0x5F);
    r.push(0x66);
    r.push(0x69);
    r.push(0x6C);
    r.push(0x65);
    r.push(0x64);
    r.push(0x61);
    r.push(0x74);
    r.push(0x65);
    r.push(0x73);
    assert(r@ =~= filedates_name());
    r
}

/// The buffer for depth `d`; empty past the end.
pub open spec fn buf_at(buffers: Seq<Vec<u8>>, d: int) -> Seq<u8> {
    if 0 <= d < buffers.len() {
        buffers[d]@
    } else {
        seq![]
    }
}

/// The buffer at `i`, left empty in its place.
fn take_at(v: &mut Vec<Vec<u8>>, i: usize) -> (r: Vec<u8>)
    ensures
        r@ == buf_at(old(v)@, i as int),
        final(v)@.len() == old(v)@.len(),
        forall|d: int| d != i ==> buf_at(final(v)@, d) == buf_at(old(v)@, d),
        buf_at(final(v)@, i as int) == Seq::<u8>::empty(),
{
    if i >= v.len() {
        return Vec::new();
    }
    let ghost before = v@;
    let r = v.remove(i);
    v.insert(i, Vec::new());
    assert forall|d: int| d != i implies buf_at(v@, d) == buf_at(before, d) by {
        if 0 <= d < before.len() {
            assert(v@[d] == before[d]);
        }
    }
    r
}

/// Appends a directory entry to the listing being built at `depth`.
fn add_to_listing(buffers: &mut Vec<Vec<u8>>, depth: usize, index: u32, kind: u32, name: &[u8])
    requires
        name@.len() <= u16::MAX,
        depth < usize::MAX,
    ensures
        forall|d: int| d != depth ==> buf_at(final(buffers)@, d) == buf_at(old(buffers)@, d),
        buf_at(final(buffers)@, depth as int) == buf_at(old(buffers)@, depth as int) + dir_entry_bytes(
            index,
            kind,
            name@,
        ),
{
    let ghost start = buffers@;
    while buffers.len() <= depth
        invariant
            depth < usize::MAX,
            buffers@.len() >= start.len(),
            forall|d: int| buf_at(buffers@, d) == buf_at(start, d),
        decreases depth + 1 - buffers@.len(),
    {
        let ghost before = buffers@;
        buffers.push(Vec::new());
        assert forall|d: int| buf_at(buffers@, d) == buf_at(start, d) by {
            assert(buf_at(buffers@, d) == buf_at(before, d));
        }
    }
    let ghost mid = buffers@;
    let mut parent = take_at(buffers, depth);
    write_dir_entry(&mut parent, index, kind, name);
    buffers.set(depth, parent);
    assert forall|d: int| d != depth implies buf_at(buffers@, d) == buf_at(start, d) by {
        assert(buf_at(mid, d) == buf_at(start, d));
    }
}

/// Appends the decimal digits of `n`.
pub fn push_decimal(out: &mut Vec<u8>, n: u64)
    ensures
        final(out)@ == old(out)@ + decimal(n as nat),
    decreases n,
{
    if n >= 10 {
        push_decimal(out, n / 10);
    }
    let ghost mid = out@;
    out.push(0x30 + (n % 10) as u8);
    assert(out@ =~= old(out)@ + decimal(n as nat));
}

/// Appends the line `path=value` of `_filedates`.
pub fn push_filedate_line(out: &mut Vec<u8>, path: &[u8], value: i64)
    ensures
        final(out)@ == old(out)@ + filedate_line(path@, value),
{
    let ghost o = out@;
    push_all(out, path);
    out.push(0x3D);
    let ghost mid = out@;
    if value < 0 {
        out.push(0x2D);
        let magnitude: u64 = if value == i64::MIN {
            9223372036854775808
        } else {
            (0 - value) as u64
        };
        push_decimal(out, magnitude);
    } else {
        push_decimal(out, value as u64);
    }
    out.push(0x0A);
    assert(out@ =~= o + filedate_line(path@, value));
}

/// Whether `entries` lists a tree in post-order.
pub fn is_post_order(entries: &[SourceEntry]) -> (r: bool)
    ensures
        r == post_order(entries@),
{
    let n = entries.len();
    if n == 0 || !entries[n - 1].is_dir || entries[n - 1].depth != 0 {
        return false;
    }
    let mut i: usize = 0;
    while i < n - 1
        invariant
            n == entries@.len(),
            n > 0,
            i <= n - 1,
            forall|j: int| 0 <= j < i ==> (#[trigger] entries@[j]).depth > 0,
            forall|j: int| 0 <= j < i ==> #[trigger] step_ok(entries@, j),
        decreases n - 1 - i,
    {
        if entries[i].depth == 0 {
            return false;
        }
        let next = &entries[i + 1];
        if next.depth < entries[i].depth && !(next.depth + 1 == entries[i].depth && next.is_dir) {
            assert(!step_ok(entries@, i as int));
            return false;
        }
        i = i + 1;
    }
    true
}

/// Whether some entry has a name too long to store or a depth past counting.
pub fn has_bad_entries(entries: &[SourceEntry]) -> (r: bool)
    ensures
        r == has_bad_entry(entries@),
{
    let mut i: usize = 0;
    while i < entries.len()
        invariant
            i <= entries@.len(),
            forall|j: int| 0 <= j < i ==> !#[trigger] bad_entry(entries@, j),
        decreases entries@.len() - i,
    {
        let e = &entries[i];
        let below_root = i + 1 < entries.len();
        let n = e.name.len();
        let dots = n == 2 && e.name[0] == 0x2E && e.name[1] == 0x2E;
        proof {
            if n == 2 {
                if e.name@ == seq![0x2Eu8, 0x2Eu8] {
                    assert(e.name@[0] == 0x2Eu8 && e.name@[1] == 0x2Eu8);
                }
                if e.name@[0] == 0x2Eu8 && e.name@[1] == 0x2Eu8 {
                    assert(e.name@ =~= seq![0x2Eu8, 0x2Eu8]);
                }
            }
        }
        if n > 65535 || e.depth >= usize::MAX - 1 || (below_root && (n == 0 || dots || !is_utf8(e.name.as_slice()))) {
            assert(bad_entry(entries@, i as int));
            return true;
        }
        i = i + 1;
    }
    false
}

/// 36 zero bytes, where the header goes once the rest is written.
pub open spec fn header_gap() -> Seq<u8> {
    Seq::new(36, |i: int| 0u8)
}

/// Writes the rows of `entries` after a 36-byte gap; gives them with the
/// fragment table. Fails where a payload does not fit.
#[verifier::rlimit(60)]
fn build_body(options: &CreateOptions, entries: &[SourceEntry]) -> (r: HpkResult<(Vec<u8>, Vec<Fragment>)>)
    requires
        options.wf(),
        post_order(entries@),
        !has_bad_entry(entries@),
        entries@.len() + 2 <= u32::MAX,
    ensures
        r matches Ok((out, frags)) ==> out@ == header_gap() + concat(options.written_rows(entries@))
            && frags@ == table_fragments(options.written_rows(entries@)),
        r is Err <==> exists|i: int|
            0 <= i < entries@.len() - 1 && !(#[trigger] entries@[i]).is_dir && !options.payload_fits(
                entries@[i].name@,
                entries@[i].contents@,
            ),
        r is Err ==> r == Err::<(Vec<u8>, Vec<Fragment>), HpkError>(HpkError::TooLarge),
{
    let ghost rows = options.written_rows(entries@);
    let with_filedates = options.with_filedates();
    let n = entries.len();
    let mut out: Vec<u8> = zeros(36);
    assert(out@ =~= header_gap()) by {
        assert forall|j: int| 0 <= j < 36 implies out@[j] == 0u8 by {}
    }
    let mut fragments: Vec<Fragment> = Vec::new();
    let mut buffers: Vec<Vec<u8>> = Vec::new();
    let mut filedates: Vec<u8> = Vec::new();
    let mut i: usize = 0;
    assert(rows.subrange(0, 0) =~= seq![]);
    while i < n - 1
        invariant
            options.wf(),
            n == entries@.len(),
            post_order(entries@),
            !has_bad_entry(entries@),
            n + 2 <= u32::MAX,
            rows == options.written_rows(entries@),
            with_filedates == options.filedates_fmt is Some,
            i <= n - 1,
            out@ == header_gap() + concat(rows.subrange(0, i as int)),
            fragments@.len() == i,
            forall|k: int| 0 <= k < i ==> #[trigger] fragments@[k] == row_fragment(rows, k),
            forall|d: int| buf_at(buffers@, d) == pending(entries@, i as int, d),
            filedates@ == filedates_text(entries@, i as int),
            forall|j: int| 0 <= j < i && !(#[trigger] entries@[j]).is_dir ==> options.payload_fits(
                entries@[j].name@,
                entries@[j].contents@,
            ),
        decreases n - 1 - i,
    {
        let e = &entries[i];
        assert(entries@[i as int] == *e);
        assert(e.depth > 0);
        assert(!bad_entry(entries@, i as int));
        assert(rows[i as int] == options.entry_row(entries@, i as int));
        let ghost before_out = out@;
        push_filedate_line(&mut filedates, e.path.as_slice(), e.filedate);
        if !e.is_dir {
            let payload = match options.file_payload(e.name.as_slice(), e.contents.as_slice()) {
                Ok(p) => p,
                Err(err) => return Err(err),
            };
            fragments.push(Fragment::new(out.len() as u64, payload.len() as u64));
            push_all(&mut out, payload.as_slice());
            add_to_listing(&mut buffers, e.depth, (i + 2) as u32, 0, e.name.as_slice());
        } else {
            let listing = take_at(&mut buffers, e.depth + 1);
            fragments.push(Fragment::new(out.len() as u64, listing.len() as u64));
            push_all(&mut out, listing.as_slice());
            add_to_listing(&mut buffers, e.depth, (i + 2) as u32, 1, e.name.as_slice());
        }
        proof {
            assert(rows.subrange(0, i + 1) =~= rows.subrange(0, i as int).push(rows[i as int]));
            lemma_concat_push(rows.subrange(0, i as int), rows[i as int]);
            assert(out@ =~= header_gap() + concat(rows.subrange(0, i + 1)));
            assert(fragments@[i as int] == row_fragment(rows, i as int));
            assert forall|d: int| buf_at(buffers@, d) == pending(entries@, i + 1, d) by {}
        }
        i = i + 1;
    }
    // the root, last
    let ghost m = rows.len();
    let mut listing = take_at(&mut buffers, 1);
    if with_filedates {
        assert(rows[n - 1] == filedates_text(entries@, n as int)) by {
            assert(filedates_text(entries@, n as int) == filedates_text(entries@, n - 1));
        }
        fragments.push(Fragment::new(out.len() as u64, filedates.len() as u64));
        push_all(&mut out, filedates.as_slice());
        write_dir_entry(&mut listing, (n + 1) as u32, 0, filedates_name_bytes().as_slice());
        proof {
            assert(rows.subrange(0, n as int) =~= rows.subrange(0, n - 1).push(rows[n - 1]));
            lemma_concat_push(rows.subrange(0, n - 1), rows[n - 1]);
        }
    }
    let ghost written = if with_filedates { n as int } else { n - 1 };
    assert(rows.len() == written + 1);
    assert(listing@ == rows[written]);
    let root = Fragment::new(out.len() as u64, listing.len() as u64);
    assert(root == row_fragment(rows, written));
    push_all(&mut out, listing.as_slice());
    fragments.insert(0, root);
    proof {
        assert(rows.subrange(0, written + 1) =~= rows.subrange(0, written).push(rows[written]));
        lemma_concat_push(rows.subrange(0, written), rows[written]);
        assert(rows.subrange(0, written + 1) =~= rows);
        assert(fragments@ =~= table_fragments(rows));
    }
    Ok((out, fragments))
}

} // verus!

verus! {

/// Appends the bytes of the fragment table to `out`.
fn write_table(out: &mut Vec<u8>, fragments: &Vec<Fragment>)
    ensures
        final(out)@ == old(out)@ + table_bytes(fragments@),
{
    let n = fragments.len();
    let mut k: usize = 0;
    assert(fragments@.subrange(0, 0) =~= seq![]);
    while k < n
        invariant
            n == fragments@.len(),
            k <= n,
            out@ == old(out)@ + table_bytes(fragments@.subrange(0, k as int)),
        decreases n - k,
    {
        fragments[k].write(out);
        proof {
            assert(fragments@.subrange(0, k + 1).drop_last() =~= fragments@.subrange(0, k as int));
        }
        k = k + 1;
    }
    assert(fragments@.subrange(0, n as int) =~= fragments@);
}

/// Writes `header` over the first 36 bytes of `out`.
fn put_header(out: &mut Vec<u8>, header: &Header)
    requires
        old(out)@.len() >= 36,
    ensures
        final(out)@ == header.spec_bytes() + old(out)@.subrange(36, old(out)@.len() as int),
{
    let mut head: Vec<u8> = Vec::new();
    header.write(&mut head);
    let ghost rest = out@.subrange(36, out@.len() as int);
    let mut j: usize = 0;
    while j < 36
        invariant
            j <= 36,
            head@ == header.spec_bytes(),
            head@.len() == 36,
            out@.len() >= 36,
            out@.subrange(36, out@.len() as int) == rest,
            forall|t: int| 0 <= t < j ==> out@[t] == head@[t],
        decreases 36 - j,
    {
        out.set(j, head[j]);
        j = j + 1;
        assert(out@.subrange(36, out@.len() as int) =~= rest);
    }
    assert(out@ =~= header.spec_bytes() + rest);
}

/// Appends the fragment table to `out` and writes the header over its first
/// 36 bytes. Fails where the archive does not fit 32 bits.
fn finish(out: Vec<u8>, fragments: &Vec<Fragment>) -> (r: HpkResult<Vec<u8>>)
    requires
        out@.len() >= 36,
    ensures
        r is Ok <==> out@.len() + table_bytes(fragments@).len() <= u32::MAX,
        r matches Ok(v) ==> v@ == new_header(out@.len() as u64, (8 * fragments@.len()) as u64).spec_bytes()
            + out@.subrange(36, out@.len() as int) + table_bytes(fragments@),
        r is Err ==> r == Err::<Vec<u8>, HpkError>(HpkError::TooLarge),
{
    let ghost start = out@;
    let mut out = out;
    let table_offset = out.len() as u64;
    write_table(&mut out, fragments);
    if out.len() > 0xFFFF_FFFF {
        return Err(HpkError::TooLarge);
    }
    proof {
        lemma_table_bytes_len(fragments@);
    }
    let header = Header::new(table_offset, (fragments.len() as u64) * 8);
    put_header(&mut out, &header);
    proof {
        assert((start + table_bytes(fragments@)).subrange(36, (start + table_bytes(fragments@)).len() as int)
            =~= start.subrange(36, start.len() as int) + table_bytes(fragments@));
        assert(header == new_header(start.len() as u64, (8 * fragments@.len()) as u64));
    }
    Ok(out)
}

/// Builds the archive of `entries`, a tree listed in post-order with the root
/// last: file payloads and directory listings in that order after the
/// 36-byte header, then the fragment table with the root's row first, and the
/// header written last. With `compress` the finished archive is compressed
/// as a whole.
pub fn create(options: &CreateOptions, entries: &[SourceEntry]) -> (r: HpkResult<Vec<u8>>)
    requires
        options.wf(),
    ensures
        !post_order(entries@) ==> r == Err::<Vec<u8>, HpkError>(HpkError::InvalidInput),
        post_order(entries@) && has_bad_entry(entries@) ==> r == Err::<Vec<u8>, HpkError>(
            HpkError::InvalidDirEntryName,
        ),
        post_order(entries@) && !has_bad_entry(entries@) ==> (r is Ok <==> options.create_fits(
            entries@,
        )),
        post_order(entries@) && !has_bad_entry(entries@) && r is Err ==> r == Err::<Vec<u8>, HpkError>(
            HpkError::TooLarge,
        ),
        r matches Ok(v) ==> v@ == spec_create(*options, entries@),
{
    if !is_post_order(entries) {
        return Err(HpkError::InvalidInput);
    }
    if has_bad_entries(entries) {
        return Err(HpkError::InvalidDirEntryName);
    }
    if entries.len() > 0xFFFF_FFFF - 2 {
        return Err(HpkError::TooLarge);
    }
    let ghost rows = options.written_rows(entries@);
    let (out, fragments) = match build_body(options, entries) {
        Ok(body) => body,
        Err(e) => return Err(e),
    };
    proof {
        lemma_table_bytes_len(fragments@);
        assert(out@.subrange(36, out@.len() as int) =~= concat(rows));
        assert(spec_archive(*options, entries@).len() == out@.len() + table_bytes(fragments@).len());
    }
    let archive = match finish(out, &fragments) {
        Ok(a) => a,
        Err(e) => return Err(e),
    };
    assert(archive@ =~= spec_archive(*options, entries@));
    if options.compress {
        compress(&options.compress_options, archive.as_slice())
    } else {
        Ok(archive)
    }
}

proof fn lemma_table_bytes_len(frags: Seq<Fragment>)
    ensures
        table_bytes(frags).len() == 8 * frags.len(),
    decreases frags.len(),
{
    if frags.len() > 0 {
        lemma_table_bytes_len(frags.drop_last());
    }
}

/// A header put in front of a body and a table reads back.
proof fn lemma_layout_header(body: Seq<u8>, frags: Seq<Fragment>)
    requires
        36 + body.len() + 8 * frags.len() <= u32::MAX,
    ensures
        ({
            let v = new_header((36 + body.len()) as u64, (8 * frags.len()) as u64).spec_bytes() + body
                + table_bytes(frags);
            &&& v.subrange(0, 4) == hpk_sig()
            &&& spec_read_header(v) == Ok::<Header, HpkError>(
                new_header((36 + body.len()) as u64, (8 * frags.len()) as u64),
            )
            &&& v.len() == 36 + body.len() + 8 * frags.len()
        }),
{
    lemma_table_bytes_len(frags);
    let h = new_header((36 + body.len()) as u64, (8 * frags.len()) as u64);
    let t = table_bytes(frags);
    lemma_assoc(h.spec_bytes(), body, t);
    crate::format::lemma_header_round_trip(h, body + t);
    lemma_header_len(h);
}

proof fn lemma_assoc(a: Seq<u8>, b: Seq<u8>, c: Seq<u8>)
    ensures
        a + b + c == a + (b + c),
{
    assert(a + b + c =~= a + (b + c));
}

proof fn lemma_header_len(h: Header)
    ensures
        h.spec_bytes().len() == 36,
{
}

/// The archive of well-formed entries that fits 32 bits starts with a header
/// that reads back: `BPUL`, data offset 36, one fragment per row, a table of
/// one row per written row at the archive's end, and no residual fragments.
pub proof fn lemma_archive_header(options: CreateOptions, entries: Seq<SourceEntry>)
    requires
        spec_archive(options, entries).len() <= u32::MAX,
    ensures
        ({
            let v = spec_archive(options, entries);
            let rows = options.written_rows(entries);
            &&& v.subrange(0, 4) == hpk_sig()
            &&& spec_read_header(v) == Ok::<Header, HpkError>(
                new_header((36 + concat(rows).len()) as u64, (8 * table_fragments(rows).len()) as u64),
            )
            &&& (36 + concat(rows).len()) + 8 * table_fragments(rows).len() == v.len()
        }),
{
    let rows = options.written_rows(entries);
    let frags = table_fragments(rows);
    lemma_table_bytes_len(frags);
    lemma_layout_header(concat(rows), frags);
}

} // verus!

verus! {

/// Row `k` of a table sits at `8 * k` of its bytes.
proof fn lemma_table_entry(frags: Seq<Fragment>, k: int)
    requires
        0 <= k < frags.len(),
    ensures
        table_bytes(frags).len() == 8 * frags.len(),
        table_bytes(frags).subrange(8 * k, 8 * k + 8) == frags[k].spec_bytes(),
    decreases frags.len(),
{
    lemma_table_bytes_len(frags);
    lemma_table_bytes_len(frags.drop_last());
    let a = table_bytes(frags.drop_last());
    if k < frags.len() - 1 {
        lemma_table_entry(frags.drop_last(), k);
        assert((a + frags.last().spec_bytes()).subrange(8 * k, 8 * k + 8) =~= a.subrange(8 * k, 8 * k + 8));
    } else {
        assert((a + frags.last().spec_bytes()).subrange(8 * k, 8 * k + 8) =~= frags.last().spec_bytes());
    }
}

/// A fragment's eight bytes read back as it, where its fields fit 32 bits.
proof fn lemma_read_fragment(v: Seq<u8>, pos: int, f: Fragment)
    requires
        0 <= pos,
        pos + 8 <= v.len(),
        v.subrange(pos, pos + 8) == f.spec_bytes(),
        f.offset <= u32::MAX,
        f.length <= u32::MAX,
    ensures
        crate::walk::fragment_at(v, pos) == f,
{
    assert(v.subrange(pos, pos + 4) =~= v.subrange(pos, pos + 8).subrange(0, 4));
    assert(v.subrange(pos + 4, pos + 8) =~= v.subrange(pos, pos + 8).subrange(4, 8));
    assert(f.spec_bytes().subrange(0, 4) =~= u32_le(f.offset as u32));
    assert(f.spec_bytes().subrange(4, 8) =~= u32_le(f.length as u32));
    lemma_u32_round_trip(f.offset as u32);
    lemma_u32_round_trip(f.length as u32);
}

/// Behind a 36-byte head, the rows then their table: table row `k` reads
/// back as the fragment of row `j` and points at it.
proof fn lemma_layout_rows(head: Seq<u8>, rows: Seq<Seq<u8>>, k: int, j: int)
    requires
        head.len() == 36,
        rows.len() > 0,
        0 <= k < rows.len(),
        j == (if k == 0 { rows.len() - 1 } else { k - 1 }),
        36 + concat(rows).len() + 8 * rows.len() <= u32::MAX,
    ensures
        ({
            let v = head + concat(rows) + table_bytes(table_fragments(rows));
            let table = 36 + concat(rows).len();
            let f = row_fragment(rows, j);
            &&& crate::walk::fragment_at(v, table + 8 * k) == f
            &&& 36 <= f.offset
            &&& f.offset + f.length <= table
            &&& v.subrange(f.offset as int, f.offset + f.length) == rows[j]
        }),
{
    let frags = table_fragments(rows);
    let body = concat(rows);
    let t = table_bytes(frags);
    let v = head + body + t;
    let table = 36 + body.len();
    let f = row_fragment(rows, j);
    lemma_table_entry(frags, k);
    assert(frags[k] == f);
    lemma_concat_part(rows, j);
    let before = concat(rows.subrange(0, j)).len() as int;
    assert(v.subrange(table + 8 * k, table + 8 * k + 8) =~= t.subrange(8 * k, 8 * k + 8));
    lemma_read_fragment(v, table + 8 * k, f);
    assert(v.subrange(f.offset as int, f.offset + f.length) =~= body.subrange(before, before + rows[j].len()));
}

/// In the archive of `entries`, table row `k` reads back as the fragment of a
/// written row (row 0 the root's listing, written last; row `k` the `k - 1`-th
/// written), and that fragment lies between the header and the table and
/// holds exactly that row: a file's payload or a directory's listing.
pub proof fn lemma_created_rows(options: CreateOptions, entries: Seq<SourceEntry>, k: int)
    requires
        spec_archive(options, entries).len() <= u32::MAX,
        0 <= k < options.written_rows(entries).len(),
    ensures
        ({
            let v = spec_archive(options, entries);
            let rows = options.written_rows(entries);
            let j = if k == 0 { rows.len() - 1 } else { k - 1 };
            let table = 36 + concat(rows).len();
            let f = row_fragment(rows, j);
            &&& crate::walk::fragment_at(v, table + 8 * k) == f
            &&& 36 <= f.offset
            &&& f.offset + f.length <= table
            &&& v.subrange(f.offset as int, f.offset + f.length) == rows[j]
        }),
{
    let rows = options.written_rows(entries);
    let frags = table_fragments(rows);
    let h = new_header((36 + concat(rows).len()) as u64, (8 * frags.len()) as u64);
    lemma_header_len(h);
    lemma_table_bytes_len(frags);
    let j = if k == 0 { rows.len() - 1 } else { k - 1 };
    lemma_layout_rows(h.spec_bytes(), rows, k, j);
}

} // verus!
