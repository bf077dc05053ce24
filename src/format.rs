//! The fixed records of an archive: header, fragments and directory entries.
use vstd::prelude::*;
use crate::bytes::{le_u16, le_u32, u16_le, u32_le, u32_at, read_u16, read_u32, push_u16, push_u32, push_all, copy_range};
use crate::bytes::{lemma_u32_round_trip, lemma_u16_round_trip};
use crate::error::{HpkError, HpkResult};

verus! {

/// The length in bytes of an archive header.
pub const HEADER_LENGTH: u64 = 36;

/// The length in bytes of a fragment record.
pub const FRAGMENT_SIZE: u64 = 8;

/// The four bytes `BPUL` that start every archive.
pub open spec fn hpk_sig() -> Seq<u8> {
    seq![0x42u8, 0x50u8, 0x55u8, 0x4Cu8]
}

/// The `u32` at `pos`, where four bytes are known to be there.
pub open spec fn u32_field(s: Seq<u8>, pos: int) -> u32 {
    le_u32(s.subrange(pos, pos + 4)) as u32
}

/// The header at the start of an archive.
pub struct Header {
    pub data_offset: u32,
    pub fragments_per_file: u32,
    pub reserved_a: u32,
    pub fragments_residual_offset: u64,
    pub fragments_residual_count: u64,
    pub reserved_b: u32,
    pub fragmented_filesystem_offset: u64,
    pub fragmented_filesystem_length: u64,
}

/// What reading a header from `s` gives.
pub open spec fn spec_read_header(s: Seq<u8>) -> HpkResult<Header> {
    if s.len() < 4 {
        Err(HpkError::UnexpectedEof)
    } else if s.subrange(0, 4) != hpk_sig() {
        Err(HpkError::InvalidHeader)
    } else if s.len() < 36 {
        Err(HpkError::UnexpectedEof)
    } else {
        Ok(Header {
            data_offset: u32_field(s, 4),
            fragments_per_file: u32_field(s, 8),
            reserved_a: u32_field(s, 12),
            fragments_residual_offset: u32_field(s, 16) as u64,
            fragments_residual_count: u32_field(s, 20) as u64,
            reserved_b: u32_field(s, 24),
            fragmented_filesystem_offset: u32_field(s, 28) as u64,
            fragmented_filesystem_length: u32_field(s, 32) as u64,
        })
    }
}

impl Header {
    /// The 36 bytes that `write` emits.
    pub open spec fn spec_bytes(self) -> Seq<u8> {
        hpk_sig() + u32_le(self.data_offset) + u32_le(self.fragments_per_file) + u32_le(
            self.reserved_a,
        ) + u32_le(self.fragments_residual_offset as u32) + u32_le(
            self.fragments_residual_count as u32,
        ) + u32_le(self.reserved_b) + u32_le(self.fragmented_filesystem_offset as u32) + u32_le(
            self.fragmented_filesystem_length as u32,
        )
    }

    /// Whether every field fits the 32 bits the file gives it.
    pub open spec fn fits(self) -> bool {
        &&& self.fragments_residual_offset <= u32::MAX
        &&& self.fragments_residual_count <= u32::MAX
        &&& self.fragmented_filesystem_offset <= u32::MAX
        &&& self.fragmented_filesystem_length <= u32::MAX
    }

    /// The number of rows of the fragment table.
    pub open spec fn spec_filesystem_entries(self) -> int {
        (self.fragmented_filesystem_length as u32) as int / (8 * self.fragments_per_file as int)
    }

    /// A header for a new archive whose fragment table starts at `offset` and
    /// takes `length` bytes.
    pub fn new(fragmented_filesystem_offset: u64, fragmented_filesystem_length: u64) -> (r: Header)
        ensures
            r.data_offset == 36,
            r.fragments_per_file == 1,
            r.reserved_a == 0xFFFF_FFFF,
            r.fragments_residual_offset == 0,
            r.fragments_residual_count == 0,
            r.reserved_b == 1,
            r.fragmented_filesystem_offset == fragmented_filesystem_offset,
            r.fragmented_filesystem_length == fragmented_filesystem_length,
    {
        Header {
            data_offset: 36,
            fragments_per_file: 1,
            reserved_a: 0xFFFF_FFFF,
            fragments_residual_offset: 0,
            fragments_residual_count: 0,
            reserved_b: 1,
            fragmented_filesystem_offset,
            fragmented_filesystem_length,
        }
    }

    /// Reads a header from the start of `data`.
    pub fn read_from(data: &[u8]) -> (r: HpkResult<Header>)
        ensures
            r == spec_read_header(data@),
    {
        if data.len() < 4 {
            return Err(HpkError::UnexpectedEof);
        }
        if !(data[0] == 0x42 && data[1] == 0x50 && data[2] == 0x55 && data[3] == 0x4C) {
            assert(data@.subrange(0, 4) != hpk_sig()) by {
                if data@.subrange(0, 4) == hpk_sig() {
                    assert(data@.subrange(0, 4)[1] == data@[1]);
                    assert(data@.subrange(0, 4)[2] == data@[2]);
                    assert(data@.subrange(0, 4)[3] == data@[3]);
                }
            }
            return Err(HpkError::InvalidHeader);
        }
        assert(data@.subrange(0, 4) =~= hpk_sig());
        if data.len() < 36 {
            return Err(HpkError::UnexpectedEof);
        }
        let data_offset = read_u32(data, 4).unwrap();
        let fragments_per_file = read_u32(data, 8).unwrap();
        let reserved_a = read_u32(data, 12).unwrap();
        let residual_offset = read_u32(data, 16).unwrap();
        let residual_count = read_u32(data, 20).unwrap();
        let reserved_b = read_u32(data, 24).unwrap();
        let fs_offset = read_u32(data, 28).unwrap();
        let fs_length = read_u32(data, 32).unwrap();
        Ok(Header {
            data_offset,
            fragments_per_file,
            reserved_a,
            fragments_residual_offset: residual_offset as u64,
            fragments_residual_count: residual_count as u64,
            reserved_b,
            fragmented_filesystem_offset: fs_offset as u64,
            fragmented_filesystem_length: fs_length as u64,
        })
    }

    /// Appends the header's 36 bytes to `out`; wide fields keep their low 32 bits.
    pub fn write(&self, out: &mut Vec<u8>)
        ensures
            final(out)@ == old(out)@ + self.spec_bytes(),
    {
        out.push(0x42);
        out.push(0x50);
        out.push(0x55);
        out.push(0x4C);
        assert(out@ =~= old(out)@ + hpk_sig());
        push_u32(out, self.data_offset);
        push_u32(out, self.fragments_per_file);
        push_u32(out, self.reserved_a);
        push_u32(out, self.fragments_residual_offset as u32);
        push_u32(out, self.fragments_residual_count as u32);
        push_u32(out, self.reserved_b);
        push_u32(out, self.fragmented_filesystem_offset as u32);
        push_u32(out, self.fragmented_filesystem_length as u32);
        assert(out@ =~= old(out)@ + self.spec_bytes());
    }

    /// The number of rows of the fragment table:
    /// `fragmented_filesystem_length / (8 * fragments_per_file)`.
    pub fn filesystem_entries(&self) -> (r: usize)
        requires
            self.fragments_per_file > 0,
        ensures
            r == self.spec_filesystem_entries(),
    {
        let len = self.fragmented_filesystem_length as u32 as u64;
        let per_row = 8 * (self.fragments_per_file as u64);
        assert(len / per_row <= len) by (nonlinear_arith)
            requires per_row >= 1;
        (len / per_row) as usize
    }
}

/// Reading a written header gives it back: its fields that fit 32 bits, and
/// the signature check passes.
#[verifier::rlimit(40)]
pub proof fn lemma_header_round_trip(h: Header, rest: Seq<u8>)
    requires
        h.fits(),
    ensures
        spec_read_header(h.spec_bytes() + rest) == Ok::<Header, HpkError>(h),
{
    let s = h.spec_bytes() + rest;
    let fields: Seq<u32> = seq![
        h.data_offset,
        h.fragments_per_file,
        h.reserved_a,
        h.fragments_residual_offset as u32,
        h.fragments_residual_count as u32,
        h.reserved_b,
        h.fragmented_filesystem_offset as u32,
        h.fragmented_filesystem_length as u32,
    ];
    assert(s.subrange(0, 4) =~= hpk_sig());
    assert forall|k: int| 0 <= k < 8 implies u32_field(s, 4 + 4 * k) == fields[k] by {
        lemma_u32_round_trip(fields[k]);
        assert(s.subrange(4 + 4 * k, 8 + 4 * k) =~= u32_le(fields[k]));
    }
    assert(u32_field(s, 4) == fields[0]);
    assert(u32_field(s, 8) == fields[1]);
    assert(u32_field(s, 12) == fields[2]);
    assert(u32_field(s, 16) == fields[3]);
    assert(u32_field(s, 20) == fields[4]);
    assert(u32_field(s, 24) == fields[5]);
    assert(u32_field(s, 28) == fields[6]);
    assert(u32_field(s, 32) == fields[7]);
}

/// A run of bytes of the archive: where it starts and how long it is.
#[derive(Clone, Copy, Debug, PartialEq, Eq, Structural)]
pub struct Fragment {
    pub offset: u64,
    pub length: u64,
}

impl Fragment {
    /// The eight bytes that `write` emits.
    pub open spec fn spec_bytes(self) -> Seq<u8> {
        u32_le(self.offset as u32) + u32_le(self.length as u32)
    }

    pub fn new(offset: u64, length: u64) -> (r: Fragment)
        ensures
            r.offset == offset,
            r.length == length,
    {
        Fragment { offset, length }
    }

    /// Reads the fragment at `pos` of `data`.
    pub fn read_from(data: &[u8], pos: usize) -> (r: Option<Fragment>)
        ensures
            r == (if pos + 8 <= data@.len() {
                Some(
                    Fragment {
                        offset: u32_field(data@, pos as int) as u64,
                        length: u32_field(data@, pos + 4) as u64,
                    },
                )
            } else {
                None::<Fragment>
            }),
    {
        if pos > data.len() || data.len() - pos < 8 {
            return None;
        }
        let offset = read_u32(data, pos).unwrap();
        let length = read_u32(data, pos + 4).unwrap();
        Some(Fragment { offset: offset as u64, length: length as u64 })
    }

    /// Reads `n` fragments stored back to back at `pos` of `data`.
    pub fn read_nth_from(n: usize, data: &[u8], pos: usize) -> (r: Option<Vec<Fragment>>)
        ensures
            r is Some <==> pos + 8 * n <= data@.len(),
            r matches Some(v) ==> v@.len() == n && forall|i: int|
                0 <= i < n ==> v@[i] == (Fragment {
                    offset: u32_field(data@, pos + 8 * i) as u64,
                    length: u32_field(data@, pos + 8 * i + 4) as u64,
                }),
    {
        if pos > data.len() || (data.len() - pos) / 8 < n {
            assert(pos + 8 * n > data@.len()) by (nonlinear_arith)
                requires
                    pos > data@.len() || (data@.len() - pos) / 8 < n,
            ;
            return None;
        }
        assert(pos + 8 * n <= data@.len()) by (nonlinear_arith)
            requires
                pos <= data@.len(),
                (data@.len() - pos) / 8 >= n,
        ;
        let mut v: Vec<Fragment> = Vec::with_capacity(n);
        let mut i: usize = 0;
        let len = data.len();
        while i < n
            invariant
                i <= n,
                len == data@.len(),
                pos + 8 * n <= data@.len(),
                v@.len() == i,
                forall|k: int|
                    0 <= k < i ==> v@[k] == (Fragment {
                        offset: u32_field(data@, pos + 8 * k) as u64,
                        length: u32_field(data@, pos + 8 * k + 4) as u64,
                    }),
            decreases n - i,
        {
            assert(pos + 8 * i + 8 <= pos + 8 * n) by (nonlinear_arith)
                requires
                    i < n,
            ;
            let f = Fragment::read_from(data, pos + 8 * i).unwrap();
            v.push(f);
            i = i + 1;
        }
        Some(v)
    }

    /// Appends the fragment's eight bytes to `out`; each field keeps its low 32 bits.
    pub fn write(&self, out: &mut Vec<u8>)
        ensures
            final(out)@ == old(out)@ + self.spec_bytes(),
    {
        push_u32(out, self.offset as u32);
        push_u32(out, self.length as u32);
        assert(out@ =~= old(out)@ + self.spec_bytes());
    }
}

/// Whether an entry is a file or a directory.
#[derive(Clone, Copy, Debug, PartialEq, Eq, Structural)]
pub enum EntryType {
    Dir,
    File,
}

impl EntryType {
    pub open spec fn spec_value(self) -> u32 {
        match self {
            EntryType::Dir => 1,
            EntryType::File => 0,
        }
    }

    /// A directory has the lowest bit of its kind set.
    pub open spec fn spec_from_value(value: u32) -> EntryType {
        if value % 2 == 1 {
            EntryType::Dir
        } else {
            EntryType::File
        }
    }

    pub fn to_value(self) -> (r: u32)
        ensures
            r == self.spec_value(),
    {
        match self {
            EntryType::Dir => 1,
            EntryType::File => 0,
        }
    }

    pub fn from_value(value: u32) -> (r: EntryType)
        ensures
            r == EntryType::spec_from_value(value),
    {
        if value % 2 == 1 {
            EntryType::Dir
        } else {
            EntryType::File
        }
    }
}

/// The path separator of archive paths.
pub const SEPARATOR: u8 = 0x2F;

/// `name` below `parent`; below the root (an empty path) it is `name` itself.
pub open spec fn join_path(parent: Seq<u8>, name: Seq<u8>) -> Seq<u8> {
    if parent.len() == 0 {
        name
    } else {
        parent + seq![SEPARATOR] + name
    }
}

/// The bytes of one directory entry.
pub open spec fn dir_entry_bytes(index: u32, kind: u32, name: Seq<u8>) -> Seq<u8> {
    u32_le(index) + u32_le(kind) + u16_le(name.len() as u16) + name
}

/// The last component of `path`: what follows its last separator.
pub open spec fn spec_file_name(path: Seq<u8>) -> Seq<u8>
    decreases path.len(),
{
    if path.len() == 0 {
        path
    } else if path.last() == SEPARATOR {
        seq![]
    } else {
        spec_file_name(path.drop_last()).push(path.last())
    }
}

/// Relies on `std::str::from_utf8`: it succeeds exactly on valid UTF-8.
#[verifier::external_body]
pub(crate) fn is_utf8(b: &[u8]) -> (r: bool)
    ensures
        r == vstd::utf8::valid_utf8(b@),
{
    std::str::from_utf8(b).is_ok()
}

/// `name` below `parent`.
pub fn join(parent: &[u8], name: &[u8]) -> (r: Vec<u8>)
    ensures
        r@ == join_path(parent@, name@),
{
    let mut r: Vec<u8> = Vec::new();
    if parent.len() == 0 {
        push_all(&mut r, name);
        assert(r@ =~= name@);
    } else {
        push_all(&mut r, parent);
        r.push(SEPARATOR);
        push_all(&mut r, name);
        assert(r@ =~= parent@ + seq![SEPARATOR] + name@);
    }
    r
}

/// An entry of the archive's file system.
#[derive(Clone, Debug)]
pub struct DirEntry {
    pub path: Vec<u8>,
    pub kind: EntryType,
    pub index: usize,
    pub depth: usize,
}

/// What reading a directory entry at `pos` of `s` below `parent` gives, with
/// the position after it.
pub open spec fn spec_read_dir_entry(parent: Seq<u8>, depth: usize, s: Seq<u8>, pos: int) -> HpkResult<
    (Seq<u8>, EntryType, usize, int),
> {
    if u32_at(s, pos) is None {
        Err(HpkError::UnexpectedEof)
    } else if u32_field(s, pos) == 0 {
        Err(HpkError::InvalidFragmentIndex)
    } else if pos + 10 > s.len() {
        Err(HpkError::UnexpectedEof)
    } else if pos + 10 + le_u16(s.subrange(pos + 8, pos + 10)) > s.len() {
        Err(HpkError::UnexpectedEof)
    } else if !vstd::utf8::valid_utf8(
        s.subrange(pos + 10, pos + 10 + le_u16(s.subrange(pos + 8, pos + 10))),
    ) {
        Err(HpkError::InvalidDirEntryName)
    } else {
        Ok(
            (
                join_path(
                    parent,
                    s.subrange(pos + 10, pos + 10 + le_u16(s.subrange(pos + 8, pos + 10))),
                ),
                EntryType::spec_from_value(u32_field(s, pos + 4)),
                (u32_field(s, pos) - 1) as usize,
                pos + 10 + le_u16(s.subrange(pos + 8, pos + 10)),
            ),
        )
    }
}

impl DirEntry {
    /// The entry's path, made of UTF-8 components separated by `/`.
    pub fn path(&self) -> (r: &[u8])
        ensures
            r@ == self.path@,
    {
        self.path.as_slice()
    }

    /// The entry's name: the last component of its path.
    pub fn file_name(&self) -> (r: Vec<u8>)
        ensures
            r@ == spec_file_name(self.path@),
    {
        let start = file_name_start(&self.path);
        copy_range(self.path.as_slice(), start, self.path.len())
    }

    /// The index of the entry's row in the fragment table.
    pub fn index(&self) -> (r: usize)
        ensures
            r == self.index,
    {
        self.index
    }

    /// How deep the entry lies: the root is at depth 0.
    pub fn depth(&self) -> (r: usize)
        ensures
            r == self.depth,
    {
        self.depth
    }

    pub fn is_dir(&self) -> (r: bool)
        ensures
            r == (self.kind == EntryType::Dir),
    {
        match self.kind {
            EntryType::Dir => true,
            EntryType::File => false,
        }
    }

    /// The root directory: empty path, row 0, depth 0.
    pub fn new_root() -> (r: DirEntry)
        ensures
            r.path@.len() == 0,
            r.kind == EntryType::Dir,
            r.index == 0,
            r.depth == 0,
    {
        DirEntry { path: Vec::new(), kind: EntryType::Dir, index: 0, depth: 0 }
    }

    pub fn new_dir(path: Vec<u8>, index: usize, depth: usize) -> (r: DirEntry)
        ensures
            r.path@ == path@,
            r.kind == EntryType::Dir,
            r.index == index,
            r.depth == depth,
    {
        DirEntry { path, kind: EntryType::Dir, index, depth }
    }

    pub fn new_file(path: Vec<u8>, index: usize, depth: usize) -> (r: DirEntry)
        ensures
            r.path@ == path@,
            r.kind == EntryType::File,
            r.index == index,
            r.depth == depth,
    {
        DirEntry { path, kind: EntryType::File, index, depth }
    }

    /// Reads the entry at `pos` of `data`, below the directory `parent` at
    /// depth `depth`; gives the entry and the position after it. The stored
    /// index is one-based; the entry keeps it zero-based.
    pub fn read_from(parent: &[u8], depth: usize, data: &[u8], pos: usize) -> (r: HpkResult<
        (DirEntry, usize),
    >)
        ensures
            r matches Ok((e, p)) ==> spec_read_dir_entry(parent@, depth, data@, pos as int) == Ok::<
                _,
                HpkError,
            >((e.path@, e.kind, e.index, p as int)) && e.depth == depth,
            r matches Err(err) ==> spec_read_dir_entry(parent@, depth, data@, pos as int) == Err::<
                (Seq<u8>, EntryType, usize, int),
                HpkError,
            >(err),
    {
        let raw_index = match read_u32(data, pos) {
            Some(v) => v,
            None => return Err(HpkError::UnexpectedEof),
        };
        if raw_index == 0 {
            return Err(HpkError::InvalidFragmentIndex);
        }
        if data.len() < 10 || pos > data.len() - 10 {
            return Err(HpkError::UnexpectedEof);
        }
        let kind_value = read_u32(data, pos + 4).unwrap();
        let name_len = read_u16(data, pos + 8).unwrap();
        if name_len as usize > data.len() - (pos + 10) {
            return Err(HpkError::UnexpectedEof);
        }
        let end = pos + 10 + name_len as usize;
        let name = copy_range(data, pos + 10, end);
        if !is_utf8(name.as_slice()) {
            return Err(HpkError::InvalidDirEntryName);
        }
        let path = join(parent, name.as_slice());
        let kind = EntryType::from_value(kind_value);
        Ok((DirEntry { path, kind, index: (raw_index - 1) as usize, depth }, end))
    }

    /// Appends the entry's bytes to `out`, with its index stored as given
    /// (the caller passes it one-based) and its last path component as name.
    /// A path without a name (empty, ending in `/` or in `..`), a name that is
    /// not UTF-8 or one too long to store is refused.
    pub fn write(&self, out: &mut Vec<u8>) -> (r: HpkResult<()>)
        ensures
            r is Ok <==> storable_name(spec_file_name(self.path@)),
            r is Ok ==> final(out)@ == old(out)@ + dir_entry_bytes(
                self.index as u32,
                self.kind.spec_value(),
                spec_file_name(self.path@),
            ),
            r is Err ==> r == Err::<(), HpkError>(HpkError::InvalidDirEntryName) && final(out)@
                == old(out)@,
    {
        let start = file_name_start(&self.path);
        let n = self.path.len() - start;
        if n == 0 || n > 65535 {
            return Err(HpkError::InvalidDirEntryName);
        }
        let name = copy_range(self.path.as_slice(), start, self.path.len());
        if n == 2 && name[0] == 0x2E && name[1] == 0x2E {
            assert(name@ =~= seq![0x2Eu8, 0x2Eu8]);
            return Err(HpkError::InvalidDirEntryName);
        }
        if !is_utf8(name.as_slice()) {
            return Err(HpkError::InvalidDirEntryName);
        }
        assert(name@ != seq![0x2Eu8, 0x2Eu8]) by {
            if name@ == seq![0x2Eu8, 0x2Eu8] {
                assert(name@[0] == 0x2Eu8 && name@[1] == 0x2Eu8);
            }
        }
        write_dir_entry(out, self.index as u32, self.kind.to_value(), name.as_slice());
        Ok(())
    }
}

/// Whether `name` can stand in a directory entry: present, not `..`, UTF-8,
/// and short enough for its 16-bit length.
pub open spec fn storable_name(name: Seq<u8>) -> bool {
    &&& name.len() > 0
    &&& name.len() <= u16::MAX
    &&& name != seq![0x2Eu8, 0x2Eu8]
    &&& vstd::utf8::valid_utf8(name)
}

proof fn lemma_file_name_step(path: Seq<u8>, i: int)
    requires
        0 < i <= path.len(),
        path[i - 1] != SEPARATOR,
    ensures
        spec_file_name(path.subrange(0, i)) + path.subrange(i, path.len() as int) == spec_file_name(
            path.subrange(0, i - 1),
        ) + path.subrange(i - 1, path.len() as int),
{
    let p = path.subrange(0, i);
    assert(p.drop_last() =~= path.subrange(0, i - 1));
    assert(p.last() == path[i - 1]);
    assert(spec_file_name(p) == spec_file_name(path.subrange(0, i - 1)).push(path[i - 1]));
    assert(spec_file_name(path.subrange(0, i - 1)).push(path[i - 1]) + path.subrange(
        i,
        path.len() as int,
    ) =~= spec_file_name(path.subrange(0, i - 1)) + path.subrange(i - 1, path.len() as int));
}

/// The position in `path` where its last component starts.
pub fn file_name_start(path: &Vec<u8>) -> (r: usize)
    ensures
        r <= path@.len(),
        path@.subrange(r as int, path@.len() as int) == spec_file_name(path@),
{
    let mut i: usize = path.len();
    assert(path@.subrange(0, i as int) =~= path@);
    assert(path@.subrange(i as int, i as int) =~= seq![]);
    assert(spec_file_name(path@) =~= spec_file_name(path@) + seq![]);
    while i > 0 && path[i - 1] != SEPARATOR
        invariant
            i <= path@.len(),
            spec_file_name(path@) == spec_file_name(path@.subrange(0, i as int)) + path@.subrange(
                i as int,
                path@.len() as int,
            ),
        decreases i,
    {
        proof {
            lemma_file_name_step(path@, i as int);
        }
        i = i - 1;
    }
    let ghost p = path@.subrange(0, i as int);
    if i > 0 {
        assert(p.last() == SEPARATOR);
        assert(spec_file_name(p) =~= seq![]);
    } else {
        assert(spec_file_name(p) =~= seq![]);
    }
    assert(spec_file_name(path@) =~= path@.subrange(i as int, path@.len() as int));
    i
}

/// Appends a directory entry with the given stored index, kind value and name.
pub fn write_dir_entry(out: &mut Vec<u8>, index: u32, kind: u32, name: &[u8])
    requires
        name@.len() <= u16::MAX,
    ensures
        final(out)@ == old(out)@ + dir_entry_bytes(index, kind, name@),
{
    push_u32(out, index);
    push_u32(out, kind);
    push_u16(out, name.len() as u16);
    push_all(out, name);
    assert(final(out)@ =~= old(out)@ + dir_entry_bytes(index, kind, name@));
}

/// Reading a written directory entry gives back its name below the parent,
/// its kind, and its index less one.
pub proof fn lemma_dir_entry_round_trip(
    parent: Seq<u8>,
    depth: usize,
    index: u32,
    kind: u32,
    name: Seq<u8>,
    rest: Seq<u8>,
)
    requires
        index >= 1,
        name.len() <= u16::MAX,
        vstd::utf8::valid_utf8(name),
    ensures
        spec_read_dir_entry(parent, depth, dir_entry_bytes(index, kind, name) + rest, 0) == Ok::<
            _,
            HpkError,
        >(
            (
                join_path(parent, name),
                EntryType::spec_from_value(kind),
                (index - 1) as usize,
                10 + name.len() as int,
            ),
        ),
{
    let s = dir_entry_bytes(index, kind, name) + rest;
    lemma_u32_round_trip(index);
    lemma_u32_round_trip(kind);
    lemma_u16_round_trip(name.len() as u16);
    assert(s.subrange(0, 4) =~= u32_le(index));
    assert(s.subrange(4, 8) =~= u32_le(kind));
    assert(s.subrange(8, 10) =~= u16_le(name.len() as u16));
    assert(s.subrange(10, 10 + name.len() as int) =~= name);
}

} // verus!
