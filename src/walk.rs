//! Walking the file system of an archive held in memory.
use vstd::prelude::*;
use crate::bytes::copy_range;
use crate::compression::{decode_payload, get_compression, spec_decode_payload, spec_detect, Compression};
use crate::error::{HpkError, HpkResult};
use crate::format::{spec_read_dir_entry, spec_read_header, DirEntry, EntryType, Fragment, Header};
use crate::reader::{fragments_total, row_in_bounds, row_stream, zeros, FragmentedReader};

verus! {

/// An open archive and the state of a depth-first walk over its entries.
pub struct HpkIter {
    pub data: Vec<u8>,
    pub compressed: bool,
    pub header: Header,
    pub start: Option<DirEntry>,
    pub fragments: Vec<Vec<Fragment>>,
    pub residuals: Vec<Fragment>,
    pub stack_list: Vec<Vec<DirEntry>>,
}

/// A row of fragments whose lengths are 32-bit values, as read from a file.
pub open spec fn row_fits(row: Seq<Fragment>) -> bool {
    &&& row.len() <= u32::MAX
    &&& forall|j: int| 0 <= j < row.len() ==> (#[trigger] row[j]).length <= u32::MAX
}

proof fn lemma_row_total(row: Seq<Fragment>, k: int)
    requires
        row_fits(row),
        0 <= k <= row.len(),
    ensures
        fragments_total(row, k) <= k * u32::MAX,
    decreases k,
{
    if k > 0 {
        lemma_row_total(row, k - 1);
        assert(row[k - 1].length <= u32::MAX);
    }
}

impl HpkIter {
    /// Every row fits, and every entry waiting on the stack refers to a row.
    pub open spec fn wf(self) -> bool {
        &&& self.header.fragments_per_file > 0
        &&& self.fragments@.len() == self.header.spec_filesystem_entries()
        &&& self.start matches Some(e) ==> e.kind == EntryType::Dir
        &&& forall|i: int| 0 <= i < self.fragments@.len() ==> row_fits(#[trigger] self.fragments@[i]@)
        &&& forall|i: int, j: int|
            0 <= i < self.stack_list@.len() && 0 <= j < self.stack_list@[i]@.len()
                ==> (#[trigger] self.stack_list@[i]@[j]).index < self.fragments@.len()
    }

    /// Whether the archive was compressed as a whole.
    pub fn is_compressed(&self) -> (r: bool)
        ensures
            r == self.compressed,
    {
        self.compressed
    }

    pub fn header(&self) -> (r: &Header)
        ensures
            *r == self.header,
    {
        &self.header
    }

    /// The walk's stack of listings, each entry as its path, kind, row and depth.
    pub open spec fn stack_view(self) -> Seq<Seq<EntryView>> {
        self.stack_list@.map_values(|l: Vec<DirEntry>| l@.map_values(|e: DirEntry| entry_view(e)))
    }

    /// What reading the listing of directory `path` (row `index`, at `depth`)
    /// gives: its entries one level deeper, or the first error.
    pub open spec fn spec_push(self, path: Seq<u8>, index: usize, depth: usize) -> HpkResult<Seq<EntryView>> {
        if index >= self.fragments@.len() || self.fragments@[index as int]@.len() == 0 {
            Err(HpkError::InvalidFragmentIndex)
        } else if self.fragments@[index as int]@[0].offset + self.fragments@[index as int]@[0].length
            > self.data@.len() {
            Err(HpkError::UnexpectedEof)
        } else if depth + 1 > usize::MAX {
            Err(HpkError::TooLarge)
        } else {
            spec_listing(
                path,
                (depth + 1) as usize,
                self.data@.subrange(
                    self.fragments@[index as int]@[0].offset as int,
                    self.fragments@[index as int]@[0].offset + self.fragments@[index as int]@[0].length,
                ),
                0,
                self.fragments@.len() as int,
            )
        }
    }

    /// Reads the entries of directory `dent` and puts them on the stack.
    fn push(&mut self, dent: &DirEntry) -> (r: HpkResult<()>)
        requires
            old(self).wf(),
        ensures
            final(self).wf(),
            final(self).fragments == old(self).fragments,
            final(self).data == old(self).data,
            final(self).header == old(self).header,
            final(self).compressed == old(self).compressed,
            final(self).start == old(self).start,
            final(self).residuals == old(self).residuals,
            match old(self).spec_push(dent.path@, dent.index, dent.depth) {
                Ok(ls) => r is Ok && final(self).stack_view() == old(self).stack_view().push(ls),
                Err(e) => r == Err::<(), HpkError>(e) && final(self).stack_view() == old(self).stack_view(),
            },
    {
        if dent.index >= self.fragments.len() || self.fragments[dent.index].len() == 0 {
            return Err(HpkError::InvalidFragmentIndex);
        }
        let f = self.fragments[dent.index][0];
        if f.offset > self.data.len() as u64 || f.length > self.data.len() as u64 - f.offset {
            return Err(HpkError::UnexpectedEof);
        }
        let depth = match dent.depth.checked_add(1) {
            Some(d) => d,
            None => return Err(HpkError::TooLarge),
        };
        let bytes = copy_range(self.data.as_slice(), f.offset as usize, (f.offset + f.length) as usize);
        let ghost rows = self.fragments@.len() as int;
        assert(old(self).spec_push(dent.path@, dent.index, dent.depth) == spec_listing(dent.path@, depth, bytes@, 0, rows));
        let mut list: Vec<DirEntry> = Vec::new();
        let mut pos: usize = 0;
        assert(list@.map_values(|e: DirEntry| entry_view(e)) =~= seq![]);
        assert(prepend(seq![], spec_listing(dent.path@, depth, bytes@, 0, rows)) == spec_listing(dent.path@, depth, bytes@, 0, rows)) by {
            match spec_listing(dent.path@, depth, bytes@, 0, rows) {
                Ok(ys) => { assert(seq![] + ys =~= ys); },
                Err(_) => {},
            }
        }
        while pos < bytes.len()
            invariant
                old(self).spec_push(dent.path@, dent.index, dent.depth) == spec_listing(dent.path@, depth, bytes@, 0, rows),
                *self == *old(self),
                old(self).wf(),
                dent.index < old(self).fragments@.len(),
                rows == self.fragments@.len(),
                forall|j: int| 0 <= j < list@.len() ==> (#[trigger] list@[j]).index < self.fragments@.len(),
                spec_listing(dent.path@, depth, bytes@, 0, rows) == prepend(
                    list@.map_values(|e: DirEntry| entry_view(e)),
                    spec_listing(dent.path@, depth, bytes@, pos as int, rows),
                ),
            decreases bytes@.len() - pos,
        {
            let ghost views = list@.map_values(|e: DirEntry| entry_view(e));
            let (entry, next) = match DirEntry::read_from(dent.path.as_slice(), depth, bytes.as_slice(), pos) {
                Ok(x) => x,
                Err(e) => {
                    assert(spec_listing(dent.path@, depth, bytes@, pos as int, rows) == Err::<Seq<EntryView>, HpkError>(e));
                    return Err(e);
                },
            };
            if entry.index >= self.fragments.len() {
                assert(spec_listing(dent.path@, depth, bytes@, pos as int, rows) == Err::<Seq<EntryView>, HpkError>(HpkError::InvalidFragmentIndex));
                return Err(HpkError::InvalidFragmentIndex);
            }
            if next <= pos {
                assert(spec_listing(dent.path@, depth, bytes@, pos as int, rows) == Err::<Seq<EntryView>, HpkError>(HpkError::UnexpectedEof));
                return Err(HpkError::UnexpectedEof);
            }
            list.push(entry);
            proof {
                assert(list@.map_values(|e: DirEntry| entry_view(e)) =~= views.push(entry_view(entry)));
                let rest = spec_listing(dent.path@, depth, bytes@, next as int, rows);
                match rest {
                    Ok(ys) => {
                        assert(views + (seq![entry_view(entry)] + ys) =~= views.push(entry_view(entry)) + ys);
                    },
                    Err(_) => {},
                }
            }
            pos = next;
        }
        proof {
            assert(views_empty_tail(dent.path@, depth, bytes@, pos as int, rows));
            assert(list@.map_values(|e: DirEntry| entry_view(e)) + seq![] =~= list@.map_values(
                |e: DirEntry| entry_view(e),
            ));
        }
        let ghost before = self.stack_list@;
        let ghost lv = list@.map_values(|e: DirEntry| entry_view(e));
        self.stack_list.push(list);
        assert(self.stack_view() =~= old(self).stack_view().push(lv));
        assert forall|i: int, j: int|
            0 <= i < self.stack_list@.len() && 0 <= j < self.stack_list@[i]@.len() implies
                (#[trigger] self.stack_list@[i]@[j]).index < self.fragments@.len() by {
            if i < before.len() {
                assert(self.stack_list@[i] == before[i]);
            }
        }
        Ok(())
    }

    /// An entry as the walk hands it out: a directory first has its entries
    /// read and put on the stack.
    fn handle_entry(&mut self, dent: DirEntry) -> (r: HpkResult<DirEntry>)
        requires
            old(self).wf(),
        ensures
            final(self).wf(),
            final(self).fragments == old(self).fragments,
            final(self).start == old(self).start,
            final(self).data == old(self).data,
            final(self).header == old(self).header,
            hands_out(*old(self), entry_view(dent), old(self).stack_view(), Some(r), final(self).stack_view()),
    {
        if dent.is_dir() {
            match self.push(&dent) {
                Ok(()) => {},
                Err(e) => return Err(e),
            }
        }
        Ok(dent)
    }

    /// The next entry of the walk, depth first: the root, then the first
    /// entry of the topmost listing that still has one, which leaves that
    /// listing; a directory's own listing is read and put on top as it is
    /// handed out, and where that fails its error is handed out instead.
    /// Exhausted listings are dropped; `None` once the root and every
    /// listing are used up.
    pub fn next(&mut self) -> (r: Option<HpkResult<DirEntry>>)
        requires
            old(self).wf(),
        ensures
            final(self).wf(),
            final(self).start is None,
            final(self).fragments == old(self).fragments,
            final(self).data == old(self).data,
            final(self).header == old(self).header,
            r matches Some(Ok(e)) ==> e.index < final(self).fragments@.len(),
            r matches Some(Ok(e)) ==> 1 <= e.index + 1 <= final(self).header.spec_filesystem_entries(),
            old(self).start matches Some(root) ==> hands_out(
                *old(self),
                entry_view(root),
                old(self).stack_view(),
                r,
                final(self).stack_view(),
            ),
            old(self).start is None && top_nonempty(old(self).stack_view(), old(self).stack_view().len() as int) < 0
                ==> r is None,
            old(self).start is None && top_nonempty(old(self).stack_view(), old(self).stack_view().len() as int) >= 0
                ==> ({
                let st = old(self).stack_view();
                let t = top_nonempty(st, st.len() as int);
                hands_out(*old(self), st[t][0], st.subrange(0, t).push(st[t].drop_first()), r, final(self).stack_view())
            }),
    {
        if self.start.is_some() {
            let dent = self.start.take().unwrap();
            let ghost before = *self;
            let res = self.handle_entry(dent);
            proof {
                assert(before.spec_push(dent.path@, dent.index, dent.depth) == old(self).spec_push(dent.path@, dent.index, dent.depth));
            }
            return Some(res);
        }
        let ghost st = old(self).stack_view();
        let ghost t = top_nonempty(st, st.len() as int);
        while self.stack_list.len() > 0
            invariant
                self.wf(),
                self.start is None,
                old(self).start is None,
                self.stack_list@.len() <= old(self).stack_list@.len(),
                self.fragments == old(self).fragments,
                self.data == old(self).data,
                self.header == old(self).header,
                st == old(self).stack_view(),
                t == top_nonempty(st, st.len() as int),
                self.stack_view() == st.subrange(0, self.stack_list@.len() as int),
                t == top_nonempty(st, self.stack_list@.len() as int),
            decreases self.stack_list@.len(),
        {
            let last = self.stack_list.len() - 1;
            let ghost sv = self.stack_view();
            assert(sv[last as int] == self.stack_list@[last as int]@.map_values(|e: DirEntry| entry_view(e)));
            assert(sv[last as int] == st[last as int]);
            if self.stack_list[last].len() == 0 {
                let ghost before = self.stack_list@;
                self.stack_list.pop();
                assert(self.stack_view() =~= st.subrange(0, self.stack_list@.len() as int));
                assert(st[last as int].len() == 0);
                assert forall|i: int, j: int|
                    0 <= i < self.stack_list@.len() && 0 <= j < self.stack_list@[i]@.len() implies
                        (#[trigger] self.stack_list@[i]@[j]).index < self.fragments@.len() by {
                    assert(self.stack_list@[i] == before[i]);
                }
            } else {
                let ghost before = self.stack_list@;
                assert(st[last as int].len() > 0);
                assert(t == last);
                let mut list = self.stack_list.pop().unwrap();
                assert(list@ == before[last as int]@);
                let dent = list.remove(0);
                assert(dent == before[last as int]@[0]);
                assert(st[t][0] == sv[last as int][0]);
                assert(entry_view(dent) == st[t][0]);
                let ghost rest = list@;
                assert(rest =~= before[last as int]@.drop_first());
                assert(rest.map_values(|e: DirEntry| entry_view(e)) =~= st[t].drop_first());
                self.stack_list.push(list);
                assert forall|i: int| 0 <= i < t implies #[trigger] self.stack_view()[i] == st[i] by {
                    assert(self.stack_list@[i] == before[i]);
                    assert(sv[i] == st[i]);
                }
                assert(self.stack_view()[t] == rest.map_values(|e: DirEntry| entry_view(e)));
                assert(self.stack_view() =~= st.subrange(0, t).push(st[t].drop_first()));
                assert forall|i: int, j: int|
                    0 <= i < self.stack_list@.len() && 0 <= j < self.stack_list@[i]@.len() implies
                        (#[trigger] self.stack_list@[i]@[j]).index < self.fragments@.len() by {
                    if i < last {
                        assert(self.stack_list@[i] == before[i]);
                    } else {
                        assert(self.stack_list@[i]@[j] == before[last as int]@[j + 1]);
                    }
                }
                let ghost mid = *self;
                let res = self.handle_entry(dent);
                proof {
                    assert(mid.spec_push(dent.path@, dent.index, dent.depth) == old(self).spec_push(dent.path@, dent.index, dent.depth));
                }
                return Some(res);
            }
        }
        assert(t < 0);
        None
    }
}

/// An entry's path, kind, row and depth.
pub type EntryView = (Seq<u8>, EntryType, usize, usize);

pub open spec fn entry_view(e: DirEntry) -> EntryView {
    (e.path@, e.kind, e.index, e.depth)
}

/// `xs` in front of the entries of `r`, or the error of `r`.
pub open spec fn prepend(xs: Seq<EntryView>, r: HpkResult<Seq<EntryView>>) -> HpkResult<Seq<EntryView>> {
    match r {
        Ok(ys) => Ok(xs + ys),
        Err(e) => Err(e),
    }
}

/// The entries of a directory listing `s` from `pos` on, below `parent` at
/// `depth`, in stored order; the first error where an entry does not read or
/// refers past the `rows` of the fragment table.
pub open spec fn spec_listing(parent: Seq<u8>, depth: usize, s: Seq<u8>, pos: int, rows: int) -> HpkResult<Seq<EntryView>>
    decreases s.len() - pos,
{
    if pos >= s.len() {
        Ok(seq![])
    } else {
        match spec_read_dir_entry(parent, depth, s, pos) {
            Err(e) => Err(e),
            Ok((path, kind, index, next)) => if index >= rows {
                Err(HpkError::InvalidFragmentIndex)
            } else if next <= pos {
                Err(HpkError::UnexpectedEof)
            } else {
                prepend(seq![(path, kind, index, depth)], spec_listing(parent, depth, s, next, rows))
            },
        }
    }
}

/// At the end of a listing nothing more is read.
pub open spec fn views_empty_tail(parent: Seq<u8>, depth: usize, s: Seq<u8>, pos: int, rows: int) -> bool {
    pos >= s.len() ==> spec_listing(parent, depth, s, pos, rows) == Ok::<Seq<EntryView>, HpkError>(seq![])
}

/// The topmost listing of `st` among the first `k` that still holds an entry; -1 if none.
pub open spec fn top_nonempty(st: Seq<Seq<EntryView>>, k: int) -> int
    decreases k,
{
    if k <= 0 {
        -1
    } else if st[k - 1].len() > 0 {
        k - 1
    } else {
        top_nonempty(st, k - 1)
    }
}

/// Handing out entry `x` from `it`, with the stack left as `base`: a file is
/// handed out as it is; a directory has its listing read and put on top, or
/// its error handed out in its place. `after` is the stack afterwards.
pub open spec fn hands_out(
    it: HpkIter,
    x: EntryView,
    base: Seq<Seq<EntryView>>,
    r: Option<HpkResult<DirEntry>>,
    after: Seq<Seq<EntryView>>,
) -> bool {
    if x.1 == EntryType::Dir {
        match it.spec_push(x.0, x.2, x.3) {
            Ok(ls) => (r matches Some(Ok(e)) && entry_view(e) == x) && after == base.push(ls),
            Err(err) => r == Some(Err::<DirEntry, HpkError>(err)) && after == base,
        }
    } else {
        (r matches Some(Ok(e)) && entry_view(e) == x) && after == base
    }
}

} // verus!

verus! {

/// The fragment stored at `pos` of `s`.
pub open spec fn fragment_at(s: Seq<u8>, pos: int) -> Fragment {
    Fragment { offset: crate::format::u32_field(s, pos) as u64, length: crate::format::u32_field(s, pos + 4) as u64 }
}

/// The bytes a walk reads the archive from: decoded where the file is
/// compressed as a whole.
pub open spec fn archive_bytes(file: Seq<u8>) -> HpkResult<Seq<u8>> {
    if spec_detect(file) != Compression::Stored {
        spec_decode_payload(file)
    } else {
        Ok(file)
    }
}

/// Whether the fragment table and the residual fragments that `h` names lie
/// inside `s`, and `h` has at least one fragment in a row.
pub open spec fn table_fits(s: Seq<u8>, h: Header) -> bool {
    &&& h.fragments_per_file > 0
    &&& h.fragmented_filesystem_offset + h.fragmented_filesystem_length <= s.len()
    &&& h.fragments_residual_offset + 8 * h.fragments_residual_count <= s.len()
}

/// Opens the archive `file`: decodes it where a codec tag starts it, reads
/// the header, the fragment table (one row of `fragments_per_file` fragments
/// for each entry) and the residual fragments, and starts the walk at the root.
pub fn walk(file: Vec<u8>) -> (r: HpkResult<HpkIter>)
    ensures
        archive_bytes(file@) matches Err(e) ==> r == Err::<HpkIter, HpkError>(e),
        archive_bytes(file@) is Ok && spec_read_header(archive_bytes(file@)->Ok_0) is Err ==> r
            == Err::<HpkIter, HpkError>(spec_read_header(archive_bytes(file@)->Ok_0)->Err_0),
        archive_bytes(file@) is Ok && spec_read_header(archive_bytes(file@)->Ok_0) is Ok
            && spec_read_header(archive_bytes(file@)->Ok_0)->Ok_0.fragments_per_file == 0 ==> r
            == Err::<HpkIter, HpkError>(HpkError::InvalidHeader),
        archive_bytes(file@) is Ok && spec_read_header(archive_bytes(file@)->Ok_0) is Ok && table_fits(
            archive_bytes(file@)->Ok_0,
            spec_read_header(archive_bytes(file@)->Ok_0)->Ok_0,
        ) ==> r is Ok,
        r matches Ok(it) ==> {
            &&& it.wf()
            &&& it.compressed == (spec_detect(file@) != Compression::Stored)
            &&& archive_bytes(file@) == Ok::<Seq<u8>, HpkError>(it.data@)
            &&& spec_read_header(it.data@) == Ok::<Header, HpkError>(it.header)
            &&& it.header.fragments_per_file > 0
            &&& it.fragments@.len() == it.header.spec_filesystem_entries()
            &&& forall|e: int| 0 <= e < it.fragments@.len() ==> (#[trigger] it.fragments@[e])@.len() == it.header.fragments_per_file
            &&& forall|e: int, j: int| 0 <= e < it.fragments@.len() && 0 <= j < it.header.fragments_per_file ==>
                (#[trigger] it.fragments@[e]@[j]) == fragment_at(it.data@, it.header.fragmented_filesystem_offset + 8 * (e * it.header.fragments_per_file + j))
            &&& it.residuals@.len() == it.header.fragments_residual_count
            &&& it.stack_list@.len() == 0
            &&& it.start matches Some(root) && root.index == 0 && root.depth == 0 && root.path@.len() == 0
        },
{
    let compressed = get_compression(file.as_slice()).is_compressed();
    let data = if compressed {
        match decode_payload(file.as_slice()) {
            Ok(d) => d,
            Err(e) => return Err(e),
        }
    } else {
        file
    };
    let hdr = match Header::read_from(data.as_slice()) {
        Ok(h) => h,
        Err(e) => return Err(e),
    };
    if hdr.fragments_per_file == 0 {
        return Err(HpkError::InvalidHeader);
    }
    let table_offset = hdr.fragmented_filesystem_offset;
    let table_length = hdr.fragmented_filesystem_length;
    if table_offset > data.len() as u64 || table_length > data.len() as u64 - table_offset {
        return Err(HpkError::UnexpectedEof);
    }
    let entries = hdr.filesystem_entries();
    let per = hdr.fragments_per_file as usize;
    let row_bytes: u64 = 8 * (hdr.fragments_per_file as u64);
    proof {
        assert(entries * row_bytes <= table_length) by (nonlinear_arith)
            requires
                entries == (table_length as u32) as int / (8 * hdr.fragments_per_file as int),
                row_bytes == 8 * hdr.fragments_per_file,
                table_length <= u32::MAX,
                hdr.fragments_per_file > 0,
        ;
    }
    let mut fragments: Vec<Vec<Fragment>> = Vec::new();
    let mut e: usize = 0;
    let mut pos: u64 = table_offset;
    let dlen = data.len();
    while e < entries
        invariant
            dlen == data@.len(),
            e <= entries,
            entries * row_bytes <= table_length,
            row_bytes == 8 * per,
            per == hdr.fragments_per_file,
            per > 0,
            pos == table_offset + e * row_bytes,
            table_offset + table_length <= data@.len(),
            table_offset == hdr.fragmented_filesystem_offset,
            fragments@.len() == e,
            forall|i: int| 0 <= i < e ==> (#[trigger] fragments@[i])@.len() == per,
            forall|i: int| 0 <= i < e ==> row_fits(#[trigger] fragments@[i]@),
            forall|i: int, j: int| 0 <= i < e && 0 <= j < per ==>
                (#[trigger] fragments@[i]@[j]) == fragment_at(data@, table_offset + 8 * (i * per + j)),
        decreases entries - e,
    {
        proof {
            assert(e * row_bytes + row_bytes <= entries * row_bytes) by (nonlinear_arith)
                requires
                    e < entries,
            ;
            assert(pos + row_bytes <= table_offset + table_length);
            assert(pos + 8 * per <= data@.len());
        }
        let ghost p = pos as int;
        let row = match Fragment::read_nth_from(per, data.as_slice(), pos as usize) {
            Some(row) => row,
            None => return Err(HpkError::UnexpectedEof),
        };
        proof {
            assert forall|j: int| 0 <= j < per implies #[trigger] row@[j] == fragment_at(data@, table_offset + 8 * (e * per + j)) by {
                assert(p + 8 * j == table_offset + 8 * (e * per + j)) by (nonlinear_arith)
                    requires
                        p == table_offset + e * row_bytes,
                        row_bytes == 8 * per,
                ;
                assert(row@[j] == (Fragment {
                    offset: crate::format::u32_field(data@, p + 8 * j) as u64,
                    length: crate::format::u32_field(data@, p + 8 * j + 4) as u64,
                }));
            }
            assert forall|j: int| 0 <= j < row@.len() implies (#[trigger] row@[j]).length <= u32::MAX by {
                crate::bytes::lemma_le_u32_bound(data@.subrange(pos + 8 * j + 4, pos + 8 * j + 8));
            }
        }
        fragments.push(row);
        pos = pos + row_bytes;
        e = e + 1;
        proof {
            assert(pos == table_offset + e * row_bytes) by (nonlinear_arith)
                requires
                    pos == table_offset + (e - 1) * row_bytes + row_bytes,
            ;
        }
    }
    let residual_count = hdr.fragments_residual_count as usize;
    let residual_offset = hdr.fragments_residual_offset;
    if residual_offset > data.len() as u64 {
        return Err(HpkError::UnexpectedEof);
    }
    let residuals = match Fragment::read_nth_from(residual_count, data.as_slice(), residual_offset as usize) {
        Some(v) => v,
        None => return Err(HpkError::UnexpectedEof),
    };
    let it = HpkIter {
        data,
        compressed,
        header: hdr,
        start: Some(DirEntry::new_root()),
        fragments,
        residuals,
        stack_list: Vec::new(),
    };
    Ok(it)
}

impl HpkIter {
    /// A reader over the runs of file `entry`; `None` for a directory.
    pub fn read_file(&self, entry: &DirEntry) -> (r: HpkResult<Option<FragmentedReader<'_>>>)
        requires
            self.wf(),
        ensures
            entry.kind == EntryType::Dir ==> r == Ok::<Option<FragmentedReader<'_>>, HpkError>(None),
            entry.kind == EntryType::File && entry.index >= self.fragments@.len() ==> r == Err::<
                Option<FragmentedReader<'_>>,
                HpkError,
            >(HpkError::InvalidFragmentIndex),
            entry.kind == EntryType::File && entry.index < self.fragments@.len() ==> r matches Ok(Some(_)),
            r matches Ok(Some(rd)) ==> {
                &&& entry.index < self.fragments@.len()
                &&& rd.wf()
                &&& rd.pos == 0
                &&& rd.inner@ == self.data@
                &&& rd.runs_are(self.fragments@[entry.index as int]@)
            },
    {
        if entry.is_dir() {
            return Ok(None);
        }
        if entry.index >= self.fragments.len() {
            return Err(HpkError::InvalidFragmentIndex);
        }
        let row = &self.fragments[entry.index];
        proof {
            assert(row_fits(row@));
            lemma_row_total(row@, row@.len() as int);
            assert(row@.len() * u32::MAX <= u32::MAX * u32::MAX) by (nonlinear_arith)
                requires
                    row@.len() <= u32::MAX,
            ;
        }
        let row_slice = row.as_slice();
        let rd = FragmentedReader::new(self.data.as_slice(), row_slice);
        assert(row_slice@ == self.fragments@[entry.index as int]@);
        Ok(Some(rd))
    }
}

} // verus!

verus! {

/// The bytes a reader has left: from its position to the end of its stream.
pub open spec fn rest_of_stream(r: FragmentedReader) -> Seq<u8> {
    if r.pos <= r.length {
        r.stream().subrange(r.pos as int, r.length as int)
    } else {
        seq![]
    }
}

/// The contents of the file that `r` reads, from its position on: decoded
/// where a codec tag starts them, as stored otherwise.
pub fn copy(r: &mut FragmentedReader) -> (res: HpkResult<Vec<u8>>)
    requires
        old(r).wf(),
    ensures
        final(r).wf(),
        !old(r).in_bounds() ==> res == Err::<Vec<u8>, HpkError>(HpkError::UnexpectedEof),
        old(r).in_bounds() && rest_of_stream(*old(r)).len() <= usize::MAX ==> (match res {
            Ok(v) => spec_decode_payload(rest_of_stream(*old(r))) == Ok::<Seq<u8>, HpkError>(v@),
            Err(e) => spec_decode_payload(rest_of_stream(*old(r))) == Err::<Seq<u8>, HpkError>(e),
        }),
{
    if !r.runs_in_bounds() {
        return Err(HpkError::UnexpectedEof);
    }
    let remaining: u64 = if r.pos <= r.length {
        r.length - r.pos
    } else {
        0
    };
    proof {
        r.lemma_stream_length();
    }
    if remaining > usize::MAX as u64 {
        return Err(HpkError::TooLarge);
    }
    let mut buf = zeros(remaining as usize);
    match r.read_exact(buf.as_mut_slice()) {
        Ok(()) => {},
        Err(e) => return Err(e),
    }
    proof {
        if remaining == 0 {
            assert(buf@ =~= rest_of_stream(*old(r)));
        }
    }
    decode_payload(buf.as_slice())
}

} // verus!

verus! {

/// What extracting an entry does.
#[derive(Clone, Copy, Debug, PartialEq, Eq, Structural)]
pub enum ExtractAction {
    /// Create the directory.
    MakeDir,
    /// Read the times in `_filedates` and set them on the extracted files.
    Filedates,
    /// Write the file with its Lua header fixed.
    FixLua,
    /// Write the file as it decodes.
    Copy,
}

/// What extracting `entry` does: a directory is created; `_filedates` at the
/// root is applied unless that is skipped; a `.lua` file is fixed where
/// that is asked for; any other file is copied.
pub open spec fn spec_extract_action(skip_filedates: bool, fix_lua_files: bool, kind: EntryType, depth: usize, path: Seq<u8>) -> ExtractAction {
    if kind == EntryType::Dir {
        ExtractAction::MakeDir
    } else if !skip_filedates && depth == 1 && path == crate::create::filedates_name() {
        ExtractAction::Filedates
    } else if fix_lua_files && crate::create::spec_extension(crate::format::spec_file_name(path)) == crate::create::lua_ext() {
        ExtractAction::FixLua
    } else {
        ExtractAction::Copy
    }
}

pub fn extract_action(skip_filedates: bool, fix_lua_files: bool, entry: &DirEntry) -> (r: ExtractAction)
    ensures
        r == spec_extract_action(skip_filedates, fix_lua_files, entry.kind, entry.depth, entry.path@),
{
    if entry.is_dir() {
        return ExtractAction::MakeDir;
    }
    let name = crate::bytes::copy_range(entry.path.as_slice(), crate::format::file_name_start(&entry.path), entry.path.len());
    let filedates = crate::create::filedates_name_bytes();
    if !skip_filedates && entry.depth == 1 && crate::create::bytes_equal(entry.path.as_slice(), filedates.as_slice()) {
        return ExtractAction::Filedates;
    }
    let ext = crate::create::extension(name.as_slice());
    if fix_lua_files && crate::create::bytes_equal(ext.as_slice(), crate::create::lua_bytes().as_slice()) {
        ExtractAction::FixLua
    } else {
        ExtractAction::Copy
    }
}

impl HpkIter {
    /// The bytes that extracting file `entry` writes: its contents decoded,
    /// with the Lua header fixed where `fix_lua` is set.
    pub fn extract_file(&self, entry: &DirEntry, fix_lua: bool) -> (r: HpkResult<Vec<u8>>)
        requires
            self.wf(),
            entry.kind == EntryType::File,
        ensures
            entry.index >= self.fragments@.len() ==> r == Err::<Vec<u8>, HpkError>(HpkError::InvalidFragmentIndex),
            entry.index < self.fragments@.len() && !row_in_bounds(self.data@, self.fragments@[entry.index as int]@)
                ==> r == Err::<Vec<u8>, HpkError>(HpkError::UnexpectedEof),
            entry.index < self.fragments@.len() && row_in_bounds(self.data@, self.fragments@[entry.index as int]@)
                && row_stream(self.data@, self.fragments@[entry.index as int]@).len() <= usize::MAX ==> match r {
                Ok(v) => spec_decode_payload(row_stream(self.data@, self.fragments@[entry.index as int]@)) matches Ok(d)
                    && v@ == (if fix_lua { crate::lua::spec_fix(d) } else { d }),
                Err(e) => spec_decode_payload(row_stream(self.data@, self.fragments@[entry.index as int]@)) == Err::<Seq<u8>, HpkError>(e),
            },
    {
        let mut rd = match self.read_file(entry) {
            Ok(Some(rd)) => rd,
            Ok(None) => return Ok(Vec::new()),
            Err(e) => return Err(e),
        };
        proof {
            rd.lemma_row_stream(self.fragments@[entry.index as int]@);
            if rd.in_bounds() {
                rd.lemma_stream_length();
                assert(rd.stream().subrange(0, rd.length as int) =~= rd.stream());
                assert(rest_of_stream(rd) == rd.stream());
            }
        }
        let contents = match copy(&mut rd) {
            Ok(c) => c,
            Err(e) => return Err(e),
        };
        if fix_lua {
            Ok(crate::lua::fix_header(contents.as_slice()))
        } else {
            Ok(contents)
        }
    }
}

} // verus!

verus! {

/// An archive starts with `BPUL`, which is no codec tag: a walk reads it as it is.
pub proof fn lemma_archive_is_stored(a: Seq<u8>)
    requires
        a.len() >= 4,
        a.subrange(0, 4) == crate::format::hpk_sig(),
    ensures
        spec_detect(a) == Compression::Stored,
        archive_bytes(a) == Ok::<Seq<u8>, HpkError>(a),
{
    assert(a.subrange(0, 4)[0] != crate::compression::zlib_tag()[0]);
    assert(a.subrange(0, 4)[0] != crate::compression::lz4_tag()[0]);
    assert(a.subrange(0, 4)[0] != crate::compression::zstd_tag()[0]);
}

/// A compressed archive is recognised by its codec's tag, whatever its own
/// first bytes were, and a walk decompresses it before reading the header.
pub proof fn lemma_outer_detection(c: Compression, chunk_size: u32, a: Seq<u8>)
    requires
        c == Compression::Zlib || c == Compression::Lz4,
    ensures
        spec_detect(crate::compression::compressed_bytes(c, chunk_size, a)) == c,
        archive_bytes(crate::compression::compressed_bytes(c, chunk_size, a)) == crate::compression::spec_decompress(
            crate::compression::compressed_bytes(c, chunk_size, a),
        ),
{
    crate::compression::lemma_compressed_tag(c, chunk_size, a);
}

} // verus!

verus! {

/// An archive laid out as `create` lays it out (uncompressed, its fragment
/// table last, no residual fragments) opens: a walk reads it as it is, finds
/// the table inside it, and has one row for each eight bytes of the table.
pub proof fn lemma_created_archive_opens(v: Seq<u8>, count: int)
    requires
        v.len() >= 4,
        v.subrange(0, 4) == crate::format::hpk_sig(),
        spec_read_header(v) is Ok,
        spec_read_header(v)->Ok_0.fragments_per_file == 1,
        spec_read_header(v)->Ok_0.fragmented_filesystem_length == 8 * count,
        spec_read_header(v)->Ok_0.fragmented_filesystem_offset
            + spec_read_header(v)->Ok_0.fragmented_filesystem_length == v.len(),
        spec_read_header(v)->Ok_0.fragments_residual_offset == 0,
        spec_read_header(v)->Ok_0.fragments_residual_count == 0,
    ensures
        archive_bytes(v) == Ok::<Seq<u8>, HpkError>(v),
        table_fits(v, spec_read_header(v)->Ok_0),
        spec_read_header(v)->Ok_0.spec_filesystem_entries() == count,
{
    lemma_archive_is_stored(v);
    let h = spec_read_header(v)->Ok_0;
    assert(h.fragmented_filesystem_length <= u32::MAX);
    assert((8 * count) / 8 == count);
}

} // verus!

verus! {

/// The archive `create` builds, where it fits 32 bits, opens: a walk reads
/// it as it is, finds its fragment table inside it with one row for each
/// written row, and each row's fragment points at exactly that row, a file's
/// payload or a directory's listing (row 0 the root's).
pub proof fn lemma_created_archive_walks(options: crate::create::CreateOptions, entries: Seq<crate::create::SourceEntry>)
    requires
        crate::create::spec_archive(options, entries).len() <= u32::MAX,
    ensures
        ({
            let v = crate::create::spec_archive(options, entries);
            let rows = options.written_rows(entries);
            let h = spec_read_header(v)->Ok_0;
            &&& archive_bytes(v) == Ok::<Seq<u8>, HpkError>(v)
            &&& spec_read_header(v) is Ok
            &&& h.fragments_per_file == 1
            &&& table_fits(v, h)
            &&& h.spec_filesystem_entries() == rows.len()
            &&& forall|k: int| 0 <= k < rows.len() ==> {
                let f = crate::create::row_fragment(rows, if k == 0 { rows.len() - 1 } else { k - 1 });
                &&& #[trigger] fragment_at(v, h.fragmented_filesystem_offset + 8 * k) == f
                &&& v.subrange(f.offset as int, f.offset + f.length) == rows[if k == 0 { rows.len() - 1 } else { k - 1 }]
            }
        }),
{
    let v = crate::create::spec_archive(options, entries);
    let rows = options.written_rows(entries);
    crate::create::lemma_archive_header(options, entries);
    let h = spec_read_header(v)->Ok_0;
    assert(crate::create::table_fragments(rows).len() == rows.len());
    lemma_created_archive_opens(v, rows.len() as int);
    assert forall|k: int| 0 <= k < rows.len() implies {
        let f = crate::create::row_fragment(rows, if k == 0 { rows.len() - 1 } else { k - 1 });
        &&& #[trigger] fragment_at(v, h.fragmented_filesystem_offset + 8 * k) == f
        &&& v.subrange(f.offset as int, f.offset + f.length) == rows[if k == 0 { rows.len() - 1 } else { k - 1 }]
    } by {
        crate::create::lemma_created_rows(options, entries, k);
    }
}

} // verus!

verus! {

/// A directory entry to be stored: one-based index, kind value and name.
pub type StoredEntry = (u32, u32, Seq<u8>);

/// The bytes of `items`, one directory entry after another.
pub open spec fn items_bytes(items: Seq<StoredEntry>) -> Seq<u8>
    decreases items.len(),
{
    if items.len() == 0 {
        seq![]
    } else {
        crate::format::dir_entry_bytes(items[0].0, items[0].1, items[0].2) + items_bytes(items.drop_first())
    }
}

/// What a walk reads from the stored `items` below `parent` at `depth`.
pub open spec fn items_view(parent: Seq<u8>, depth: usize, items: Seq<StoredEntry>) -> Seq<EntryView> {
    items.map_values(
        |x: StoredEntry|
            (
                crate::format::join_path(parent, x.2),
                EntryType::spec_from_value(x.1),
                (x.0 - 1) as usize,
                depth,
            ),
    )
}

/// Whether every item can be read back: a name that is present, UTF-8 and
/// short enough, and an index between 1 and `rows`.
pub open spec fn items_readable(items: Seq<StoredEntry>, rows: int) -> bool {
    forall|i: int|
        0 <= i < items.len() ==> 1 <= (#[trigger] items[i]).0 <= rows && items[i].2.len() <= u16::MAX
            && vstd::utf8::valid_utf8(items[i].2)
}

/// Reading at `a.len() + pos` of `a + s` reads at `pos` of `s`.
proof fn lemma_read_shift(parent: Seq<u8>, depth: usize, a: Seq<u8>, s: Seq<u8>, pos: int)
    requires
        0 <= pos < s.len(),
    ensures
        match spec_read_dir_entry(parent, depth, s, pos) {
            Ok((p, k, i, next)) => spec_read_dir_entry(parent, depth, a + s, a.len() + pos) == Ok::<_, HpkError>(
                (p, k, i, a.len() + next),
            ),
            Err(e) => spec_read_dir_entry(parent, depth, a + s, a.len() + pos) == Err::<
                (Seq<u8>, EntryType, usize, int),
                HpkError,
            >(e),
        },
{
    let t = a + s;
    let o = a.len() as int;
    assert forall|x: int, y: int| 0 <= x <= y <= s.len() implies #[trigger] t.subrange(o + x, o + y) == s.subrange(x, y) by {
        assert(t.subrange(o + x, o + y) =~= s.subrange(x, y));
    }
    if pos + 4 <= s.len() {
        assert(t.subrange(o + pos, o + pos + 4) == s.subrange(pos, pos + 4));
    }
    if pos + 10 <= s.len() {
        assert(t.subrange(o + pos + 4, o + pos + 8) == s.subrange(pos + 4, pos + 8));
        assert(t.subrange(o + pos + 8, o + pos + 10) == s.subrange(pos + 8, pos + 10));
        let n = crate::bytes::le_u16(s.subrange(pos + 8, pos + 10));
        if pos + 10 + n <= s.len() {
            assert(t.subrange(o + pos + 10, o + pos + 10 + n) == s.subrange(pos + 10, pos + 10 + n));
        }
    }
}

/// Reading a listing from `a.len() + pos` of `a + s` reads it from `pos` of `s`.
proof fn lemma_listing_shift(parent: Seq<u8>, depth: usize, a: Seq<u8>, s: Seq<u8>, pos: int, rows: int)
    requires
        0 <= pos,
    ensures
        spec_listing(parent, depth, a + s, a.len() + pos, rows) == spec_listing(parent, depth, s, pos, rows),
    decreases s.len() - pos,
{
    if pos < s.len() {
        lemma_read_shift(parent, depth, a, s, pos);
        match spec_read_dir_entry(parent, depth, s, pos) {
            Ok((p, k, i, next)) => {
                if i < rows && next > pos {
                    lemma_listing_shift(parent, depth, a, s, next, rows);
                }
            },
            Err(_) => {},
        }
    }
}

/// A listing made of directory entries reads back as exactly those entries,
/// in stored order: each one's name below `parent`, its kind, its stored
/// index less one, and `depth`.
pub proof fn lemma_listing_reads_back(parent: Seq<u8>, depth: usize, items: Seq<StoredEntry>, rows: int)
    requires
        items_readable(items, rows),
    ensures
        spec_listing(parent, depth, items_bytes(items), 0, rows) == Ok::<Seq<EntryView>, HpkError>(
            items_view(parent, depth, items),
        ),
    decreases items.len(),
{
    if items.len() == 0 {
        assert(items_view(parent, depth, items) =~= seq![]);
    } else {
        let x = items[0];
        let rest = items.drop_first();
        let a = crate::format::dir_entry_bytes(x.0, x.1, x.2);
        assert(items_readable(rest, rows)) by {
            assert forall|i: int| 0 <= i < rest.len() implies 1 <= (#[trigger] rest[i]).0 <= rows
                && rest[i].2.len() <= u16::MAX && vstd::utf8::valid_utf8(rest[i].2) by {
                assert(rest[i] == items[i + 1]);
            }
        }
        lemma_listing_reads_back(parent, depth, rest, rows);
        crate::format::lemma_dir_entry_round_trip(parent, depth, x.0, x.1, x.2, items_bytes(rest));
        lemma_listing_shift(parent, depth, a, items_bytes(rest), 0, rows);
        assert(a.len() == 10 + x.2.len()) by {
            crate::bytes::lemma_u32_round_trip(x.0);
            crate::bytes::lemma_u16_round_trip(x.2.len() as u16);
        }
        assert(a + items_bytes(rest) == items_bytes(items));
        assert(a.len() + 0 == 10 + x.2.len());
        assert(items_view(parent, depth, items) =~= seq![(
            crate::format::join_path(parent, x.2),
            EntryType::spec_from_value(x.1),
            (x.0 - 1) as usize,
            depth,
        )] + items_view(parent, depth, rest));
    }
}

} // verus!

verus! {

/// The directory entries `pending` writes, as items.
pub open spec fn pending_items(entries: Seq<crate::create::SourceEntry>, k: int, d: int) -> Seq<StoredEntry>
    decreases k,
{
    if k <= 0 {
        seq![]
    } else {
        let e = entries[k - 1];
        if e.is_dir && d == e.depth + 1 {
            seq![]
        } else if d == e.depth && e.depth > 0 {
            pending_items(entries, k - 1, d).push(((k + 1) as u32, crate::create::kind_value(e), e.name@))
        } else {
            pending_items(entries, k - 1, d)
        }
    }
}

proof fn lemma_items_bytes_push(xs: Seq<StoredEntry>, x: StoredEntry)
    ensures
        items_bytes(xs.push(x)) == items_bytes(xs) + crate::format::dir_entry_bytes(x.0, x.1, x.2),
    decreases xs.len(),
{
    if xs.len() == 0 {
        assert(xs.push(x).drop_first() =~= seq![]);
        assert(items_bytes(seq![]) =~= seq![]);
        assert(crate::format::dir_entry_bytes(x.0, x.1, x.2) + seq![] =~= crate::format::dir_entry_bytes(x.0, x.1, x.2));
        assert(seq![] + crate::format::dir_entry_bytes(x.0, x.1, x.2) =~= crate::format::dir_entry_bytes(x.0, x.1, x.2));
    } else {
        lemma_items_bytes_push(xs.drop_first(), x);
        assert(xs.push(x).drop_first() =~= xs.drop_first().push(x));
        let a = crate::format::dir_entry_bytes(xs[0].0, xs[0].1, xs[0].2);
        let b = crate::format::dir_entry_bytes(x.0, x.1, x.2);
        assert(a + (items_bytes(xs.drop_first()) + b) =~= a + items_bytes(xs.drop_first()) + b);
    }
}

/// `pending` is the bytes of `pending_items`; each item is stored with the
/// index `j + 2` of some entry `j` below `k` at depth `d`.
proof fn lemma_pending_items(entries: Seq<crate::create::SourceEntry>, k: int, d: int)
    requires
        0 <= k <= entries.len(),
    ensures
        crate::create::pending(entries, k, d) == items_bytes(pending_items(entries, k, d)),
        forall|i: int| 0 <= i < pending_items(entries, k, d).len() ==> exists|j: int|
            0 <= j < k && entries[j].depth == d && d > 0 && (#[trigger] pending_items(entries, k, d)[i]).0 == (j + 2) as u32
                && pending_items(entries, k, d)[i].2 == entries[j].name@,
    decreases k,
{
    if k > 0 {
        lemma_pending_items(entries, k - 1, d);
        let e = entries[k - 1];
        if e.is_dir && d == e.depth + 1 {
            assert(items_bytes(seq![]) =~= seq![]);
        } else if d == e.depth && e.depth > 0 {
            let xs = pending_items(entries, k - 1, d);
            let x = ((k + 1) as u32, crate::create::kind_value(e), e.name@);
            lemma_items_bytes_push(xs, x);
            assert forall|i: int| 0 <= i < xs.push(x).len() implies exists|j: int|
                0 <= j < k && entries[j].depth == d && d > 0 && (#[trigger] xs.push(x)[i]).0 == (j + 2) as u32
                    && xs.push(x)[i].2 == entries[j].name@ by {
                if i == xs.len() {
                    assert(entries[k - 1].depth == d);
                } else {
                    assert(xs.push(x)[i] == xs[i]);
                }
            }
        }
    }
}

/// The items a created directory row holds: for row 0 the root's children,
/// then `_filedates` where it is written; for row `k` the children of entry
/// `k - 1`.
pub open spec fn created_items(
    options: crate::create::CreateOptions,
    entries: Seq<crate::create::SourceEntry>,
    k: int,
) -> Seq<StoredEntry> {
    if k == 0 {
        if options.filedates_fmt is Some {
            pending_items(entries, entries.len() - 1, 1).push(
                ((entries.len() + 1) as u32, 0u32, crate::create::filedates_name()),
            )
        } else {
            pending_items(entries, entries.len() - 1, 1)
        }
    } else {
        pending_items(entries, k - 1, entries[k - 1].depth + 1)
    }
}

/// Reading the directory in row `k` reads the bytes its one fragment points at.
proof fn lemma_push_row(it: HpkIter, path: Seq<u8>, depth: usize, k: int, bytes: Seq<u8>)
    requires
        0 <= k < it.fragments@.len(),
        it.fragments@[k]@.len() == 1,
        it.fragments@[k]@[0].offset + it.fragments@[k]@[0].length <= it.data@.len(),
        it.data@.subrange(
            it.fragments@[k]@[0].offset as int,
            it.fragments@[k]@[0].offset + it.fragments@[k]@[0].length,
        ) == bytes,
        depth < usize::MAX,
        k <= usize::MAX,
    ensures
        it.spec_push(path, k as usize, depth) == spec_listing(
            path,
            (depth + 1) as usize,
            bytes,
            0,
            it.fragments@.len() as int,
        ),
{
    assert((k as usize) as int == k);
}

/// The bytes of created directory row `k` are its items, each readable.
proof fn lemma_created_row_items(
    options: crate::create::CreateOptions,
    entries: Seq<crate::create::SourceEntry>,
    k: int,
)
    requires
        crate::create::post_order(entries),
        !crate::create::has_bad_entry(entries),
        entries.len() + 2 <= u32::MAX,
        k == 0 || (1 <= k < entries.len() && entries[k - 1].is_dir),
    ensures
        ({
            let rows = options.written_rows(entries);
            &&& rows[if k == 0 { rows.len() - 1 } else { k - 1 }] == items_bytes(created_items(options, entries, k))
            &&& items_readable(created_items(options, entries, k), rows.len() as int)
        }),
{
    let rows = options.written_rows(entries);
    let n = entries.len() as int;
    let m = rows.len() as int;
    let items = created_items(options, entries, k);
    let d = if k == 0 { 1 } else { entries[k - 1].depth + 1 };
    let upto = if k == 0 { n - 1 } else { k - 1 };
    let base = pending_items(entries, upto, d);
    lemma_pending_items(entries, upto, d);
    assert(m >= n);
    if k == 0 {
        if options.filedates_fmt is Some {
            let x = ((n + 1) as u32, 0u32, crate::create::filedates_name());
            lemma_items_bytes_push(base, x);
            assert(m == n + 1);
            assert(rows[m - 1] == options.root_listing(entries));
        } else {
            assert(options.root_listing(entries) =~= crate::create::pending(entries, n - 1, 1));
        }
    } else {
        assert(rows[k - 1] == options.entry_row(entries, k - 1));
    }
    assert forall|i: int| 0 <= i < items.len() implies 1 <= (#[trigger] items[i]).0 <= m
        && items[i].2.len() <= u16::MAX && vstd::utf8::valid_utf8(items[i].2) by {
        if i < base.len() {
            assert(items[i] == base[i]);
            let w = choose|w: int|
                0 <= w < upto && entries[w].depth == d && d > 0 && base[i].0 == (w + 2) as u32
                    && base[i].2 == entries[w].name@;
            assert(!crate::create::bad_entry(entries, w));
            assert(entries[w].depth > 0);
            assert(w + 2 <= n);
        } else {
            let name = crate::create::filedates_name();
            assert forall|t: int| 0 <= t < name.len() implies #[trigger] name[t] < 0x80 by {}
            lemma_ascii_is_utf8(name);
        }
    }
}

/// In a walk over the archive `create` builds, reading the directory in row
/// `k` (the root in row 0, entry `k - 1` otherwise) gives exactly the entries
/// `create` listed there, in order: each name below the directory's path,
/// one level deeper, with its kind and its row.
#[verifier::spinoff_prover]
#[verifier::rlimit(80)]
pub proof fn lemma_created_listing(
    options: crate::create::CreateOptions,
    entries: Seq<crate::create::SourceEntry>,
    it: HpkIter,
    path: Seq<u8>,
    depth: usize,
    k: int,
)
    requires
        crate::create::post_order(entries),
        !crate::create::has_bad_entry(entries),
        crate::create::spec_archive(options, entries).len() <= u32::MAX,
        entries.len() + 2 <= u32::MAX,
        it.data@ == crate::create::spec_archive(options, entries),
        it.fragments@.len() == options.written_rows(entries).len(),
        forall|e: int| 0 <= e < it.fragments@.len() ==> (#[trigger] it.fragments@[e])@.len() == 1
            && it.fragments@[e]@[0] == fragment_at(
            it.data@,
            spec_read_header(it.data@)->Ok_0.fragmented_filesystem_offset + 8 * e,
        ),
        depth < usize::MAX,
        k == 0 || (1 <= k < entries.len() && entries[k - 1].is_dir),
    ensures
        it.spec_push(path, k as usize, depth) == Ok::<Seq<EntryView>, HpkError>(
            items_view(path, (depth + 1) as usize, created_items(options, entries, k)),
        ),
{
    let rows = options.written_rows(entries);
    let n = rows.len() as int;
    lemma_created_row_items(options, entries, k);
    crate::create::lemma_archive_header(options, entries);
    crate::create::lemma_created_rows(options, entries, k);
    let j = if k == 0 { n - 1 } else { k - 1 };
    let table = 36 + crate::compression::concat(rows).len();
    assert(spec_read_header(it.data@)->Ok_0.fragmented_filesystem_offset == table);
    assert(it.fragments@[k]@[0] == fragment_at(it.data@, table + 8 * k));
    assert(it.fragments@[k]@[0] == crate::create::row_fragment(rows, j));
    lemma_push_row(it, path, depth, k, rows[j]);
    lemma_listing_reads_back(path, (depth + 1) as usize, created_items(options, entries, k), n);
}

} // verus!

verus! {

/// Bytes below 0x80 are valid UTF-8: each is a character of its own.
pub proof fn lemma_ascii_is_utf8(s: Seq<u8>)
    requires
        forall|i: int| 0 <= i < s.len() ==> #[trigger] s[i] < 0x80,
    ensures
        vstd::utf8::valid_utf8(s),
    decreases s.len(),
{
    if s.len() > 0 {
        let rest = s.subrange(1, s.len() as int);
        assert(vstd::utf8::length_of_first_scalar(s) == 1);
        assert(vstd::utf8::valid_first_scalar(s));
        assert(vstd::utf8::pop_first_scalar(s) =~= rest);
        assert forall|i: int| 0 <= i < rest.len() implies #[trigger] rest[i] < 0x80 by {
            assert(rest[i] == s[i + 1]);
        }
        lemma_ascii_is_utf8(rest);
    }
}

} // verus!

verus! {

/// In the archive `create` builds, the stream of a file's row (row `k`, for
/// entry `k - 1`) is the file's payload, and reading it back decodes that
/// payload: a compressed file gives each chunk as its codec decodes its
/// encoding; a stored file gives its body, unless that body itself starts
/// with a codec tag.
pub proof fn lemma_created_file_contents(
    options: crate::create::CreateOptions,
    entries: Seq<crate::create::SourceEntry>,
    k: int,
)
    requires
        options.wf(),
        crate::create::spec_archive(options, entries).len() <= u32::MAX,
        1 <= k < options.written_rows(entries).len(),
        k - 1 < entries.len() - 1,
        !entries[k - 1].is_dir,
        options.payload_fits(entries[k - 1].name@, entries[k - 1].contents@),
    ensures
        ({
            let v = crate::create::spec_archive(options, entries);
            let rows = options.written_rows(entries);
            let e = entries[k - 1];
            let body = options.spec_body(e.name@, e.contents@);
            let c = options.compress_options.compressor;
            let size = options.compress_options.chunk_size;
            &&& crate::reader::row_stream(v, seq![crate::create::row_fragment(rows, k - 1)]) == options.spec_payload(
                e.name@,
                e.contents@,
            )
            &&& options.compresses(crate::create::spec_extension(e.name@)) ==> spec_decode_payload(
                options.spec_payload(e.name@, e.contents@),
            ) == Ok::<Seq<u8>, HpkError>(
                crate::compression::concat(
                    crate::compression::encoded_pieces(c, size, body).map_values(
                        |p: Seq<u8>| crate::compression::restore(c, p),
                    ),
                ),
            )
            &&& !options.compresses(crate::create::spec_extension(e.name@)) && spec_detect(body)
                == Compression::Stored ==> spec_decode_payload(options.spec_payload(e.name@, e.contents@))
                == Ok::<Seq<u8>, HpkError>(body)
        }),
{
    let v = crate::create::spec_archive(options, entries);
    let rows = options.written_rows(entries);
    let e = entries[k - 1];
    let f = crate::create::row_fragment(rows, k - 1);
    crate::create::lemma_created_rows(options, entries, k);
    assert(rows[k - 1] == options.entry_row(entries, k - 1));
    let parts = Seq::new(1, |i: int| v.subrange(seq![f][i].offset as int, seq![f][i].offset + seq![f][i].length));
    assert(parts.drop_last() =~= seq![]);
    assert(crate::compression::concat(parts.drop_last()) =~= seq![]);
    assert(crate::reader::row_stream(v, seq![f]) =~= rows[k - 1]);
    let c = options.compress_options.compressor;
    let size = options.compress_options.chunk_size;
    let body = options.spec_body(e.name@, e.contents@);
    if options.compresses(crate::create::spec_extension(e.name@)) {
        crate::compression::lemma_compressed_tag(c, size, body);
        assert(crate::compression::compressed_bytes(c, size, body).len() <= u32::MAX) by {
            assert(v.subrange(f.offset as int, f.offset + f.length).len() == f.length);
        }
        crate::compression::lemma_compress_round_trip(c, size, body);
    }
}

} // verus!
