//! A file scattered over runs of an archive, read as one stream.
use vstd::prelude::*;
use crate::compression::{concat, lemma_concat_append, lemma_concat_push};
use crate::error::HpkError;
use crate::format::Fragment;

verus! {

/// Where a seek counts from.
#[derive(Clone, Copy, Debug, PartialEq, Eq, Structural)]
pub enum SeekFrom {
    Start(u64),
    End(i64),
    Current(i64),
}

/// One run of the file, with where it ends in the stream and how much of it
/// is left to read.
#[derive(Clone, Copy, Debug)]
pub struct FragmentState {
    pub offset: u64,
    pub length: u64,
    pub end_pos: u64,
    pub limit: u64,
}

/// The sum of the lengths of the first `k` runs: where run `k` starts in the stream.
pub open spec fn run_start(frags: Seq<FragmentState>, k: int) -> int
    decreases k,
{
    if k <= 0 {
        0
    } else {
        run_start(frags, k - 1) + frags[k - 1].length
    }
}

/// The same sum over fragments.
pub open spec fn fragments_total(frags: Seq<Fragment>, k: int) -> int
    decreases k,
{
    if k <= 0 {
        0
    } else {
        fragments_total(frags, k - 1) + frags[k - 1].length
    }
}

/// How much of a run of `length` bytes that starts at `start` lies before `pos`.
pub open spec fn consumed(start: int, length: int, pos: int) -> int {
    if pos <= start {
        0
    } else if pos - start >= length {
        length
    } else {
        pos - start
    }
}

/// A stream over the runs `fragments` of `inner`.
pub struct FragmentedReader<'a> {
    pub inner: &'a [u8],
    pub length: u64,
    pub pos: u64,
    pub fragments: Vec<FragmentState>,
}

impl<'a> FragmentedReader<'a> {
    /// The runs' bookkeeping agrees with the position.
    pub open spec fn wf(self) -> bool {
        &&& self.length == run_start(self.fragments@, self.fragments@.len() as int)
        &&& forall|k: int|
            0 <= k < self.fragments@.len() ==> {
                &&& #[trigger] self.fragments@[k].end_pos == run_start(self.fragments@, k + 1)
                &&& self.fragments@[k].limit == self.fragments@[k].length - consumed(
                    run_start(self.fragments@, k),
                    self.fragments@[k].length as int,
                    self.pos as int,
                )
            }
    }

    /// Whether the reader's runs are the fragments `row`.
    pub open spec fn runs_are(self, row: Seq<Fragment>) -> bool {
        &&& self.fragments@.len() == row.len()
        &&& forall|k: int|
            0 <= k < row.len() ==> #[trigger] self.fragments@[k].offset == row[k].offset
                && self.fragments@[k].length == row[k].length
    }

    /// Whether every run lies inside the backing bytes.
    pub open spec fn in_bounds(self) -> bool {
        forall|k: int|
            0 <= k < self.fragments@.len() ==> #[trigger] self.fragments@[k].offset
                + self.fragments@[k].length <= self.inner@.len()
    }

    /// The bytes of run `k`.
    pub open spec fn run_bytes(self, k: int) -> Seq<u8> {
        self.inner@.subrange(
            self.fragments@[k].offset as int,
            self.fragments@[k].offset + self.fragments@[k].length,
        )
    }

    /// The stream: the runs' bytes back to back.
    pub open spec fn stream(self) -> Seq<u8> {
        concat(Seq::new(self.fragments@.len(), |k: int| self.run_bytes(k)))
    }

    /// A reader at position 0 over the runs `fragments` of `inner`.
    pub fn new(inner: &'a [u8], fragments: &[Fragment]) -> (r: FragmentedReader<'a>)
        requires
            fragments_total(fragments@, fragments@.len() as int) <= u64::MAX,
        ensures
            r.wf(),
            r.pos == 0,
            r.inner@ == inner@,
            r.length == fragments_total(fragments@, fragments@.len() as int),
            r.runs_are(fragments@),
    {
        let mut states: Vec<FragmentState> = Vec::new();
        let mut total: u64 = 0;
        let mut i: usize = 0;
        while i < fragments.len()
            invariant
                i <= fragments@.len(),
                fragments_total(fragments@, fragments@.len() as int) <= u64::MAX,
                states@.len() == i,
                total == fragments_total(fragments@, i as int),
                total == run_start(states@, i as int),
                forall|k: int|
                    0 <= k < i ==> {
                        &&& #[trigger] states@[k].offset == fragments@[k].offset
                        &&& states@[k].length == fragments@[k].length
                        &&& states@[k].end_pos == run_start(states@, k + 1)
                        &&& states@[k].limit == states@[k].length
                    },
            decreases fragments@.len() - i,
        {
            proof {
                lemma_total_monotone(fragments@, i + 1, fragments@.len() as int);
            }
            let f = fragments[i];
            total = total + f.length;
            let ghost old_states = states@;
            states.push(FragmentState { offset: f.offset, length: f.length, end_pos: total, limit: f.length });
            proof {
                assert forall|k: int| 0 <= k <= i implies run_start(states@, k) == run_start(old_states, k) by {
                    lemma_run_start_prefix(old_states, states@, k);
                }
                lemma_run_start_prefix(old_states, states@, i as int);
            }
            i = i + 1;
        }
        let r = FragmentedReader { inner, length: total, pos: 0, fragments: states };
        proof {
            assert forall|k: int| 0 <= k < r.fragments@.len() implies consumed(
                run_start(r.fragments@, k),
                r.fragments@[k].length as int,
                0,
            ) == 0 by {
                lemma_run_start_nonneg(r.fragments@, k);
            }
            assert forall|k: int| 0 <= k < r.fragments@.len() implies #[trigger] r.fragments@[k].end_pos
                == run_start(r.fragments@, k + 1) && r.fragments@[k].limit == r.fragments@[k].length
                - consumed(run_start(r.fragments@, k), r.fragments@[k].length as int, 0) by {
                assert(r.fragments@[k].offset == fragments@[k].offset);
                lemma_run_start_nonneg(r.fragments@, k);
            }
        }
        r
    }

    /// The stream's length: the sum of the runs' lengths.
    pub fn len(&self) -> (r: u64)
        ensures
            r == self.length,
    {
        self.length
    }

    pub fn is_empty(&self) -> (r: bool)
        ensures
            r == (self.length == 0),
    {
        self.length == 0
    }

    /// The position in the stream.
    pub fn position(&self) -> (r: u64)
        ensures
            r == self.pos,
    {
        self.pos
    }

    /// The backing bytes.
    pub fn into_inner(self) -> (r: &'a [u8])
        ensures
            r@ == self.inner@,
    {
        self.inner
    }
}

proof fn lemma_total_monotone(frags: Seq<Fragment>, i: int, j: int)
    requires
        0 <= i <= j <= frags.len(),
    ensures
        fragments_total(frags, i) <= fragments_total(frags, j),
    decreases j - i,
{
    if i < j {
        lemma_total_monotone(frags, i, j - 1);
    }
}

proof fn lemma_run_start_prefix(a: Seq<FragmentState>, b: Seq<FragmentState>, k: int)
    requires
        0 <= k <= a.len() <= b.len(),
        forall|j: int| 0 <= j < a.len() ==> a[j].length == #[trigger] b[j].length,
    ensures
        run_start(a, k) == run_start(b, k),
    decreases k,
{
    if k > 0 {
        lemma_run_start_prefix(a, b, k - 1);
    }
}

proof fn lemma_run_start_nonneg(frags: Seq<FragmentState>, k: int)
    ensures
        run_start(frags, k) >= 0,
    decreases k,
{
    if k > 0 {
        lemma_run_start_nonneg(frags, k - 1);
    }
}

} // verus!

verus! {

/// Where the run that holds `pos` ends, searching from run `k` on; `pos`
/// itself where no run ends after it.
pub open spec fn boundary_from(frags: Seq<FragmentState>, pos: int, k: int) -> int
    decreases frags.len() - k,
{
    if k >= frags.len() || k < 0 {
        pos
    } else if run_start(frags, k + 1) > pos {
        run_start(frags, k + 1)
    } else {
        boundary_from(frags, pos, k + 1)
    }
}

impl<'a> FragmentedReader<'a> {
    /// Whether `o` has the same backing bytes and runs as `self`.
    pub open spec fn same_runs(self, o: FragmentedReader<'a>) -> bool {
        &&& o.inner@ == self.inner@
        &&& o.length == self.length
        &&& o.fragments@.len() == self.fragments@.len()
        &&& forall|k: int|
            0 <= k < self.fragments@.len() ==> (#[trigger] o.fragments@[k]).offset
                == self.fragments@[k].offset && o.fragments@[k].length == self.fragments@[k].length
                && o.fragments@[k].end_pos == self.fragments@[k].end_pos
    }

    proof fn lemma_same_stream(self, o: FragmentedReader<'a>)
        requires
            self.same_runs(o),
        ensures
            o.stream() == self.stream(),
            o.in_bounds() == self.in_bounds(),
            forall|k: int| 0 <= k <= self.fragments@.len() ==> run_start(o.fragments@, k) == run_start(self.fragments@, k),
    {
        assert(Seq::new(self.fragments@.len(), |k: int| self.run_bytes(k)) =~= Seq::new(
            o.fragments@.len(),
            |k: int| o.run_bytes(k),
        ));
        assert forall|k: int| 0 <= k <= self.fragments@.len() implies run_start(o.fragments@, k)
            == run_start(self.fragments@, k) by {
            lemma_run_start_prefix(self.fragments@, o.fragments@, k);
        }
        if self.in_bounds() {
            assert(o.in_bounds());
        }
        if o.in_bounds() {
            assert forall|k: int| 0 <= k < self.fragments@.len() implies #[trigger] self.fragments@[k].offset
                + self.fragments@[k].length <= self.inner@.len() by {
                assert(o.fragments@[k].offset + o.fragments@[k].length <= o.inner@.len());
            }
        }
    }

    /// The join of the first `k` runs is `run_start(k)` bytes long.
    proof fn lemma_prefix_len(self, k: int)
        requires
            self.in_bounds(),
            0 <= k <= self.fragments@.len(),
        ensures
            concat(Seq::new(self.fragments@.len(), |j: int| self.run_bytes(j)).subrange(0, k)).len()
                == run_start(self.fragments@, k),
        decreases k,
    {
        let parts = Seq::new(self.fragments@.len(), |j: int| self.run_bytes(j));
        if k > 0 {
            self.lemma_prefix_len(k - 1);
            assert(parts.subrange(0, k).drop_last() =~= parts.subrange(0, k - 1));
            assert(self.fragments@[k - 1].offset + self.fragments@[k - 1].length <= self.inner@.len());
        } else {
            assert(parts.subrange(0, 0) =~= seq![]);
        }
    }

    /// Inside run `k`, the stream holds the run's bytes.
    proof fn lemma_stream_run(self, k: int, a: int, b: int)
        requires
            self.in_bounds(),
            0 <= k < self.fragments@.len(),
            0 <= a <= b <= self.fragments@[k].length,
        ensures
            self.stream().subrange(run_start(self.fragments@, k) + a, run_start(self.fragments@, k) + b)
                == self.run_bytes(k).subrange(a, b),
    {
        let parts = Seq::new(self.fragments@.len(), |j: int| self.run_bytes(j));
        let front = parts.subrange(0, k);
        let back = parts.subrange(k + 1, parts.len() as int);
        assert(parts =~= front.push(parts[k]) + back);
        lemma_concat_append(front.push(parts[k]), back);
        lemma_concat_push(front, parts[k]);
        self.lemma_prefix_len(k);
        assert(self.fragments@[k].offset + self.fragments@[k].length <= self.inner@.len());
        let s = concat(front) + parts[k] + concat(back);
        assert(s.subrange(concat(front).len() + a, concat(front).len() + b) =~= parts[k].subrange(a, b));
    }

    /// Reads from the run that holds the position, at most `buf.len()` bytes:
    /// as many as the run and `buf` both have room for, where the runs lie
    /// inside the backing bytes. Gives the number of bytes read; 0 at the end.
    pub fn read(&mut self, buf: &mut [u8]) -> (r: usize)
        requires
            old(self).wf(),
        ensures
            final(self).wf(),
            old(self).same_runs(*final(self)),
            final(self).stream() == old(self).stream(),
            final(self).in_bounds() == old(self).in_bounds(),
            final(buf)@.len() == old(buf)@.len(),
            r <= old(buf)@.len(),
            final(self).pos == old(self).pos + r,
            final(buf)@.subrange(r as int, old(buf)@.len() as int) == old(buf)@.subrange(
                r as int,
                old(buf)@.len() as int,
            ),
            old(self).in_bounds() ==> r == vstd::math::min(
                old(buf)@.len() as int,
                boundary_from(old(self).fragments@, old(self).pos as int, 0) - old(self).pos,
            ),
            old(self).in_bounds() && old(self).pos <= old(self).length ==> final(buf)@.subrange(
                0,
                r as int,
            ) == old(self).stream().subrange(
                old(self).pos as int,
                old(self).pos + r,
            ),
    {
        let ghost before = *self;
        let n = self.fragments.len();
        let mut cur: usize = 0;
        while cur < n && self.fragments[cur].end_pos <= self.pos
            invariant
                n == self.fragments@.len(),
                cur <= n,
                *self == before,
                before.wf(),
                boundary_from(before.fragments@, before.pos as int, 0) == boundary_from(
                    before.fragments@,
                    before.pos as int,
                    cur as int,
                ),
                run_start(before.fragments@, cur as int) <= before.pos,
            decreases n - cur,
        {
            cur = cur + 1;
        }
        if cur == n {
            proof {
                before.lemma_same_stream(before);
                assert(final(buf)@.subrange(0, 0) =~= seq![]);
                if before.in_bounds() && before.pos <= before.length {
                    before.lemma_prefix_len(n as int);
                    let parts = Seq::new(before.fragments@.len(), |j: int| before.run_bytes(j));
                    assert(parts.subrange(0, n as int) =~= parts);
                    assert(before.stream().subrange(before.pos as int, before.pos as int) =~= seq![]);
                }
            }
            return 0;
        }
        let f = self.fragments[cur];
        let skip = f.length - f.limit;
        let max: u64 = if (buf.len() as u64) < f.limit {
            buf.len() as u64
        } else {
            f.limit
        };
        let mut src: usize = 0;
        let avail: usize = if f.offset > self.inner.len() as u64 || skip > self.inner.len() as u64
            - f.offset {
            0
        } else {
            src = (f.offset + skip) as usize;
            if ((self.inner.len() - src) as u64) < max {
                self.inner.len() - src
            } else {
                max as usize
            }
        };
        let mut i: usize = 0;
        let ilen = self.inner.len();
        while i < avail
            invariant
                ilen == self.inner@.len(),
                i <= avail,
                avail > 0 ==> src == f.offset + skip,
                avail > 0 ==> src + avail <= self.inner@.len(),
                avail <= buf@.len(),
                buf@.len() == old(buf)@.len(),
                *self == before,
                forall|j: int| 0 <= j < i ==> buf@[j] == self.inner@[f.offset + skip + j],
                forall|j: int| avail <= j < buf@.len() ==> buf@[j] == old(buf)@[j],
            decreases avail - i,
        {
            buf[i] = self.inner[src + i];
            i = i + 1;
        }
        self.pos = self.pos + avail as u64;
        self.fragments.set(cur, FragmentState { limit: f.limit - avail as u64, ..f });
        proof {
            before.lemma_same_stream(*self);
            assert(final(buf)@.subrange(avail as int, old(buf)@.len() as int) =~= old(buf)@.subrange(
                avail as int,
                old(buf)@.len() as int,
            ));
            assert(self.fragments@ == before.fragments@.update(cur as int, FragmentState { limit: (f.limit - avail) as u64, ..f }));
            lemma_read_keeps_wf(before, *self, cur as int, avail as int);
            assert(run_start(self.fragments@, n as int) == run_start(before.fragments@, n as int));
            assert(self.length == run_start(self.fragments@, self.fragments@.len() as int));
            if before.in_bounds() {
                assert(f.offset + f.length <= self.inner@.len());
                before.lemma_stream_run(cur as int, skip as int, skip + avail);
                assert(final(buf)@.subrange(0, avail as int) =~= before.run_bytes(cur as int).subrange(
                    skip as int,
                    skip + avail,
                ));
            }
        }
        avail
    }
}

/// Reading `avail` bytes of the run `cur` that holds the position keeps the
/// bookkeeping in step.
proof fn lemma_read_keeps_wf(before: FragmentedReader, after: FragmentedReader, cur: int, avail: int)
    requires
        before.wf(),
        0 <= cur < before.fragments@.len(),
        run_start(before.fragments@, cur) <= before.pos < run_start(before.fragments@, cur + 1),
        0 <= avail <= before.fragments@[cur].limit,
        after.pos == before.pos + avail,
        after.length == before.length,
        after.fragments@ == before.fragments@.update(
            cur,
            FragmentState { limit: (before.fragments@[cur].limit - avail) as u64, ..before.fragments@[cur] },
        ),
    ensures
        after.wf(),
{
    assert forall|k: int| 0 <= k <= before.fragments@.len() implies run_start(after.fragments@, k)
        == run_start(before.fragments@, k) by {
        lemma_run_start_prefix(before.fragments@, after.fragments@, k);
    }
    assert forall|k: int| 0 <= k < after.fragments@.len() implies {
        &&& #[trigger] after.fragments@[k].end_pos == run_start(after.fragments@, k + 1)
        &&& after.fragments@[k].limit == after.fragments@[k].length - consumed(
            run_start(after.fragments@, k),
            after.fragments@[k].length as int,
            after.pos as int,
        )
    } by {
        assert(before.fragments@[k].end_pos == run_start(before.fragments@, k + 1));
        if k < cur {
            lemma_run_start_mono(before.fragments@, k + 1, cur);
        } else if k > cur {
            lemma_run_start_mono(before.fragments@, cur + 1, k);
        }
    }
}

proof fn lemma_run_start_mono(frags: Seq<FragmentState>, i: int, j: int)
    requires
        0 <= i <= j <= frags.len(),
    ensures
        run_start(frags, i) <= run_start(frags, j),
    decreases j - i,
{
    if i < j {
        lemma_run_start_mono(frags, i, j - 1);
    }
}

} // verus!

verus! {

/// Where `base + offset` lands, if it is neither negative nor past `u64::MAX`.
pub open spec fn seek_target(base: u64, offset: i64) -> Option<u64> {
    if 0 <= base + offset <= u64::MAX {
        Some((base + offset) as u64)
    } else {
        None
    }
}

impl<'a> FragmentedReader<'a> {
    /// The position a seek aims at, before its range is checked.
    pub open spec fn spec_seek(self, style: SeekFrom) -> Option<u64> {
        match style {
            SeekFrom::Start(n) => Some(n),
            SeekFrom::End(n) => seek_target(self.length, n),
            SeekFrom::Current(n) => seek_target(self.pos, n),
        }
    }

    /// Moves to `pos` and sets each run's remaining bytes to match.
    fn set_position(&mut self, pos: u64)
        requires
            old(self).wf(),
        ensures
            final(self).wf(),
            old(self).same_runs(*final(self)),
            final(self).pos == pos,
    {
        if self.pos == pos {
            proof {
                old(self).lemma_same_stream(*old(self));
            }
            return;
        }
        let ghost before = *self;
        let n = self.fragments.len();
        let mut remaining: u64 = pos;
        let mut i: usize = 0;
        while i < n
            invariant
                n == self.fragments@.len(),
                i <= n,
                before.wf(),
                self.inner@ == before.inner@,
                self.length == before.length,
                self.pos == before.pos,
                self.fragments@.len() == before.fragments@.len(),
                remaining == (if pos >= run_start(before.fragments@, i as int) {
                    pos - run_start(before.fragments@, i as int)
                } else {
                    0
                }),
                forall|k: int|
                    0 <= k < n ==> {
                        &&& (#[trigger] self.fragments@[k]).offset == before.fragments@[k].offset
                        &&& self.fragments@[k].length == before.fragments@[k].length
                        &&& self.fragments@[k].end_pos == before.fragments@[k].end_pos
                    },
                forall|k: int|
                    0 <= k < i ==> (#[trigger] self.fragments@[k]).limit == self.fragments@[k].length
                        - consumed(
                        run_start(before.fragments@, k),
                        self.fragments@[k].length as int,
                        pos as int,
                    ),
            decreases n - i,
        {
            let f = self.fragments[i];
            let taken = if f.length < remaining {
                f.length
            } else {
                remaining
            };
            proof {
                lemma_run_start_nonneg(before.fragments@, i as int);
            }
            self.fragments.set(i, FragmentState { limit: f.length - taken, ..f });
            remaining = remaining - taken;
            i = i + 1;
        }
        self.pos = pos;
        proof {
            before.lemma_same_stream(*self);
        }
    }

    /// Moves the position; gives the new one. A target below 0 or past
    /// `u64::MAX` is refused with `InvalidInput` and changes nothing.
    pub fn seek(&mut self, style: SeekFrom) -> (r: Result<u64, HpkError>)
        requires
            old(self).wf(),
        ensures
            final(self).wf(),
            old(self).same_runs(*final(self)),
            final(self).stream() == old(self).stream(),
            final(self).in_bounds() == old(self).in_bounds(),
            old(self).spec_seek(style) matches Some(p) ==> r == Ok::<u64, HpkError>(p)
                && final(self).pos == p,
            old(self).spec_seek(style) is None ==> r == Err::<u64, HpkError>(HpkError::InvalidInput)
                && final(self).pos == old(self).pos,
    {
        proof {
            old(self).lemma_same_stream(*old(self));
        }
        let (base, offset) = match style {
            SeekFrom::Start(n) => {
                self.set_position(n);
                proof {
                    old(self).lemma_same_stream(*self);
                }
                return Ok(n);
            },
            SeekFrom::End(n) => (self.length, n),
            SeekFrom::Current(n) => (self.pos, n),
        };
        let target = if offset >= 0 {
            base.checked_add(offset as u64)
        } else {
            base.checked_sub((0 - (offset as i128)) as u64)
        };
        match target {
            Some(n) => {
                self.set_position(n);
                proof {
                    old(self).lemma_same_stream(*self);
                }
                Ok(n)
            },
            None => Err(HpkError::InvalidInput),
        }
    }

    /// Fills all of `buf` from the stream, or fails with `UnexpectedEof` where
    /// the stream ends first. An empty `buf` is always filled.
    #[verifier::rlimit(60)]
    pub fn read_exact(&mut self, buf: &mut [u8]) -> (r: Result<(), HpkError>)
        requires
            old(self).wf(),
            old(self).in_bounds(),
        ensures
            final(self).wf(),
            final(self).in_bounds(),
            old(self).same_runs(*final(self)),
            final(self).stream() == old(self).stream(),
            final(buf)@.len() == old(buf)@.len(),
            r is Ok <==> old(buf)@.len() == 0 || old(self).pos + old(buf)@.len() <= old(self).length,
            r is Ok ==> final(self).pos == old(self).pos + old(buf)@.len(),
            r is Ok && old(buf)@.len() > 0 ==> final(buf)@ == old(self).stream().subrange(
                old(self).pos as int,
                old(self).pos + old(buf)@.len(),
            ),
    {
        let ghost start = self.pos;
        let ghost s = self.stream();
        proof {
            self.lemma_stream_len();
        }
        let len = buf.len();
        let mut filled: usize = 0;
        let mut chunk: Vec<u8> = Vec::new();
        while filled < len
            invariant
                self.wf(),
                self.in_bounds(),
                old(self).same_runs(*self),
                self.stream() == s,
                s == old(self).stream(),
                s.len() == self.length,
                filled <= len,
                len == buf@.len(),
                buf@.len() == old(buf)@.len(),
                self.pos == start + filled,
                start == old(self).pos,
                start + filled <= self.length || filled == 0,
                start + filled <= self.length ==> buf@.subrange(0, filled as int) == s.subrange(
                    start as int,
                    start + filled,
                ),
            decreases len - filled,
        {
            if self.pos >= self.length {
                return Err(HpkError::UnexpectedEof);
            }
            chunk = Vec::new();
            let mut k: usize = filled;
            while k < len
                invariant
                    filled <= k <= len,
                    chunk@.len() == k - filled,
                decreases len - k,
            {
                chunk.push(0);
                k = k + 1;
            }
            let ghost before = *self;
            proof {
                before.lemma_boundary(before.pos as int);
            }
            let n = self.read(chunk.as_mut_slice());
            proof {
                old(self).lemma_same_stream(*self);
            }
            if n == 0 {
                return Err(HpkError::UnexpectedEof);
            }
            let ghost prefix = buf@.subrange(0, filled as int);
            let mut j: usize = 0;
            while j < n
                invariant
                    j <= n,
                    filled + n <= len,
                    n <= chunk@.len(),
                    buf@.len() == len,
                    buf@.subrange(0, filled as int) == prefix,
                    forall|t: int| 0 <= t < j ==> buf@[filled + t] == chunk@[t],
                decreases n - j,
            {
                buf[filled + j] = chunk[j];
                j = j + 1;
                assert(buf@.subrange(0, filled as int) =~= prefix);
            }
            proof {
                assert(buf@.subrange(0, filled + n) =~= prefix + chunk@.subrange(0, n as int));
                assert(s.subrange(start as int, start + filled + n) =~= s.subrange(start as int, start + filled) + s.subrange(start + filled, start + filled + n));
            }
            filled = filled + n;
        }
        assert(buf@.subrange(0, len as int) =~= buf@);
        Ok(())
    }

    /// Where the runs lie inside the backing bytes, the stream is as long as
    /// their lengths together.
    pub proof fn lemma_stream_length(self)
        requires
            self.wf(),
            self.in_bounds(),
        ensures
            self.stream().len() == self.length,
    {
        self.lemma_stream_len();
    }

    proof fn lemma_stream_len(self)
        requires
            self.wf(),
            self.in_bounds(),
        ensures
            self.stream().len() == self.length,
    {
        self.lemma_prefix_len(self.fragments@.len() as int);
        let parts = Seq::new(self.fragments@.len(), |j: int| self.run_bytes(j));
        assert(parts.subrange(0, parts.len() as int) =~= parts);
    }

    /// Below the stream's end, a run holds the position and ends after it.
    proof fn lemma_boundary(self, p: int)
        requires
            self.wf(),
        ensures
            0 <= self.pos < self.length ==> boundary_from(self.fragments@, self.pos as int, 0) > self.pos
                && boundary_from(self.fragments@, self.pos as int, 0) <= self.length,
    {
        if 0 <= self.pos < self.length {
            self.lemma_boundary_from(0);
        }
    }

    proof fn lemma_boundary_from(self, k: int)
        requires
            self.wf(),
            0 <= k <= self.fragments@.len(),
            run_start(self.fragments@, k) <= self.pos < self.length,
        ensures
            boundary_from(self.fragments@, self.pos as int, k) > self.pos,
            boundary_from(self.fragments@, self.pos as int, k) <= self.length,
        decreases self.fragments@.len() - k,
    {
        if k < self.fragments@.len() {
            lemma_run_start_mono(self.fragments@, k + 1, self.fragments@.len() as int);
            if run_start(self.fragments@, k + 1) <= self.pos {
                self.lemma_boundary_from(k + 1);
            }
        }
    }
}

/// Reading a stream in two parts gives the same bytes as reading it in one:
/// the `a` bytes at the position, then the `b` after them, join to the `a + b`
/// bytes at the position.
pub proof fn lemma_split_read(r: FragmentedReader, a: nat, b: nat)
    requires
        r.wf(),
        r.in_bounds(),
        r.pos + a + b <= r.length,
    ensures
        r.stream().subrange(r.pos as int, r.pos + a) + r.stream().subrange(r.pos + a, r.pos + a + b)
            == r.stream().subrange(r.pos as int, r.pos + a + b),
{
    r.lemma_stream_len();
    assert(r.stream().subrange(r.pos as int, r.pos + a) + r.stream().subrange(r.pos + a, r.pos + a + b)
        =~= r.stream().subrange(r.pos as int, r.pos + a + b));
}

} // verus!

verus! {

impl<'a> FragmentedReader<'a> {
    /// Whether every run lies inside the backing bytes.
    pub fn runs_in_bounds(&self) -> (r: bool)
        ensures
            r == self.in_bounds(),
    {
        let n = self.fragments.len();
        let mut i: usize = 0;
        while i < n
            invariant
                n == self.fragments@.len(),
                i <= n,
                forall|k: int| 0 <= k < i ==> #[trigger] self.fragments@[k].offset + self.fragments@[k].length <= self.inner@.len(),
            decreases n - i,
        {
            let f = self.fragments[i];
            if f.offset > self.inner.len() as u64 || f.length > self.inner.len() as u64 - f.offset {
                return false;
            }
            i = i + 1;
        }
        true
    }
}

/// `n` zero bytes.
pub fn zeros(n: usize) -> (r: Vec<u8>)
    ensures
        r@.len() == n,
        forall|i: int| 0 <= i < n ==> r@[i] == 0u8,
{
    let mut v: Vec<u8> = Vec::new();
    let mut i: usize = 0;
    while i < n
        invariant
            i <= n,
            v@.len() == i,
            forall|j: int| 0 <= j < i ==> v@[j] == 0u8,
        decreases n - i,
    {
        v.push(0);
        i = i + 1;
    }
    v
}

} // verus!

verus! {

/// The bytes of the runs `row` of `data`, back to back.
pub open spec fn row_stream(data: Seq<u8>, row: Seq<Fragment>) -> Seq<u8> {
    concat(Seq::new(row.len(), |k: int| data.subrange(row[k].offset as int, row[k].offset + row[k].length)))
}

/// Whether every run of `row` lies inside `data`.
pub open spec fn row_in_bounds(data: Seq<u8>, row: Seq<Fragment>) -> bool {
    forall|k: int| 0 <= k < row.len() ==> #[trigger] row[k].offset + row[k].length <= data.len()
}

impl<'a> FragmentedReader<'a> {
    /// A reader over the runs `row` reads their bytes.
    pub proof fn lemma_row_stream(self, row: Seq<Fragment>)
        requires
            self.runs_are(row),
        ensures
            self.stream() == row_stream(self.inner@, row),
            self.in_bounds() == row_in_bounds(self.inner@, row),
    {
        assert(Seq::new(self.fragments@.len(), |k: int| self.run_bytes(k)) =~= Seq::new(
            row.len(),
            |k: int| self.inner@.subrange(row[k].offset as int, row[k].offset + row[k].length),
        ));
        if self.in_bounds() {
            assert forall|k: int| 0 <= k < row.len() implies #[trigger] row[k].offset + row[k].length <= self.inner@.len() by {
                assert(self.fragments@[k].offset + self.fragments@[k].length <= self.inner@.len());
            }
        }
        if row_in_bounds(self.inner@, row) {
            assert forall|k: int| 0 <= k < self.fragments@.len() implies #[trigger] self.fragments@[k].offset
                + self.fragments@[k].length <= self.inner@.len() by {
                assert(row[k].offset + row[k].length <= self.inner@.len());
            }
        }
    }
}

} // verus!
