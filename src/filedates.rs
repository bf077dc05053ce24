//! The `_filedates` file: one `path=time` line for each entry of an archive.
use vstd::prelude::*;
use crate::bytes::copy_range;
use crate::create::FileDateFormat;
use crate::error::{HpkError, HpkResult};

verus! {

/// Seconds from the Windows epoch, 1601-01-01, to the Unix epoch.
pub const SEC_TO_UNIX_EPOCH: i64 = 11_644_473_600;

/// Windows file-time ticks in a second.
pub const WINDOWS_TICKS: i64 = 10_000_000;

/// `a / b` rounded toward zero, as Rust's integer division does.
pub open spec fn trunc_div(a: int, b: int) -> int {
    if a >= 0 {
        a / b
    } else {
        -((-a) / b)
    }
}

/// The `_filedates` value of a file modified at `secs` Unix seconds.
pub open spec fn spec_filedate_value(secs: int, fmt: FileDateFormat) -> int {
    match fmt {
        FileDateFormat::Default => (secs + SEC_TO_UNIX_EPOCH) * WINDOWS_TICKS,
        FileDateFormat::Short => trunc_div((secs + SEC_TO_UNIX_EPOCH) * WINDOWS_TICKS, 2000),
    }
}

/// The `_filedates` value of a file modified at `secs` Unix seconds: its
/// Windows file time, divided by 2000 in the short format. Fails with
/// `TooLarge` where the file time does not fit 64 bits.
pub fn filedate_value(secs: i64, fmt: FileDateFormat) -> (r: HpkResult<i64>)
    ensures
        i64::MIN <= (secs + SEC_TO_UNIX_EPOCH) * WINDOWS_TICKS <= i64::MAX ==> r == Ok::<
            i64,
            HpkError,
        >(spec_filedate_value(secs as int, fmt) as i64),
        !(i64::MIN <= (secs + SEC_TO_UNIX_EPOCH) * WINDOWS_TICKS <= i64::MAX) ==> r == Err::<
            i64,
            HpkError,
        >(HpkError::TooLarge),
{
    if secs > i64::MAX - SEC_TO_UNIX_EPOCH {
        assert((secs + SEC_TO_UNIX_EPOCH) * WINDOWS_TICKS > i64::MAX) by (nonlinear_arith)
            requires
                secs + SEC_TO_UNIX_EPOCH > i64::MAX,
        ;
        return Err(HpkError::TooLarge);
    }
    let shifted = secs + SEC_TO_UNIX_EPOCH;
    let ticks = match shifted.checked_mul(WINDOWS_TICKS) {
        Some(t) => t,
        None => return Err(HpkError::TooLarge),
    };
    match fmt {
        FileDateFormat::Default => Ok(ticks),
        FileDateFormat::Short => Ok(ticks / 2000),
    }
}

/// The Unix seconds that a stored `_filedates` value stands for. A value whose
/// product with 2000 fits 64 bits is taken as the short format and scaled up;
/// one whose product does not is a Windows file time already.
pub open spec fn spec_unix_secs(val: i64) -> int {
    let ticks = if i64::MIN <= val * 2000 <= i64::MAX {
        val * 2000
    } else {
        val as int
    };
    trunc_div(ticks, WINDOWS_TICKS as int) - SEC_TO_UNIX_EPOCH
}

pub fn unix_secs(val: i64) -> (r: i64)
    ensures
        r == spec_unix_secs(val),
{
    let ticks = match val.checked_mul(2000) {
        Some(t) => t,
        None => val,
    };
    ticks / WINDOWS_TICKS - SEC_TO_UNIX_EPOCH
}

/// The value of a run of decimal digits.
pub open spec fn digits_value(s: Seq<u8>) -> int
    decreases s.len(),
{
    if s.len() == 0 {
        0
    } else {
        digits_value(s.drop_last()) * 10 + (s.last() - 0x30)
    }
}

/// Whether every byte of `s` is a decimal digit.
pub open spec fn all_digits(s: Seq<u8>) -> bool {
    forall|i: int| 0 <= i < s.len() ==> 0x30 <= #[trigger] s[i] <= 0x39
}

/// The signed decimal integer that `s` spells, with an optional `+` or `-`,
/// if it fits 64 bits.
pub open spec fn spec_parse_i64(s: Seq<u8>) -> Option<i64> {
    let negative = s.len() > 0 && s[0] == 0x2D;
    let body = if s.len() > 0 && (s[0] == 0x2D || s[0] == 0x2B) {
        s.subrange(1, s.len() as int)
    } else {
        s
    };
    let v = if negative {
        -digits_value(body)
    } else {
        digits_value(body)
    };
    if body.len() > 0 && all_digits(body) && i64::MIN <= v <= i64::MAX {
        Some(v as i64)
    } else {
        None
    }
}

proof fn lemma_digits_nonneg(s: Seq<u8>)
    requires
        all_digits(s),
    ensures
        digits_value(s) >= 0,
    decreases s.len(),
{
    if s.len() > 0 {
        assert(all_digits(s.drop_last()));
        lemma_digits_nonneg(s.drop_last());
        assert(0x30 <= s[s.len() - 1]);
    }
}

proof fn lemma_digits_monotone(s: Seq<u8>)
    requires
        all_digits(s),
        s.len() > 0,
    ensures
        digits_value(s) >= digits_value(s.drop_last()) * 10,
{
    assert(0x30 <= s[s.len() - 1]);
}

/// Reads the signed decimal integer that `s` spells.
pub fn parse_i64(s: &[u8]) -> (r: Option<i64>)
    ensures
        r == spec_parse_i64(s@),
{
    let negative = s.len() > 0 && s[0] == 0x2D;
    let start: usize = if s.len() > 0 && (s[0] == 0x2D || s[0] == 0x2B) {
        1
    } else {
        0
    };
    let ghost body = s@.subrange(start as int, s@.len() as int);
    proof {
        if start == 0 {
            assert(s@.subrange(0, s@.len() as int) =~= s@);
        }
        assert(body == (if s@.len() > 0 && (s@[0] == 0x2D || s@[0] == 0x2B) {
            s@.subrange(1, s@.len() as int)
        } else {
            s@
        }));
        assert(s@.subrange(start as int, start as int) =~= seq![]);
    }
    if start >= s.len() {
        return None;
    }
    let mut acc: i128 = 0;
    let mut i: usize = start;
    while i < s.len()
        invariant
            start <= i <= s@.len(),
            body == s@.subrange(start as int, s@.len() as int),
            body == (if s@.len() > 0 && (s@[0] == 0x2D || s@[0] == 0x2B) {
                s@.subrange(1, s@.len() as int)
            } else {
                s@
            }),
            negative == (s@.len() > 0 && s@[0] == 0x2D),
            body.len() > 0,
            all_digits(s@.subrange(start as int, i as int)),
            acc == digits_value(s@.subrange(start as int, i as int)),
            0 <= acc <= 10000000000000000000,
        decreases s@.len() - i,
    {
        let b = s[i];
        if b < 0x30 || b > 0x39 {
            assert(body[i - start] == b);
            assert(!all_digits(body));
            return None;
        }
        let ghost prev = s@.subrange(start as int, i as int);
        let next = acc * 10 + (b - 0x30) as i128;
        assert(s@.subrange(start as int, i + 1).drop_last() =~= prev);
        if next > 10000000000000000000 {
            proof {
                let rest = s@.subrange(start as int, s@.len() as int);
                if all_digits(rest) {
                    lemma_digits_grow(s@, start as int, i + 1, s@.len() as int);
                }
            }
            return None;
        }
        acc = next;
        i = i + 1;
        assert(all_digits(s@.subrange(start as int, i as int)));
    }
    assert(s@.subrange(start as int, i as int) =~= body);
    let v: i128 = if negative {
        -acc
    } else {
        acc
    };
    if v < i64::MIN as i128 || v > i64::MAX as i128 {
        return None;
    }
    Some(v as i64)
}

/// Digits only ever grow a value as more follow.
proof fn lemma_digits_grow(s: Seq<u8>, start: int, i: int, j: int)
    requires
        0 <= start <= i <= j <= s.len(),
        all_digits(s.subrange(start, j)),
    ensures
        digits_value(s.subrange(start, j)) >= digits_value(s.subrange(start, i)),
    decreases j - i,
{
    if j > i {
        let t = s.subrange(start, j);
        assert(t.drop_last() =~= s.subrange(start, j - 1));
        assert(all_digits(s.subrange(start, j - 1))) by {
            assert forall|k: int| 0 <= k < j - 1 - start implies 0x30 <= #[trigger] s.subrange(start, j - 1)[k] <= 0x39 by {
                assert(s.subrange(start, j - 1)[k] == t[k]);
            }
        }
        lemma_digits_grow(s, start, i, j - 1);
        lemma_digits_monotone(t);
        lemma_digits_nonneg(t.drop_last());
    }
}

} // verus!

verus! {

/// The position of the first `\n` in `t` at or after `k`; `t.len()` if none.
pub open spec fn first_newline(t: Seq<u8>, k: int) -> int
    decreases t.len() - k,
{
    if k >= t.len() || k < 0 {
        t.len() as int
    } else if t[k] == 0x0A {
        k
    } else {
        first_newline(t, k + 1)
    }
}

/// `l` without a final `\r`.
pub open spec fn strip_cr(l: Seq<u8>) -> Seq<u8> {
    if l.len() > 0 && l.last() == 0x0D {
        l.drop_last()
    } else {
        l
    }
}

/// The lines of `t`, split at `\n`, each without a final `\r`; a final `\n`
/// starts no further line.
pub open spec fn spec_lines(t: Seq<u8>) -> Seq<Seq<u8>>
    decreases t.len(),
{
    if t.len() == 0 {
        seq![]
    } else {
        let j = first_newline(t, 0);
        if 0 <= j < t.len() {
            seq![strip_cr(t.subrange(0, j))] + spec_lines(t.subrange(j + 1, t.len() as int))
        } else {
            seq![strip_cr(t)]
        }
    }
}

/// The position of the last `=` in `l` below `end`; -1 if none.
pub open spec fn last_equals(l: Seq<u8>, end: int) -> int
    decreases end,
{
    if end <= 0 {
        -1
    } else if l[end - 1] == 0x3D {
        end - 1
    } else {
        last_equals(l, end - 1)
    }
}

/// A line `path=value`, read as the path and the Unix seconds the value
/// stands for; nothing where there is no `=` or the value is no integer.
pub open spec fn spec_parse_line(l: Seq<u8>) -> Option<(Seq<u8>, i64)> {
    let e = last_equals(l, l.len() as int);
    if e < 0 {
        None
    } else {
        match spec_parse_i64(l.subrange(e + 1, l.len() as int)) {
            Some(v) => Some((l.subrange(0, e), spec_unix_secs(v) as i64)),
            None => None,
        }
    }
}

/// The records of the lines that parse, in order.
pub open spec fn spec_records(lines: Seq<Seq<u8>>) -> Seq<(Seq<u8>, i64)>
    decreases lines.len(),
{
    if lines.len() == 0 {
        seq![]
    } else {
        (match spec_parse_line(lines[0]) {
            Some(x) => seq![x],
            None => seq![],
        }) + spec_records(lines.subrange(1, lines.len() as int))
    }
}

/// One record of `_filedates`: a path below the extraction root and the Unix
/// seconds to set as its times.
pub struct FileDate {
    pub path: Vec<u8>,
    pub unix_secs: i64,
}

/// Reads the line `path=value`.
pub fn parse_line(l: &[u8]) -> (r: Option<FileDate>)
    ensures
        r matches Some(d) ==> spec_parse_line(l@) == Some((d.path@, d.unix_secs)),
        r is None ==> spec_parse_line(l@) is None,
{
    let mut e: usize = l.len();
    while e > 0 && l[e - 1] != 0x3D
        invariant
            e <= l@.len(),
            last_equals(l@, l@.len() as int) == last_equals(l@, e as int),
        decreases e,
    {
        e = e - 1;
    }
    if e == 0 {
        return None;
    }
    let value = copy_range(l, e, l.len());
    match parse_i64(value.as_slice()) {
        Some(v) => Some(FileDate { path: copy_range(l, 0, e - 1), unix_secs: unix_secs(v) }),
        None => None,
    }
}

proof fn lemma_newline_shift(t: Seq<u8>, pos: int, j: int)
    requires
        0 <= pos <= j <= t.len(),
        forall|k: int| pos <= k < j ==> t[k] != 0x0A,
    ensures
        first_newline(t.subrange(pos, t.len() as int), 0) == first_newline(
            t.subrange(pos, t.len() as int),
            j - pos,
        ),
    decreases j - pos,
{
    if j > pos {
        lemma_newline_shift(t, pos, j - 1);
        let u = t.subrange(pos, t.len() as int);
        assert(u[j - 1 - pos] == t[j - 1]);
    }
}

/// The records of the lines of `text` that parse, in order.
pub fn parse_filedates(text: &[u8]) -> (r: Vec<FileDate>)
    ensures
        r@.len() == spec_records(spec_lines(text@)).len(),
        forall|i: int|
            0 <= i < r@.len() ==> ((#[trigger] r@[i]).path@, r@[i].unix_secs) == spec_records(
                spec_lines(text@),
            )[i],
{
    let ghost all = spec_records(spec_lines(text@));
    let mut out: Vec<FileDate> = Vec::new();
    let mut pos: usize = 0;
    assert(text@.subrange(0, text@.len() as int) =~= text@);
    while pos < text.len()
        invariant
            pos <= text@.len(),
            out@.len() + spec_records(spec_lines(text@.subrange(pos as int, text@.len() as int))).len() == all.len(),
            forall|i: int| 0 <= i < out@.len() ==> ((#[trigger] out@[i]).path@, out@[i].unix_secs) == all[i],
            forall|i: int| 0 <= i < spec_records(spec_lines(text@.subrange(pos as int, text@.len() as int))).len()
                ==> all[out@.len() + i] == #[trigger] spec_records(spec_lines(text@.subrange(pos as int, text@.len() as int)))[i],
        decreases text@.len() - pos,
    {
        let ghost t = text@.subrange(pos as int, text@.len() as int);
        let mut j: usize = pos;
        while j < text.len() && text[j] != 0x0A
            invariant
                pos <= j <= text@.len(),
                forall|k: int| pos <= k < j ==> text@[k] != 0x0A,
            decreases text@.len() - j,
        {
            j = j + 1;
        }
        proof {
            lemma_newline_shift(text@, pos as int, j as int);
            if j < text@.len() {
                assert(t[j - pos] == 0x0A);
            }
        }
        let mut end = j;
        if end > pos && text[end - 1] == 0x0D {
            end = end - 1;
        }
        let line = copy_range(text, pos, end);
        proof {
            assert(line@ == strip_cr(t.subrange(0, j - pos))) by {
                assert(t.subrange(0, j - pos) =~= text@.subrange(pos as int, j as int));
                if j > pos && text@[j - 1] == 0x0D {
                    assert(text@.subrange(pos as int, j as int).drop_last() =~= line@);
                } else {
                    assert(line@ =~= text@.subrange(pos as int, j as int));
                }
            }
        }
        let next = if j < text.len() {
            j + 1
        } else {
            j
        };
        let ghost rest = text@.subrange(next as int, text@.len() as int);
        proof {
            if j < text@.len() {
                assert(t.subrange(j - pos + 1, t.len() as int) =~= rest);
                assert(spec_lines(t) == seq![line@] + spec_lines(rest));
            } else {
                assert(t.subrange(0, j - pos) =~= t);
                assert(rest =~= seq![]);
                assert(spec_lines(rest) =~= seq![]);
                assert(spec_lines(t) == seq![line@]);
                assert(seq![line@] + spec_lines(rest) =~= seq![line@]);
            }
            let ls = seq![line@] + spec_lines(rest);
            assert(ls.subrange(1, ls.len() as int) =~= spec_lines(rest));
            assert(ls[0] == line@);
        }
        let ghost before = out@;
        match parse_line(line.as_slice()) {
            Some(d) => {
                out.push(d);
            },
            None => {},
        }
        proof {
            let recs_t = spec_records(spec_lines(t));
            let recs_rest = spec_records(spec_lines(rest));
            let added = out@.len() - before.len();
            assert(recs_t.len() == added + recs_rest.len());
            assert forall|i: int| 0 <= i < recs_rest.len() implies all[out@.len() + i] == #[trigger] recs_rest[i] by {
                assert(recs_t[added + i] == recs_rest[i]);
            }
            if added == 1 {
                assert(all[before.len() as int] == recs_t[0]);
            }
            assert forall|i: int| 0 <= i < out@.len() implies ((#[trigger] out@[i]).path@, out@[i].unix_secs) == all[i] by {
                if i < before.len() {
                    assert(out@[i] == before[i]);
                }
            }
        }
        pos = next;
    }
    proof {
        assert(text@.subrange(pos as int, text@.len() as int) =~= seq![]);
        assert(spec_lines(seq![]) =~= seq![]);
    }
    out
}

/// `path` without its first component: what follows its first `/`; nothing
/// where it has none.
pub open spec fn spec_strip_first(path: Seq<u8>) -> Seq<u8> {
    if first_slash(path, 0) < path.len() {
        path.subrange(first_slash(path, 0) + 1, path.len() as int)
    } else {
        seq![]
    }
}

/// The position of the first `/` in `p` at or after `k`; `p.len()` if none.
pub open spec fn first_slash(p: Seq<u8>, k: int) -> int
    decreases p.len() - k,
{
    if k >= p.len() || k < 0 {
        p.len() as int
    } else if p[k] == 0x2F {
        k
    } else {
        first_slash(p, k + 1)
    }
}

/// `path` without its first component, for archives that put the name of
/// the archive they were packed from in front of every path.
pub fn strip_first_component(path: &[u8]) -> (r: Vec<u8>)
    ensures
        r@ == spec_strip_first(path@),
{
    let mut i: usize = 0;
    while i < path.len() && path[i] != 0x2F
        invariant
            i <= path@.len(),
            first_slash(path@, 0) == first_slash(path@, i as int),
        decreases path@.len() - i,
    {
        i = i + 1;
    }
    if i < path.len() {
        copy_range(path, i + 1, path.len())
    } else {
        Vec::new()
    }
}

} // verus!
