//! `.xls`, Excel 97-2003 (BIFF8).
//!
//! The workbook is a flat sequence of records. Cell text is not stored in the
//! cells: repeated strings are pooled in a shared-string table (`SST`) and the
//! cells hold indices into it. The SST may continue into `CONTINUE` records,
//! and a string may be cut mid-way, resuming with a fresh width flag.
//!
//! A number that is not whole is written out by the floating-point formatter,
//! which stands outside this crate: [`float_cells`] names the numbers it is
//! needed for, and the extraction takes what it wrote.
use super::{clean, cleaned, decodable, decode_run, run_text, stream, stream_of, MAX_TEXT_BYTES};
use crate::bytes::{le16, le32, le64, range, u16_at, u32_at, u64_at};
use crate::text::{
    blank, byte_len, decimal, is_blank, push_decimal, push_str, signed_decimal, text_view, texts, utf8_len,
};
use vstd::prelude::*;

verus! {

pub const REC_SST: u16 = 0x00FC;

pub const REC_CONTINUE: u16 = 0x003C;

pub const REC_LABELSST: u16 = 0x00FD;

pub const REC_LABEL: u16 = 0x0204;

pub const REC_RSTRING: u16 = 0x00D6;

pub const REC_NUMBER: u16 = 0x0203;

pub const REC_RK: u16 = 0x027E;

pub const REC_EOF: u16 = 0x000A;

pub const REC_BOF: u16 = 0x0809;

/// A record header is a 2-byte id and a 2-byte length.
pub const REC_HEADER_LEN: usize = 4;

/// One record: its id, and where its body stands in the workbook.
#[derive(Debug, Clone, Copy, PartialEq, Eq, Structural)]
pub struct Record {
    pub id: u16,
    pub start: usize,
    pub end: usize,
}

/// The record whose header stands at `i`, where header and body both fit.
pub open spec fn record_at(book: Seq<u8>, i: int) -> Option<Record> {
    match (le16(book, i), le16(book, i + 2)) {
        (Some(id), Some(len)) => if i + REC_HEADER_LEN + len <= book.len() {
            Some(
                Record {
                    id,
                    start: (i + REC_HEADER_LEN) as usize,
                    end: (i + REC_HEADER_LEN + len) as usize,
                },
            )
        } else {
            None
        },
        _ => None,
    }
}

/// The whole records from `i` on; the first that does not fit ends them.
pub open spec fn records_from(book: Seq<u8>, i: int) -> Seq<Record>
    decreases book.len() - i,
{
    match record_at(book, i) {
        Some(r) => if i + REC_HEADER_LEN <= r.end <= book.len() {
            seq![r] + records_from(book, r.end as int)
        } else {
            seq![]
        },
        None => seq![],
    }
}

/// Every record lies inside the workbook.
pub open spec fn inside(book: Seq<u8>, records: Seq<Record>) -> bool {
    forall|k: int|
        0 <= k < records.len() ==> (#[trigger] records[k]).start <= records[k].end <= book.len()
}

/// Split the stream into records, stopping at the first header that does not
/// fit: a truncated file keeps whatever records were whole.
pub(crate) fn split_records(book: &[u8]) -> (records: Vec<Record>)
    ensures
        records@ == records_from(book@, 0),
        inside(book@, records@),
{
    let n: usize = book.len();
    let mut records: Vec<Record> = Vec::new();
    let mut i: usize = 0;
    loop
        invariant
            n == book@.len(),
            i <= n,
            records@ + records_from(book@, i as int) == records_from(book@, 0),
            inside(book@, records@),
        decreases n - i,
    {
        let done: bool = n - i < REC_HEADER_LEN;
        if done {
            assert(records@ + records_from(book@, i as int) =~= records@);
            return records;
        }
        match (u16_at(book, i), u16_at(book, i + 2)) {
            (Some(id), Some(len)) => {
                let start: usize = i + REC_HEADER_LEN;
                if len as usize > n - start {
                    assert(records@ + records_from(book@, i as int) =~= records@);
                    return records;
                }
                let end: usize = start + len as usize;
                let ghost before = records@;
                records.push(Record { id, start, end });
                proof {
                    assert(records@ + records_from(book@, end as int) =~= before + records_from(
                        book@,
                        i as int,
                    ));
                }
                i = end;
            },
            _ => {
                assert(records@ + records_from(book@, i as int) =~= records@);
                return records;
            },
        }
    }
}

/// The bodies of some records: the segments a string may straddle.
pub open spec fn bodies(book: Seq<u8>, records: Seq<Record>) -> Seq<Seq<u8>> {
    records.map_values(|r: Record| book.subrange(r.start as int, r.end as int))
}

/// The segment that holds byte `pos` of the concatenation, and the offset
/// within it.
pub open spec fn locate(segs: Seq<Seq<u8>>, pos: int) -> Option<(int, int)>
    decreases segs.len(),
{
    if segs.len() == 0 {
        None
    } else if pos < segs[0].len() {
        Some((0, pos))
    } else {
        match locate(segs.skip(1), pos - segs[0].len()) {
            Some((i, off)) => Some((i + 1, off)),
            None => None,
        }
    }
}

/// `n` bytes at `pos`, which must not straddle a segment boundary, with the
/// position after them.
pub open spec fn take_at(segs: Seq<Seq<u8>>, pos: int, n: int) -> Option<(Seq<u8>, int)> {
    match locate(segs, pos) {
        None => None,
        Some((i, off)) => match range(segs[i], off, off + n) {
            Some(bytes) => if pos + n <= usize::MAX {
                Some((bytes, pos + n))
            } else {
                None
            },
            None => None,
        },
    }
}

/// `remaining` characters from `pos` on. The width flag is per segment: where
/// the characters cross into the next one, it begins with a fresh flag byte.
pub open spec fn chars_at(segs: Seq<Seq<u8>>, pos: int, remaining: nat, wide: bool) -> Option<
    (Seq<char>, int),
>
    decreases remaining,
{
    if remaining == 0 {
        Some((seq![], pos))
    } else {
        match locate(segs, pos) {
            None => None,
            Some((i, off)) => {
                let width = if wide {
                    2int
                } else {
                    1int
                };
                let room = (segs[i].len() - off) / width;
                let most = if room > 1 {
                    room
                } else {
                    1
                };
                let n = if remaining < most {
                    remaining as int
                } else {
                    most
                };
                match take_at(segs, pos, n * width) {
                    None => None,
                    Some((bytes, after)) => if n >= remaining {
                        Some((run_text(bytes, wide), after))
                    } else {
                        match take_at(segs, after, 1) {
                            None => None,
                            Some((flag, next)) => match chars_at(
                                segs,
                                next,
                                (remaining - n) as nat,
                                flag[0] & 0x01 != 0,
                            ) {
                                None => None,
                                Some((rest, end)) => Some((run_text(bytes, wide) + rest, end)),
                            },
                        }
                    },
                }
            },
        }
    }
}

/// The string at `pos`: a count, a flag byte, the optional counts of
/// formatting runs and of the extended block, the characters. The position
/// after it passes over the runs and the block, which are not text.
pub open spec fn string_at(segs: Seq<Seq<u8>>, pos: int) -> Option<(Seq<char>, int)> {
    match take_at(segs, pos, 2) {
        None => None,
        Some((count, p1)) => match take_at(segs, p1, 1) {
            None => None,
            Some((flags, p2)) => {
                let grbit = flags[0];
                let runs = if grbit & 0x08 != 0 {
                    match take_at(segs, p2, 2) {
                        Some((b, p)) => Some((le16(b, 0)->Some_0 as int, p)),
                        None => None,
                    }
                } else {
                    Some((0int, p2))
                };
                match runs {
                    None => None,
                    Some((run_count, p3)) => {
                        let ext = if grbit & 0x04 != 0 {
                            match take_at(segs, p3, 4) {
                                Some((b, p)) => Some((le32(b, 0)->Some_0 as int, p)),
                                None => None,
                            }
                        } else {
                            Some((0int, p3))
                        };
                        match ext {
                            None => None,
                            Some((ext_len, p4)) => match chars_at(
                                segs,
                                p4,
                                le16(count, 0)->Some_0 as nat,
                                grbit & 0x01 != 0,
                            ) {
                                None => None,
                                Some((text, p5)) => if p5 + run_count * 4 + ext_len <= usize::MAX {
                                    Some((text, p5 + run_count * 4 + ext_len))
                                } else {
                                    None
                                },
                            },
                        }
                    },
                }
            },
        },
    }
}

/// A byte cursor over the bodies of some records, aware of where they join.
struct Cursor<'a> {
    book: &'a [u8],
    segments: &'a Vec<Record>,
    pos: usize,
}

impl<'a> Cursor<'a> {
    spec fn segs(&self) -> Seq<Seq<u8>> {
        bodies(self.book@, self.segments@)
    }

    spec fn wf(&self) -> bool {
        inside(self.book@, self.segments@) && decodable(self.book@.len())
    }

    /// The segment containing `pos`, and the offset within it.
    fn locate(&self) -> (r: Option<(usize, usize)>)
        requires
            self.wf(),
        ensures
            match r {
                Some((i, off)) => locate(self.segs(), self.pos as int) == Some(
                    (i as int, off as int),
                ) && i < self.segments@.len() && off < self.segs()[i as int].len(),
                None => locate(self.segs(), self.pos as int) is None,
            },
    {
        let ghost segs = self.segs();
        let mut left: usize = self.pos;
        let mut i: usize = 0;
        assert(segs.skip(0) =~= segs);
        while i < self.segments.len()
            invariant
                self.wf(),
                segs == self.segs(),
                i <= self.segments@.len(),
                locate(segs, self.pos as int) == (match locate(segs.skip(i as int), left as int) {
                    Some((j, off)) => Some((j + i, off)),
                    None => None,
                }),
            decreases self.segments@.len() - i,
        {
            let seg = self.segments[i];
            assert(self.segments@[i as int].start <= self.segments@[i as int].end);
            let len: usize = seg.end - seg.start;
            proof {
                assert(segs.skip(i as int)[0] == segs[i as int]);
                assert(segs.skip(i as int).skip(1) =~= segs.skip(i + 1));
            }
            if left < len {
                return Some((i, left));
            }
            left = left - len;
            i += 1;
        }
        None
    }

    fn remaining_in_segment(&self) -> (r: Option<usize>)
        requires
            self.wf(),
        ensures
            match r {
                Some(n) => locate(self.segs(), self.pos as int) matches Some((i, off))
                    && n == self.segs()[i].len() - off,
                None => locate(self.segs(), self.pos as int) is None,
            },
    {
        match self.locate() {
            Some((i, off)) => {
                let seg = self.segments[i];
                assert(self.segments@[i as int].start <= self.segments@[i as int].end);
                Some(seg.end - seg.start - off)
            },
            None => None,
        }
    }

    /// `n` bytes, which must not straddle a segment boundary.
    fn take(&mut self, n: usize) -> (r: Option<&'a [u8]>)
        requires
            old(self).wf(),
        ensures
            final(self).book == old(self).book,
            final(self).segments == old(self).segments,
            match r {
                Some(b) => take_at(old(self).segs(), old(self).pos as int, n as int) == Some(
                    (b@, final(self).pos as int),
                ) && decodable(b@.len()) && b@.len() == n,
                None => take_at(old(self).segs(), old(self).pos as int, n as int) is None,
            },
    {
        let (i, off): (usize, usize) = match self.locate() {
            Some(at) => at,
            None => return None,
        };
        let seg = self.segments[i];
        assert(self.segments@[i as int].start <= self.segments@[i as int].end);
        let ghost body = self.segs()[i as int];
        if n > seg.end - seg.start - off {
            return None;
        }
        let from: usize = seg.start + off;
        let slice = &self.book[from..from + n];
        assert(slice@ =~= body.subrange(off as int, off + n));
        match self.pos.checked_add(n) {
            Some(p) => {
                self.pos = p;
                Some(slice)
            },
            None => None,
        }
    }

    fn u8(&mut self) -> (r: Option<u8>)
        requires
            old(self).wf(),
        ensures
            final(self).book == old(self).book,
            final(self).segments == old(self).segments,
            match r {
                Some(v) => take_at(old(self).segs(), old(self).pos as int, 1) matches Some((b, p))
                    && p == final(self).pos && v == b[0],
                None => take_at(old(self).segs(), old(self).pos as int, 1) is None,
            },
    {
        match self.take(1) {
            Some(b) => Some(b[0]),
            None => None,
        }
    }

    fn u16(&mut self) -> (r: Option<u16>)
        requires
            old(self).wf(),
        ensures
            final(self).book == old(self).book,
            final(self).segments == old(self).segments,
            match r {
                Some(v) => take_at(old(self).segs(), old(self).pos as int, 2) matches Some((b, p))
                    && p == final(self).pos && le16(b, 0) == Some(v),
                None => take_at(old(self).segs(), old(self).pos as int, 2) is None,
            },
    {
        match self.take(2) {
            Some(b) => u16_at(b, 0),
            None => None,
        }
    }

    fn u32(&mut self) -> (r: Option<u32>)
        requires
            old(self).wf(),
        ensures
            final(self).book == old(self).book,
            final(self).segments == old(self).segments,
            match r {
                Some(v) => take_at(old(self).segs(), old(self).pos as int, 4) matches Some((b, p))
                    && p == final(self).pos && le32(b, 0) == Some(v),
                None => take_at(old(self).segs(), old(self).pos as int, 4) is None,
            },
    {
        match self.take(4) {
            Some(b) => u32_at(b, 0),
            None => None,
        }
    }

    /// Pass over `n` bytes, whether or not they exist.
    fn skip(&mut self, n: usize) -> (r: bool)
        ensures
            final(self).book == old(self).book,
            final(self).segments == old(self).segments,
            r == (old(self).pos + n <= usize::MAX),
            r ==> final(self).pos == old(self).pos + n,
    {
        match self.pos.checked_add(n) {
            Some(p) => {
                self.pos = p;
                true
            },
            None => false,
        }
    }
}

/// The characters of a string whose header has been read.
fn read_chars(at: &mut Cursor<'_>, cch: usize, first_wide: bool) -> (r: Option<String>)
    requires
        old(at).wf(),
    ensures
        final(at).book == old(at).book,
        final(at).segments == old(at).segments,
        match r {
            Some(s) => chars_at(old(at).segs(), old(at).pos as int, cch as nat, first_wide) == Some(
                (s@, final(at).pos as int),
            ),
            None => chars_at(old(at).segs(), old(at).pos as int, cch as nat, first_wide) is None,
        },
{
    let ghost segs = at.segs();
    let ghost goal = chars_at(segs, at.pos as int, cch as nat, first_wide);
    let ghost book = at.book;
    let ghost segments = at.segments;
    let mut wide: bool = first_wide;
    let mut text = String::new();
    let mut remaining: usize = cch;
    proof {
        if let Some((t, e)) = goal {
            assert(Seq::<char>::empty() + t =~= t);
        }
    }
    while remaining > 0
        invariant
            at.wf(),
            at.book == book,
            at.segments == segments,
            segs == at.segs(),
            goal == (match chars_at(segs, at.pos as int, remaining as nat, wide) {
                Some((rest, end)) => Some((text@ + rest, end)),
                None => None,
            }),
            goal == chars_at(segs, old(at).pos as int, cch as nat, first_wide),
            segs == old(at).segs(),
            book == old(at).book,
            segments == old(at).segments,
        decreases remaining,
    {
        let left: usize = match at.remaining_in_segment() {
            Some(n) => n,
            None => return None,
        };
        let width: usize = if wide {
            2
        } else {
            1
        };
        let room: usize = left / width;
        let most: usize = if room > 1 {
            room
        } else {
            1
        };
        let n: usize = if remaining < most {
            remaining
        } else {
            most
        };
        assert(n * width <= left || n == 1);
        if n * width > left {
            assert(take_at(segs, at.pos as int, n * width) is None);
            return None;
        }
        let bytes = match at.take(n * width) {
            Some(b) => b,
            None => return None,
        };
        let run = decode_run(bytes, wide);
        let ghost before = text@;
        push_str(&mut text, run.as_str());
        remaining = remaining - n;
        if remaining > 0 {
            match at.u8() {
                Some(flag) => {
                    wide = flag & 0x01 != 0;
                    proof {
                        if let Some((rest, end)) = chars_at(
                            segs,
                            at.pos as int,
                            remaining as nat,
                            wide,
                        ) {
                            assert(before + (run@ + rest) =~= text@ + rest);
                        }
                    }
                },
                None => return None,
            }
        } else {
            proof {
                assert(text@ + Seq::<char>::empty() =~= before + run@);
            }
        }
    }
    assert(text@ + Seq::<char>::empty() =~= text@);
    Some(text)
}

/// Read the string that starts at byte `cursor` of the concatenated bodies,
/// and say where the next one starts.
pub(crate) fn read_string(book: &[u8], segments: &Vec<Record>, cursor: usize) -> (r: Option<
    (String, usize),
>)
    requires
        inside(book@, segments@),
        decodable(book@.len()),
    ensures
        match r {
            Some((s, next)) => string_at(bodies(book@, segments@), cursor as int) == Some(
                (s@, next as int),
            ),
            None => string_at(bodies(book@, segments@), cursor as int) is None,
        },
{
    let mut at = Cursor { book, segments, pos: cursor };
    let cch: usize = match at.u16() {
        Some(v) => v as usize,
        None => return None,
    };
    let grbit: u8 = match at.u8() {
        Some(v) => v,
        None => return None,
    };
    let runs: usize = if grbit & 0x08 != 0 {
        match at.u16() {
            Some(v) => v as usize,
            None => return None,
        }
    } else {
        0
    };
    let ext_len: usize = if grbit & 0x04 != 0 {
        match at.u32() {
            Some(v) => v as usize,
            None => return None,
        }
    } else {
        0
    };
    let text = match read_chars(&mut at, cch, grbit & 0x01 != 0) {
        Some(t) => t,
        None => return None,
    };
    if !at.skip(runs * 4) {
        return None;
    }
    if !at.skip(ext_len) {
        return None;
    }
    Some((text, at.pos))
}

/// The records at the front that continue another.
pub open spec fn leading_continues(records: Seq<Record>) -> Seq<Record>
    decreases records.len(),
{
    if records.len() == 0 || records[0].id != REC_CONTINUE {
        seq![]
    } else {
        seq![records[0]] + leading_continues(records.skip(1))
    }
}

/// The first shared-string record and every continuation immediately after
/// it: one logical buffer whose boundaries stay significant.
pub open spec fn sst_records(records: Seq<Record>) -> Option<Seq<Record>>
    decreases records.len(),
{
    if records.len() == 0 {
        None
    } else if records[0].id == REC_SST {
        Some(seq![records[0]] + leading_continues(records.skip(1)))
    } else {
        sst_records(records.skip(1))
    }
}

/// At most `n` strings from `pos` on; a malformed entry ends the table.
pub open spec fn strings_from(segs: Seq<Seq<u8>>, pos: int, n: nat) -> Seq<Seq<char>>
    decreases n,
{
    if n == 0 {
        seq![]
    } else {
        match string_at(segs, pos) {
            None => seq![],
            Some((text, next)) => seq![text] + strings_from(segs, next, (n - 1) as nat),
        }
    }
}

/// The shared-string table of a workbook, in index order: none where there is
/// no such record or its header does not fit.
pub open spec fn string_table(book: Seq<u8>, records: Seq<Record>) -> Seq<Seq<char>> {
    match sst_records(records) {
        None => seq![],
        Some(sst) => {
            let segs = bodies(book, sst);
            match le32(segs[0], 4) {
                None => seq![],
                Some(unique) => strings_from(segs, 8, unique as nat),
            }
        },
    }
}

fn collect_sst(book: &[u8], records: &Vec<Record>) -> (r: Option<Vec<Record>>)
    requires
        inside(book@, records@),
    ensures
        match r {
            Some(v) => sst_records(records@) == Some(v@) && inside(book@, v@) && v@.len() > 0,
            None => sst_records(records@) is None,
        },
{
    let mut p: usize = 0;
    assert(records@.skip(0) =~= records@);
    while p < records.len() && records[p].id != REC_SST
        invariant
            p <= records@.len(),
            sst_records(records@) == sst_records(records@.skip(p as int)),
        decreases records@.len() - p,
    {
        assert(records@.skip(p as int).skip(1) =~= records@.skip(p + 1));
        p += 1;
    }
    if p == records.len() {
        return None;
    }
    let mut v: Vec<Record> = Vec::new();
    assert(records@[p as int].start <= records@[p as int].end);
    v.push(records[p]);
    let mut i: usize = p + 1;
    assert(records@.skip(p as int).skip(1) =~= records@.skip(p + 1));
    while i < records.len() && records[i].id == REC_CONTINUE
        invariant
            p < i <= records@.len(),
            inside(book@, records@),
            inside(book@, v@),
            v@.len() > 0,
            v@ + leading_continues(records@.skip(i as int)) == seq![records@[p as int]]
                + leading_continues(records@.skip(p + 1)),
        decreases records@.len() - i,
    {
        let ghost before = v@;
        assert(records@[i as int].start <= records@[i as int].end);
        v.push(records[i]);
        proof {
            assert(records@.skip(i as int).skip(1) =~= records@.skip(i + 1));
            assert(v@ + leading_continues(records@.skip(i + 1)) =~= before + leading_continues(
                records@.skip(i as int),
            ));
        }
        i += 1;
    }
    assert(v@ + leading_continues(records@.skip(i as int)) =~= v@);
    Some(v)
}

/// The shared-string table. Missing or malformed is not fatal: a workbook of
/// nothing but numbers has no table at all.
pub(crate) fn shared_strings(book: &[u8], records: &Vec<Record>) -> (strings: Vec<String>)
    requires
        inside(book@, records@),
        decodable(book@.len()),
    ensures
        texts(strings@) == string_table(book@, records@),
{
    let mut strings: Vec<String> = Vec::new();
    assert(texts(strings@) =~= seq![]);
    let sst = match collect_sst(book, records) {
        Some(v) => v,
        None => return strings,
    };
    assert(sst@[0].start <= sst@[0].end);
    let first = &book[sst[0].start..sst[0].end];
    assert(first@ == bodies(book@, sst@)[0]);
    let unique: u32 = match u32_at(first, 4) {
        Some(u) => u,
        None => return strings,
    };
    let ghost segs = bodies(book@, sst@);
    let ghost goal = strings_from(segs, 8, unique as nat);
    let mut cursor: usize = 8;
    let mut left: u32 = unique;
    assert(texts(strings@) + goal =~= goal);
    while left > 0
        invariant
            inside(book@, sst@),
            decodable(book@.len()),
            segs == bodies(book@, sst@),
            texts(strings@) + strings_from(segs, cursor as int, left as nat) == goal,
        ensures
            texts(strings@) == goal,
        decreases left,
    {
        match read_string(book, &sst, cursor) {
            Some((s, next)) => {
                let ghost before = strings@;
                strings.push(s);
                proof {
                    assert(texts(strings@) =~= texts(before).push(s@));
                    assert(texts(strings@) + strings_from(segs, next as int, (left - 1) as nat)
                        =~= texts(before) + strings_from(segs, cursor as int, left as nat));
                }
                cursor = next;
            },
            None => {
                assert(texts(strings@) + strings_from(segs, cursor as int, left as nat) =~= texts(
                    strings@,
                ));
                break;
            },
        }
        left -= 1;
        if left == 0 {
            assert(texts(strings@) + strings_from(segs, cursor as int, 0) =~= texts(strings@));
        }
    }
    strings
}

/// A number that only the floating-point formatter can write out: the bits of
/// a double, the same over a hundred, or an integer over a hundred.
#[derive(Debug, Clone, Copy, PartialEq, Eq, Structural)]
pub enum FloatCell {
    Bits(u64),
    BitsPerCent(u64),
    IntPerCent(i32),
}

/// How a number cell is written out.
#[derive(Debug, Clone, Copy, PartialEq, Eq, Structural)]
pub enum NumberCell {
    Whole(i64),
    Float(FloatCell),
}

/// Numbers from this size on are never written as whole ones.
pub const WHOLE_LIMIT: i64 = 1_000_000_000_000_000;

/// The integer that the bits of a double stand for, where it is one and is
/// below the limit in size. The top bit is the sign, the next eleven the
/// exponent, the rest the mantissa without its leading one.
pub open spec fn whole_value(bits: u64) -> Option<int> {
    let exponent = bits as int / 0x10_0000_0000_0000 % 2048;
    let fraction = bits as int % 0x10_0000_0000_0000;
    let negative = bits >= 0x8000_0000_0000_0000;
    let mantissa = 0x10_0000_0000_0000 + fraction;
    let below = 1075 - exponent;
    if exponent == 0 {
        if fraction == 0 {
            Some(0)
        } else {
            None
        }
    } else if 1 <= below <= 52 && mantissa % (vstd::arithmetic::power2::pow2(below as nat) as int)
        == 0 && mantissa / (vstd::arithmetic::power2::pow2(below as nat) as int) < WHOLE_LIMIT {
        let size = mantissa / (vstd::arithmetic::power2::pow2(below as nat) as int);
        Some(
            if negative {
                -size
            } else {
                size
            },
        )
    } else {
        None
    }
}

/// Whole values without a trailing `.0`, so that a search for "2024" finds the
/// cell holding 2024.
pub open spec fn double_cell(bits: u64) -> NumberCell {
    match whole_value(bits) {
        Some(v) => NumberCell::Whole(v as i64),
        None => NumberCell::Float(FloatCell::Bits(bits)),
    }
}

/// An `RK` value packs a number into 32 bits: bit 0 says it was scaled by 100,
/// bit 1 that it is an integer rather than the top 30 bits of a double.
pub open spec fn rk_cell(raw: u32) -> NumberCell {
    let signed = if raw >= 0x8000_0000 {
        raw - 0x1_0000_0000
    } else {
        raw as int
    };
    let value = signed / 4;
    let bits = ((raw as int / 4 * 4) * 0x1_0000_0000) as u64;
    if raw as int / 2 % 2 == 1 {
        if raw as int % 2 == 0 {
            NumberCell::Whole(value as i64)
        } else if value % 100 == 0 {
            NumberCell::Whole((value / 100) as i64)
        } else {
            NumberCell::Float(FloatCell::IntPerCent(value as i32))
        }
    } else if raw as int % 2 == 1 {
        NumberCell::Float(FloatCell::BitsPerCent(bits))
    } else {
        double_cell(bits)
    }
}

fn power_of_two(n: u64) -> (p: u64)
    requires
        n <= 52,
    ensures
        p == vstd::arithmetic::power2::pow2(n as nat),
        1 <= p <= 0x10_0000_0000_0000,
    decreases n,
{
    proof {
        vstd::arithmetic::power2::lemma2_to64();
        vstd::arithmetic::power2::lemma2_to64_rest();
    }
    if n == 0 {
        1
    } else {
        let half: u64 = power_of_two(n - 1);
        proof {
            vstd::arithmetic::power2::lemma_pow2_unfold(n as nat);
            if n < 52 {
                vstd::arithmetic::power2::lemma_pow2_strictly_increases(n as nat, 52);
            }
        }
        half * 2
    }
}

pub fn read_double(bits: u64) -> (c: NumberCell)
    ensures
        c == double_cell(bits),
{
    let exponent: u64 = bits / 0x10_0000_0000_0000 % 2048;
    let fraction: u64 = bits % 0x10_0000_0000_0000;
    if exponent == 0 {
        if fraction == 0 {
            return NumberCell::Whole(0);
        }
        return NumberCell::Float(FloatCell::Bits(bits));
    }
    if exponent >= 1075 || 1075 - exponent > 52 {
        return NumberCell::Float(FloatCell::Bits(bits));
    }
    let below: u64 = 1075 - exponent;
    let mantissa: u64 = 0x10_0000_0000_0000 + fraction;
    let unit: u64 = power_of_two(below);
    if mantissa % unit == 0 && mantissa / unit < WHOLE_LIMIT as u64 {
        let size: i64 = (mantissa / unit) as i64;
        if bits >= 0x8000_0000_0000_0000 {
            NumberCell::Whole(-size)
        } else {
            NumberCell::Whole(size)
        }
    } else {
        NumberCell::Float(FloatCell::Bits(bits))
    }
}

pub fn read_rk(raw: u32) -> (c: NumberCell)
    ensures
        c == rk_cell(raw),
{
    if raw / 2 % 2 == 1 {
        let signed: i64 = if raw >= 0x8000_0000 {
            raw as i64 - 0x1_0000_0000
        } else {
            raw as i64
        };
        // The packed value, rounded down: the two flag bits stand below it.
        let low: i64 = (raw % 4) as i64;
        let value: i64 = if signed >= low {
            (signed - low) / 4
        } else {
            -((low - signed) / 4)
        };
        assert(value == signed as int / 4);
        if raw % 2 == 0 {
            return NumberCell::Whole(value);
        }
        let size: i64 = if value < 0 {
            -value
        } else {
            value
        };
        if size % 100 == 0 {
            if value < 0 {
                NumberCell::Whole(-(size / 100))
            } else {
                NumberCell::Whole(size / 100)
            }
        } else {
            NumberCell::Float(FloatCell::IntPerCent(value as i32))
        }
    } else {
        let bits: u64 = (raw / 4 * 4) as u64 * 0x1_0000_0000;
        if raw % 2 == 1 {
            NumberCell::Float(FloatCell::BitsPerCent(bits))
        } else {
            read_double(bits)
        }
    }
}

/// What one record puts on the page.
pub enum CellView {
    Nothing,
    Text(Seq<char>),
    Number(NumberCell),
    Boundary,
}

/// The cell of a record: a shared string by index, an inline string or a
/// number, after six bytes of coordinates; sheet boundaries end the line.
pub open spec fn cell_of(id: u16, body: Seq<u8>, strings: Seq<Seq<char>>) -> CellView {
    if id == REC_LABELSST {
        match le32(body, 6) {
            Some(i) => if i < strings.len() {
                CellView::Text(strings[i as int])
            } else {
                CellView::Nothing
            },
            None => CellView::Nothing,
        }
    } else if id == REC_LABEL || id == REC_RSTRING {
        match string_at(seq![body], 6) {
            Some((text, _)) => CellView::Text(text),
            None => CellView::Nothing,
        }
    } else if id == REC_NUMBER {
        match le64(body, 6) {
            Some(bits) => CellView::Number(double_cell(bits)),
            None => CellView::Nothing,
        }
    } else if id == REC_RK {
        match le32(body, 6) {
            Some(raw) => CellView::Number(rk_cell(raw)),
            None => CellView::Nothing,
        }
    } else if id == REC_EOF || id == REC_BOF {
        CellView::Boundary
    } else {
        CellView::Nothing
    }
}

enum Cell {
    Nothing,
    Text(String),
    Number(NumberCell),
    Boundary,
}

impl View for Cell {
    type V = CellView;

    closed spec fn view(&self) -> CellView {
        match *self {
            Cell::Nothing => CellView::Nothing,
            Cell::Text(s) => CellView::Text(s@),
            Cell::Number(n) => CellView::Number(n),
            Cell::Boundary => CellView::Boundary,
        }
    }
}

fn read_cell(book: &[u8], rec: Record, strings: &Vec<String>) -> (c: Cell)
    requires
        rec.start <= rec.end <= book@.len(),
        decodable(book@.len()),
    ensures
        c@ == cell_of(
            rec.id,
            book@.subrange(rec.start as int, rec.end as int),
            texts(strings@),
        ),
{
    let body = &book[rec.start..rec.end];
    if rec.id == REC_LABELSST {
        match u32_at(body, 6) {
            Some(i) => if (i as usize) < strings.len() {
                Cell::Text(strings[i as usize].clone())
            } else {
                Cell::Nothing
            },
            None => Cell::Nothing,
        }
    } else if rec.id == REC_LABEL || rec.id == REC_RSTRING {
        let mut one: Vec<Record> = Vec::new();
        one.push(rec);
        assert(bodies(book@, one@) =~= seq![body@]);
        match read_string(book, &one, 6) {
            Some((s, _)) => Cell::Text(s),
            None => Cell::Nothing,
        }
    } else if rec.id == REC_NUMBER {
        match u64_at(body, 6) {
            Some(bits) => Cell::Number(read_double(bits)),
            None => Cell::Nothing,
        }
    } else if rec.id == REC_RK {
        match u32_at(body, 6) {
            Some(raw) => Cell::Number(read_rk(raw)),
            None => Cell::Nothing,
        }
    } else if rec.id == REC_EOF || rec.id == REC_BOF {
        Cell::Boundary
    } else {
        Cell::Nothing
    }
}

/// The numbers among the first records that need the floating-point
/// formatter, in record order.
pub open spec fn floats_of(book: Seq<u8>, records: Seq<Record>) -> Seq<FloatCell>
    decreases records.len(),
{
    if records.len() == 0 {
        seq![]
    } else {
        let r = records.last();
        let before = floats_of(book, records.drop_last());
        // A number cell does not depend on the shared strings.
        match cell_of(r.id, book.subrange(r.start as int, r.end as int), seq![]) {
            CellView::Number(NumberCell::Float(f)) => before.push(f),
            _ => before,
        }
    }
}

/// The numbers of a workbook that need the floating-point formatter, in the
/// order in which an extraction asks for them.
pub fn float_cells(book: &[u8]) -> (floats: Vec<FloatCell>)
    requires
        decodable(book@.len()),
    ensures
        floats@ == floats_of(book@, records_from(book@, 0)),
{
    let records = split_records(book);
    let none: Vec<String> = Vec::new();
    assert(texts(none@) =~= seq![]);
    let mut floats: Vec<FloatCell> = Vec::new();
    let mut k: usize = 0;
    while k < records.len()
        invariant
            k <= records@.len(),
            inside(book@, records@),
            decodable(book@.len()),
            texts(none@) == Seq::<Seq<char>>::empty(),
            floats@ == floats_of(book@, records@.take(k as int)),
        decreases records@.len() - k,
    {
        proof {
            assert(records@.take(k + 1).drop_last() =~= records@.take(k as int));
            assert(records@[k as int].start <= records@[k as int].end);
        }
        match read_cell(book, records[k], &none) {
            Cell::Number(NumberCell::Float(f)) => {
                floats.push(f);
            },
            _ => {},
        }
        k += 1;
    }
    assert(records@.take(records@.len() as int) =~= records@);
    floats
}

/// A scan of the records so far: the text, whether a line is open, the bytes
/// of cell text read, the float cells passed, whether the scan goes on, and
/// whether it met a float cell that nobody wrote out.
pub struct Scan {
    pub out: Seq<char>,
    pub row_open: bool,
    pub read: int,
    pub floats: int,
    pub open: bool,
    pub missing: bool,
}

/// One more cell of text: cleaned, and a space after it.
pub open spec fn add_text(s: Scan, text: Seq<char>) -> Scan {
    Scan {
        out: s.out + cleaned(text) + seq![' '],
        row_open: true,
        read: s.read + utf8_len(text),
        ..s
    }
}

/// One more record. The scan ends where the text or the cell text read has
/// reached the budget.
pub open spec fn add_record(
    s: Scan,
    cell: CellView,
    rendered: Seq<Seq<char>>,
    budget: int,
) -> Scan {
    if !s.open || utf8_len(s.out) >= budget || s.read >= budget {
        Scan { open: false, ..s }
    } else {
        match cell {
            CellView::Nothing => s,
            CellView::Text(text) => add_text(s, text),
            CellView::Number(NumberCell::Whole(v)) => add_text(s, signed_decimal(v as int)),
            CellView::Number(NumberCell::Float(_)) => if s.floats < rendered.len() {
                add_text(Scan { floats: s.floats + 1, ..s }, rendered[s.floats])
            } else {
                Scan { open: false, missing: true, ..s }
            },
            CellView::Boundary => if s.row_open {
                Scan { out: s.out.push('\n'), row_open: false, ..s }
            } else {
                s
            },
        }
    }
}

pub open spec fn scanned(
    book: Seq<u8>,
    records: Seq<Record>,
    strings: Seq<Seq<char>>,
    rendered: Seq<Seq<char>>,
    budget: int,
) -> Scan
    decreases records.len(),
{
    if records.len() == 0 {
        Scan { out: seq![], row_open: false, read: 0, floats: 0, open: true, missing: false }
    } else {
        let r = records.last();
        add_record(
            scanned(book, records.drop_last(), strings, rendered, budget),
            cell_of(r.id, book.subrange(r.start as int, r.end as int), strings),
            rendered,
            budget,
        )
    }
}

/// The text of a scan: an open line is closed; a workbook without text is an
/// error.
pub open spec fn scan_text(s: Scan) -> Result<Seq<char>, Seq<char>> {
    let out = if s.row_open {
        s.out.push('\n')
    } else {
        s.out
    };
    if s.missing {
        Err("no rendering for number cell "@ + decimal(s.floats as nat))
    } else if blank(out) {
        Err("workbook holds no readable cell text"@)
    } else {
        Ok(out)
    }
}

/// The text of a workbook stream, given what the floating-point formatter
/// wrote for its [`floats_of`].
pub open spec fn book_text(book: Seq<u8>, rendered: Seq<Seq<char>>, budget: int) -> Result<
    Seq<char>,
    Seq<char>,
> {
    let records = records_from(book, 0);
    scan_text(scanned(book, records, string_table(book, records), rendered, budget))
}

proof fn lemma_closed(
    book: Seq<u8>,
    records: Seq<Record>,
    k: int,
    strings: Seq<Seq<char>>,
    rendered: Seq<Seq<char>>,
    budget: int,
)
    requires
        0 <= k <= records.len(),
        !scanned(book, records.take(k), strings, rendered, budget).open,
    ensures
        scanned(book, records, strings, rendered, budget) == scanned(
            book,
            records.take(k),
            strings,
            rendered,
            budget,
        ),
    decreases records.len() - k,
{
    if k == records.len() {
        assert(records.take(k) =~= records);
    } else {
        assert(records.take(k + 1).drop_last() =~= records.take(k));
        lemma_closed(book, records, k + 1, strings, rendered, budget);
    }
}

fn push_signed(out: &mut String, v: i64)
    requires
        -WHOLE_LIMIT < v < WHOLE_LIMIT,
    ensures
        final(out)@ == old(out)@ + signed_decimal(v as int),
{
    if v < 0 {
        let ghost before = out@;
        out.push('-');
        push_decimal(out, (-v) as u64);
        assert(out@ =~= before + signed_decimal(v as int));
    } else {
        push_decimal(out, v as u64);
    }
}

/// A whole cell is always below the limit in size.
proof fn lemma_whole_small(id: u16, body: Seq<u8>, strings: Seq<Seq<char>>)
    ensures
        cell_of(id, body, strings) matches CellView::Number(NumberCell::Whole(v))
            ==> -WHOLE_LIMIT < v < WHOLE_LIMIT,
{
    if let Some(bits) = le64(body, 6) {
        lemma_double_small(bits);
    }
    if let Some(raw) = le32(body, 6) {
        lemma_double_small(((raw as int / 4 * 4) * 0x1_0000_0000) as u64);
    }
}

proof fn lemma_double_small(bits: u64)
    ensures
        whole_value(bits) matches Some(v) ==> -WHOLE_LIMIT < v < WHOLE_LIMIT,
{
    let exponent = bits as int / 0x10_0000_0000_0000 % 2048;
    let below = 1075 - exponent;
    let mantissa = 0x10_0000_0000_0000 + bits as int % 0x10_0000_0000_0000;
    if 1 <= below <= 52 {
        let unit = vstd::arithmetic::power2::pow2(below as nat) as int;
        vstd::arithmetic::power2::lemma_pow2_pos(below as nat);
        assert(mantissa / unit >= 0) by (nonlinear_arith)
            requires
                mantissa >= 0,
                unit > 0,
        ;
    }
}

/// Where the scan of a workbook stands: what it is a scan of.
struct Progress {
    out: String,
    row_open: bool,
    read: u128,
    floats: usize,
}

impl Progress {
    spec fn is(&self, s: Scan) -> bool {
        &&& s.out == self.out@
        &&& s.row_open == self.row_open
        &&& s.read == self.read
        &&& s.floats == self.floats
        &&& s.open
        &&& !s.missing
    }

    fn add_text(&mut self, text: &str, Ghost(s): Ghost<Scan>)
        requires
            old(self).is(s),
            old(self).read < 0x1_0000_0000_0000_0000,
        ensures
            final(self).is(add_text(s, text@)),
    {
        clean(text, &mut self.out);
        self.out.push(' ');
        self.row_open = true;
        self.read = self.read + byte_len(text) as u128;
        assert(self.out@ =~= add_text(s, text@).out);
    }
}

/// The text of a workbook stream. A cell may resolve to text that cleans away
/// to nothing, so the budget is charged for what was read as well as for what
/// came out. `rendered` is what the floating-point formatter wrote for
/// [`float_cells`].
pub fn extract_from_book(book: &[u8], budget: usize, rendered: &Vec<String>) -> (r: Result<
    String,
    String,
>)
    requires
        decodable(book@.len()),
    ensures
        text_view(r) == book_text(book@, texts(rendered@), budget as int),
{
    let records = split_records(book);
    let strings = shared_strings(book, &records);
    let ghost table = texts(strings@);
    let ghost given = texts(rendered@);
    let mut p = Progress { out: String::new(), row_open: false, read: 0, floats: 0 };
    let mut k: usize = 0;
    assert(p.is(scanned(book@, records@.take(0), table, given, budget as int)));
    assert(records@.take(records@.len() as int) =~= records@);
    while k < records.len()
        invariant
            k <= records@.len(),
            inside(book@, records@),
            decodable(book@.len()),
            table == texts(strings@),
            given == texts(rendered@),
            records@ == records_from(book@, 0),
            table == string_table(book@, records@),
            records@.take(records@.len() as int) == records@,
            p.is(scanned(book@, records@.take(k as int), table, given, budget as int)),
        ensures
            p.is(
                Scan {
                    open: true,
                    ..scanned(book@, records@, table, given, budget as int)
                },
            ),
        decreases records@.len() - k,
    {
        let ghost so_far = scanned(book@, records@.take(k as int), table, given, budget as int);
        proof {
            assert(records@.take(k + 1).drop_last() =~= records@.take(k as int));
            assert(records@[k as int].start <= records@[k as int].end);
        }
        if byte_len(p.out.as_str()) >= budget || p.read >= budget as u128 {
            proof {
                lemma_closed(book@, records@, k + 1, table, given, budget as int);
            }
            break;
        }
        let rec = records[k];
        let ghost body = book@.subrange(rec.start as int, rec.end as int);
        proof {
            lemma_whole_small(rec.id, body, table);
        }
        match read_cell(book, rec, &strings) {
            Cell::Nothing => {},
            Cell::Text(text) => {
                p.add_text(text.as_str(), Ghost(so_far));
            },
            Cell::Number(NumberCell::Whole(v)) => {
                let mut text = String::new();
                push_signed(&mut text, v);
                assert(text@ =~= signed_decimal(v as int));
                p.add_text(text.as_str(), Ghost(so_far));
            },
            Cell::Number(NumberCell::Float(_)) => {
                if p.floats >= rendered.len() {
                    proof {
                        lemma_closed(book@, records@, k + 1, table, given, budget as int);
                    }
                    let mut e = "no rendering for number cell ".to_owned();
                    push_decimal(&mut e, p.floats as u64);
                    return Err(e);
                }
                let i: usize = p.floats;
                p.floats = i + 1;
                assert(given[i as int] == rendered@[i as int]@);
                p.add_text(
                    rendered[i].as_str(),
                    Ghost(Scan { floats: so_far.floats + 1, ..so_far }),
                );
            },
            Cell::Boundary => {
                if p.row_open {
                    p.out.push('\n');
                    p.row_open = false;
                }
            },
        }
        k += 1;
    }
    let mut out = p.out;
    if p.row_open {
        out.push('\n');
    }
    if is_blank(out.as_str()) {
        return Err("workbook holds no readable cell text".to_owned());
    }
    Ok(out)
}

/// The workbook stream: BIFF8 names it "Workbook", earlier versions "Book".
pub open spec fn book_stream(container: Seq<u8>) -> Option<Seq<u8>> {
    match stream_of(container, "Workbook"@) {
        Some(b) => Some(b),
        None => stream_of(container, "Book"@),
    }
}

/// The text of a `.xls`.
pub open spec fn workbook_text(container: Seq<u8>, rendered: Seq<Seq<char>>) -> Result<
    Seq<char>,
    Seq<char>,
> {
    match book_stream(container) {
        None => Err("no Workbook stream"@),
        Some(book) => book_text(book, rendered, MAX_TEXT_BYTES as int),
    }
}

fn open_book(container: &[u8]) -> (r: Option<Vec<u8>>)
    ensures
        match r {
            Some(b) => book_stream(container@) == Some(b@) && decodable(b@.len()),
            None => book_stream(container@) is None,
        },
{
    match stream(container, "Workbook") {
        Some(b) => Some(b),
        None => stream(container, "Book"),
    }
}

/// [`float_cells`] of the workbook in a compound file; none where there is no
/// workbook.
pub fn container_floats(container: &[u8]) -> (floats: Vec<FloatCell>)
    ensures
        floats@ == (match book_stream(container@) {
            Some(book) => floats_of(book, records_from(book, 0)),
            None => seq![],
        }),
{
    match open_book(container) {
        Some(book) => float_cells(book.as_slice()),
        None => Vec::new(),
    }
}

pub fn extract(container: &[u8], rendered: &Vec<String>) -> (r: Result<String, String>)
    ensures
        text_view(r) == workbook_text(container@, texts(rendered@)),
{
    match open_book(container) {
        Some(book) => extract_from_book(book.as_slice(), MAX_TEXT_BYTES, rendered),
        None => Err("no Workbook stream".to_owned()),
    }
}

/// A cell is a float cell whatever the shared strings are.
proof fn lemma_float_cell(id: u16, body: Seq<u8>, a: Seq<Seq<char>>, b: Seq<Seq<char>>, f: FloatCell)
    ensures
        cell_of(id, body, a) == CellView::Number(NumberCell::Float(f)) <==> cell_of(id, body, b)
            == CellView::Number(NumberCell::Float(f)),
{
}

/// Given a rendering for every float cell, an extraction never lacks one.
pub proof fn enough_renderings_suffice(
    book: Seq<u8>,
    records: Seq<Record>,
    strings: Seq<Seq<char>>,
    rendered: Seq<Seq<char>>,
    budget: int,
)
    requires
        rendered.len() >= floats_of(book, records).len(),
    ensures
        !scanned(book, records, strings, rendered, budget).missing,
        0 <= scanned(book, records, strings, rendered, budget).floats <= floats_of(
            book,
            records,
        ).len(),
    decreases records.len(),
{
    if records.len() > 0 {
        let r = records.last();
        let body = book.subrange(r.start as int, r.end as int);
        enough_renderings_suffice(book, records.drop_last(), strings, rendered, budget);
        if let CellView::Number(NumberCell::Float(f)) = cell_of(r.id, body, strings) {
            lemma_float_cell(r.id, body, strings, seq![], f);
        }
    }
}

/// Once the text, or the cell text read, has reached the budget, no further
/// record is looked at: nothing comes out after it and nothing is read.
pub proof fn a_scan_stops_at_the_budget(
    book: Seq<u8>,
    records: Seq<Record>,
    k: int,
    strings: Seq<Seq<char>>,
    rendered: Seq<Seq<char>>,
    budget: int,
)
    requires
        0 <= k <= records.len(),
        ({
            let s = scanned(book, records.take(k), strings, rendered, budget);
            utf8_len(s.out) >= budget || s.read >= budget
        }),
    ensures
        ({
            let s = scanned(book, records.take(k), strings, rendered, budget);
            let all = scanned(book, records, strings, rendered, budget);
            &&& all.out == s.out
            &&& all.read == s.read
            &&& all.row_open == s.row_open
            &&& all.floats == s.floats
            &&& all.missing == s.missing
        }),
{
    if k < records.len() {
        assert(records.take(k + 1).drop_last() =~= records.take(k));
        lemma_closed(book, records, k + 1, strings, rendered, budget);
    } else {
        assert(records.take(k) =~= records);
    }
}

/// The number that a packed integer stands for is the packed value, over a
/// hundred exactly where the scaling bit is set: a scaled value that a hundred
/// divides comes out as the quotient, and one that it does not divide is never a
/// whole number.
pub proof fn a_packed_integer_is_scaled_by_its_flag(raw: u32, v: int, scaled: bool)
    requires
        -0x2000_0000 <= v < 0x2000_0000,
        raw == 4 * v + 2 + (if scaled {
            1int
        } else {
            0
        }) + (if v < 0 {
            0x1_0000_0000int
        } else {
            0
        }),
    ensures
        !scaled ==> rk_cell(raw) == NumberCell::Whole(v as i64),
        scaled ==> match rk_cell(raw) {
            NumberCell::Whole(w) => 100 * w == v,
            NumberCell::Float(f) => v % 100 != 0 && f == FloatCell::IntPerCent(v as i32),
        },
{
}

/// A packed double is the double whose upper bits are those above the two flags
/// and whose lower bits are clear, over a hundred exactly where the scaling bit is
/// set.
pub proof fn a_packed_double_is_the_upper_half(upper: u32, raw: u32, scaled: bool)
    requires
        upper % 4 == 0,
        raw == upper + (if scaled {
            1int
        } else {
            0
        }),
    ensures
        !scaled ==> rk_cell(raw) == double_cell((upper * 0x1_0000_0000) as u64),
        scaled ==> rk_cell(raw) == NumberCell::Float(
            FloatCell::BitsPerCent((upper * 0x1_0000_0000) as u64),
        ),
{
}

/// A double is written as a whole number exactly where it is one below the limit,
/// and as the one it is: a number of this sign, exponent and fraction is the
/// mantissa times a power of two. Every other double is left to the formatter,
/// with its own bits.
pub proof fn a_whole_double_is_the_number_stored(
    bits: u64,
    negative: bool,
    exponent: int,
    fraction: int,
    n: int,
)
    requires
        0 <= exponent < 2048,
        0 <= fraction < 0x10_0000_0000_0000,
        bits == (if negative {
            0x8000_0000_0000_0000int
        } else {
            0
        }) + exponent * 0x10_0000_0000_0000 + fraction,
    ensures
        match double_cell(bits) {
            NumberCell::Whole(w) => {
                if exponent == 0 {
                    w == 0 && fraction == 0
                } else {
                    &&& 1023 <= exponent < 1075
                    &&& -1_000_000_000_000_000 < w < 1_000_000_000_000_000
                    &&& (if negative {
                        -w
                    } else {
                        w as int
                    }) * vstd::arithmetic::power2::pow2((1075 - exponent) as nat)
                        == 0x10_0000_0000_0000 + fraction
                }
            },
            NumberCell::Float(f) => f == FloatCell::Bits(bits),
        },
        exponent == 0 && fraction == 0 ==> double_cell(bits) == NumberCell::Whole(0),
        1023 <= exponent < 1075 && 0 < n < 1_000_000_000_000_000 && n
            * vstd::arithmetic::power2::pow2((1075 - exponent) as nat) == 0x10_0000_0000_0000
            + fraction ==> double_cell(bits) == NumberCell::Whole(
            (if negative {
                -n
            } else {
                n
            }) as i64,
        ),
{
    assert(bits as int / 0x10_0000_0000_0000 % 2048 == exponent);
    assert(bits as int % 0x10_0000_0000_0000 == fraction);
    let mantissa = 0x10_0000_0000_0000 + fraction;
    if 1023 <= exponent < 1075 {
        let unit = vstd::arithmetic::power2::pow2((1075 - exponent) as nat) as int;
        vstd::arithmetic::power2::lemma_pow2_pos((1075 - exponent) as nat);
        vstd::arithmetic::div_mod::lemma_fundamental_div_mod(mantissa, unit);
        lemma_double_small(bits);
        let size = mantissa / unit;
        assert(size * unit == unit * size) by (nonlinear_arith);
        if n * unit == mantissa {
            vstd::arithmetic::div_mod::lemma_fundamental_div_mod_converse(mantissa, unit, n, 0);
        }
    }
}

/// A cell that indexes the shared strings shows the string at its index, whatever
/// its coordinates are.
pub proof fn a_shared_string_is_shown_by_its_index(body: Seq<u8>, strings: Seq<Seq<char>>, i: int)
    requires
        body.len() >= 10,
        i == body[6] + 256 * body[7] + 65536 * body[8] + 16777216 * body[9],
    ensures
        cell_of(0x00FD, body, strings) == (if i < strings.len() {
            CellView::Text(strings[i])
        } else {
            CellView::Nothing
        }),
{
}

/// Within the budget a cell's text, cleaned, and one space are appended to what
/// came before, whichever kind of cell it is: a string its own text, a whole
/// number its digits, any other number the next rendering. A boundary closes an
/// open line once. Nothing that came out is taken back.
pub proof fn every_cell_is_appended(
    s: Scan,
    cell: CellView,
    rendered: Seq<Seq<char>>,
    budget: int,
)
    requires
        s.open,
        utf8_len(s.out) < budget,
        s.read < budget,
        0 <= s.floats,
    ensures
        ({
            let t = add_record(s, cell, rendered, budget);
            let text = match cell {
                CellView::Text(text) => Some(text),
                CellView::Number(NumberCell::Whole(v)) => Some(signed_decimal(v as int)),
                CellView::Number(NumberCell::Float(_)) => if s.floats < rendered.len() {
                    Some(rendered[s.floats])
                } else {
                    None
                },
                _ => None,
            };
            match text {
                Some(text) => {
                    &&& t.out == s.out + cleaned(text) + seq![' ']
                    &&& t.row_open
                    &&& t.open
                    &&& t.read == s.read + utf8_len(text)
                    &&& t.floats == s.floats + (if cell matches CellView::Number(
                        NumberCell::Float(_),
                    ) {
                        1int
                    } else {
                        0
                    })
                },
                None => {
                    &&& t.out == s.out + (if cell is Boundary && s.row_open {
                        seq!['\n']
                    } else {
                        seq![]
                    })
                    &&& t.row_open <==> s.row_open && !(cell is Boundary)
                    &&& t.open <==> !(cell is Number)
                    &&& t.read == s.read
                    &&& t.floats == s.floats
                },
            }
        }),
{
    let t = add_record(s, cell, rendered, budget);
    assert(s.out + Seq::<char>::empty() =~= s.out);
    assert(s.out.push('\n') =~= s.out + seq!['\n']);
}

/// The records lie end to end from `i` on: each begins with the four bytes of its
/// header, which hold its id and its length, right behind the one before it. The
/// last is followed by no whole record.
pub proof fn records_lie_end_to_end(book: Seq<u8>, i: int)
    requires
        0 <= i <= book.len() <= usize::MAX,
    ensures
        ({
            let rs = records_from(book, i);
            &&& forall|k: int|
                #![trigger rs[k]]
                0 <= k < rs.len() ==> {
                    let from = if k == 0 {
                        i
                    } else {
                        rs[k - 1].end as int
                    };
                    &&& rs[k].start == from + 4
                    &&& rs[k].end <= book.len()
                    &&& rs[k].id == book[from] + 256 * book[from + 1]
                    &&& rs[k].end - rs[k].start == book[from + 2] + 256 * book[from + 3]
                }
            &&& ({
                let end = if rs.len() == 0 {
                    i
                } else {
                    rs.last().end as int
                };
                end + 4 > book.len() || end + 4 + book[end + 2] + 256 * book[end + 3] > book.len()
            })
        }),
    decreases book.len() - i,
{
    if let Some(r) = record_at(book, i) {
        if i + REC_HEADER_LEN <= r.end <= book.len() {
            let rest = records_from(book, r.end as int);
            let rs = records_from(book, i);
            records_lie_end_to_end(book, r.end as int);
            assert(rs[0] == r);
            assert forall|k: int|
                #![trigger rs[k]]
                0 <= k < rs.len() implies {
                    let from = if k == 0 {
                        i
                    } else {
                        rs[k - 1].end as int
                    };
                    &&& rs[k].start == from + 4
                    &&& rs[k].end <= book.len()
                    &&& rs[k].id == book[from] + 256 * book[from + 1]
                    &&& rs[k].end - rs[k].start == book[from + 2] + 256 * book[from + 3]
                } by {
                if k > 0 {
                    assert(rs[k] == rest[k - 1]);
                    if k > 1 {
                        assert(rs[k - 1] == rest[k - 2]);
                    }
                }
            }
            if rest.len() > 0 {
                assert(rs.last() == rest.last());
            }
        }
    }
}

/// The shared strings come from the first record of their kind and from all the
/// continuations right behind it, and from no other record.
pub proof fn the_table_is_the_first_record_and_its_continuations(
    before: Seq<Record>,
    first: Record,
    more: Seq<Record>,
    after: Seq<Record>,
)
    requires
        forall|i: int| 0 <= i < before.len() ==> (#[trigger] before[i]).id != 0x00FC,
        first.id == 0x00FC,
        forall|i: int| 0 <= i < more.len() ==> (#[trigger] more[i]).id == 0x003C,
        after.len() > 0 ==> after[0].id != 0x003C,
    ensures
        sst_records(before) is None,
        sst_records(before + seq![first] + more + after) == Some(seq![first] + more),
    decreases before.len(),
{
    let all = before + seq![first] + more + after;
    if before.len() == 0 {
        assert(all[0] == first);
        assert(all.skip(1) =~= more + after);
        lemma_continues(more, after);
    } else {
        assert(all[0] == before[0]);
        let rest = before.skip(1);
        assert forall|i: int| 0 <= i < rest.len() implies (#[trigger] rest[i]).id != 0x00FC by {
            assert(rest[i] == before[i + 1]);
        }
        assert(all.skip(1) =~= rest + seq![first] + more + after);
        the_table_is_the_first_record_and_its_continuations(rest, first, more, after);
    }
}

proof fn lemma_continues(more: Seq<Record>, after: Seq<Record>)
    requires
        forall|i: int| 0 <= i < more.len() ==> (#[trigger] more[i]).id == 0x003C,
        after.len() > 0 ==> after[0].id != 0x003C,
    ensures
        leading_continues(more + after) == more,
    decreases more.len(),
{
    if more.len() == 0 {
        assert(more + after =~= after);
        assert(leading_continues(after) =~= more);
    } else {
        let rest = more.skip(1);
        assert((more + after)[0] == more[0]);
        assert((more + after).skip(1) =~= rest + after);
        assert forall|i: int| 0 <= i < rest.len() implies (#[trigger] rest[i]).id == 0x003C by {
            assert(rest[i] == more[i + 1]);
        }
        lemma_continues(rest, after);
        assert(leading_continues(more + after) =~= more);
    }
}

/// A string that lies in one segment is the decoded run of as many characters as
/// it counts, behind its header; the formatting runs and the extended block after
/// it are passed over and give no text.
pub proof fn a_string_is_its_characters(seg: Seq<u8>, pos: int)
    requires
        0 <= pos,
        pos + 9 <= seg.len(),
        seg.len() + 0x1_0004_0000 <= usize::MAX,
        seg[pos] + 256 * seg[pos + 1] > 0,
    ensures
        ({
            let count = seg[pos] + 256 * seg[pos + 1];
            let flags = seg[pos + 2];
            let runs = if flags & 0x08 != 0 {
                seg[pos + 3] + 256 * seg[pos + 4]
            } else {
                0int
            };
            let at = pos + 3 + if flags & 0x08 != 0 {
                2int
            } else {
                0
            };
            let extra = if flags & 0x04 != 0 {
                seg[at] + 256 * seg[at + 1] + 65536 * seg[at + 2] + 16777216 * seg[at + 3]
            } else {
                0int
            };
            let from = at + if flags & 0x04 != 0 {
                4int
            } else {
                0
            };
            let wide = flags & 0x01 != 0;
            let end = from + count * if wide {
                2int
            } else {
                1
            };
            end <= seg.len() ==> string_at(seq![seg], pos) == Some(
                (run_text(seg.subrange(from, end), wide), end + 4 * runs + extra),
            )
        }),
{
    let segs = seq![seg];
    let count = seg[pos] + 256 * seg[pos + 1];
    let flags = seg[pos + 2];
    let at = pos + 3 + if flags & 0x08 != 0 {
        2int
    } else {
        0
    };
    let from = at + if flags & 0x04 != 0 {
        4int
    } else {
        0
    };
    let wide = flags & 0x01 != 0;
    let width = if wide {
        2int
    } else {
        1int
    };
    let end = from + count * width;
    assert(forall|p: int| 0 <= p < seg.len() ==> locate(segs, p) == Some((0int, p)));
    lemma_one_segment(seg, pos, 2);
    lemma_one_segment(seg, pos + 2, 1);
    lemma_one_segment(seg, pos + 3, 2);
    lemma_one_segment(seg, at, 4);
    if end <= seg.len() {
        assert(from < end) by (nonlinear_arith)
            requires
                end == from + count * width,
                count > 0,
                width == 1 || width == 2,
        ;
        lemma_one_segment(seg, from, count * width);
        let room = (seg.len() - from) / width;
        assert(room >= count) by (nonlinear_arith)
            requires
                room == (seg.len() - from) / width,
                from + count * width <= seg.len(),
                width == 1 || width == 2,
        ;
        assert(chars_at(segs, from, count as nat, wide) == Some(
            (run_text(seg.subrange(from, end), wide), end),
        ));
    }
}

proof fn lemma_one_segment(seg: Seq<u8>, pos: int, n: int)
    requires
        0 <= pos < seg.len(),
        0 <= n,
        pos + n <= usize::MAX,
    ensures
        take_at(seq![seg], pos, n) == (if pos + n <= seg.len() {
            Some((seg.subrange(pos, pos + n), pos + n))
        } else {
            None
        }),
{
    assert(seq![seg][0] == seg);
    assert(locate(seq![seg], pos) == Some((0int, pos)));
}

/// A workbook is read from its first byte: one that is a single record is the text
/// of that record.
pub proof fn a_book_is_read_from_its_start(
    book: Seq<u8>,
    rendered: Seq<Seq<char>>,
    budget: int,
)
    requires
        4 <= book.len() <= usize::MAX,
        book.len() == 4 + book[2] + 256 * book[3],
    ensures
        ({
            let only = seq![
                Record {
                    id: (book[0] + 256 * book[1]) as u16,
                    start: 4,
                    end: book.len() as usize,
                },
            ];
            book_text(book, rendered, budget) == scan_text(
                scanned(book, only, string_table(book, only), rendered, budget),
            )
        }),
{
    let r = record_at(book, 0)->Some_0;
    assert(record_at(book, 0) is Some);
    assert(record_at(book, book.len() as int) is None);
    assert(records_from(book, book.len() as int) =~= seq![]);
    assert(records_from(book, 0) =~= seq![r]);
}

proof fn lemma_strings_bounded(segs: Seq<Seq<u8>>, pos: int, n: nat)
    ensures
        strings_from(segs, pos, n).len() <= n,
    decreases n,
{
    if n > 0 {
        if let Some((_, next)) = string_at(segs, pos) {
            lemma_strings_bounded(segs, next, (n - 1) as nat);
        }
    }
}

/// The table holds as many strings as its header counts, and fewer only where one
/// does not fit; they begin right behind the header.
pub proof fn the_table_counts_its_strings(book: Seq<u8>, records: Seq<Record>)
    requires
        sst_records(records) is Some,
        sst_records(records)->Some_0.len() > 0,
    ensures
        ({
            let segs = bodies(book, sst_records(records)->Some_0);
            let h = segs[0];
            let n = h[4] + 256 * h[5] + 65536 * h[6] + 16777216 * h[7];
            &&& h.len() < 8 ==> string_table(book, records).len() == 0
            &&& h.len() >= 8 ==> string_table(book, records).len() <= n
            &&& h.len() >= 8 && n > 0 && string_at(segs, 8) is Some ==> string_table(
                book,
                records,
            ).len() > 0 && string_table(book, records)[0] == string_at(segs, 8)->Some_0.0
        }),
{
    let segs = bodies(book, sst_records(records)->Some_0);
    if let Some(unique) = le32(segs[0], 4) {
        lemma_strings_bounded(segs, 8, unique as nat);
    }
}

/// A scan gives its text, the last row closed, unless a rendering was missing or
/// there is nothing to read; each of these is an error of its own.
pub proof fn a_scan_gives_its_text(s: Scan)
    ensures
        s.missing ==> scan_text(s) == Err::<Seq<char>, Seq<char>>(
            "no rendering for number cell "@ + decimal(s.floats as nat),
        ),
        !s.missing && blank(s.out) ==> scan_text(s) == Err::<Seq<char>, Seq<char>>(
            "workbook holds no readable cell text"@,
        ),
        !s.missing && !blank(s.out) && s.row_open ==> scan_text(s) == Ok::<Seq<char>, Seq<char>>(
            s.out + seq!['\n'],
        ),
        !s.missing && !blank(s.out) && !s.row_open ==> scan_text(s) == Ok::<
            Seq<char>,
            Seq<char>,
        >(s.out),
{
    assert(s.out + seq!['\n'] =~= s.out.push('\n'));
    if !blank(s.out) {
        let i = choose|i: int| 0 <= i < s.out.len() && !crate::text::is_white(#[trigger] s.out[i]);
        assert(!crate::text::is_white(s.out.push('\n')[i]));
    }
}

} // verus!
