//! Fast subtree entry counting for progress denominators: what a counting
//! pipeline's output says, when a count is retried or cancelled, and the
//! records of a bulk directory listing.
//!
//! Processes are spawned and directories read outside this crate.
use crate::bytes::{le16, le32, u16_at, u32_at};
use crate::text::{
    chars_of, contains, digit, digit_of, holds, is_white, joined, lossy_text, number, occurs_at,
    parse_chars, parse_unsigned, push_str, string_from, texts, unsigned_digits, utf8_lossy, white,
};
use vstd::prelude::*;

verus! {

/// How a text is written between quotes with its special characters escaped,
/// as `{:?}` writes it.
pub uninterp spec fn quoted_text(s: Seq<char>) -> Seq<char>;

/// Formats a text with `{:?}`, by `core::fmt::Debug` for `str`. The claim: the
/// result depends on the text alone.
#[verifier::external_body]
fn quoted(s: &str) -> (r: String)
    ensures
        r@ == quoted_text(s@),
{
    format!("{:?}", s)
}

/// Where the first character that is no white space stands.
pub open spec fn token_start(s: Seq<char>) -> int
    decreases s.len(),
{
    if s.len() > 0 && is_white(s[0]) {
        1 + token_start(s.drop_first())
    } else {
        0
    }
}

/// How many characters come before the first white space.
pub open spec fn token_len(s: Seq<char>) -> int
    decreases s.len(),
{
    if s.len() > 0 && !is_white(s[0]) {
        1 + token_len(s.drop_first())
    } else {
        0
    }
}

/// The first word of a text.
pub open spec fn first_token(s: Seq<char>) -> Option<Seq<char>> {
    let rest = s.skip(token_start(s));
    if rest.len() == 0 {
        None
    } else {
        Some(rest.take(token_len(rest)))
    }
}

/// How many decimal digits a text starts with.
pub open spec fn leading_digits(s: Seq<char>) -> int
    decreases s.len(),
{
    if s.len() > 0 && digit(s[0], 10) is Some {
        1 + leading_digits(s.drop_first())
    } else {
        0
    }
}

/// Why a text is no count. The digits are read from the left, so a count that
/// has grown too large is told before a bad character behind it.
pub open spec fn count_error(token: Seq<char>) -> Seq<char> {
    let d = unsigned_digits(token);
    let k = leading_digits(d);
    if number(d.take(k), 10) > usize::MAX {
        "number too large to fit in target type"@
    } else {
        "invalid digit found in string"@
    }
}

/// What a `wc -l` output says.
pub open spec fn wc_count(text: Seq<char>) -> Result<int, Seq<char>> {
    match first_token(text) {
        None => Err("wc: empty output"@),
        Some(token) => match parse_unsigned(token, 10, usize::MAX as int) {
            Some(n) => Ok(n),
            None => Err(
                "wc: invalid count "@ + quoted_text(token) + ": "@ + count_error(token),
            ),
        },
    }
}

/// A count by its value, or the error's text.
pub open spec fn count_view(r: Result<usize, String>) -> Result<int, Seq<char>> {
    match r {
        Ok(n) => Ok(n as int),
        Err(e) => Err(e@),
    }
}

proof fn lemma_token_bounds(s: Seq<char>)
    ensures
        0 <= token_start(s) <= s.len(),
        0 <= token_len(s) <= s.len(),
        0 <= leading_digits(s) <= s.len(),
    decreases s.len(),
{
    if s.len() > 0 {
        lemma_token_bounds(s.drop_first());
    }
}

/// The digits a text starts with are digits.
proof fn lemma_leading_digits(d: Seq<char>)
    ensures
        forall|i: int|
            0 <= i < leading_digits(d) ==> digit(#[trigger] d[i], 10) is Some,
    decreases d.len(),
{
    lemma_token_bounds(d);
    if d.len() > 0 && digit(d[0], 10) is Some {
        lemma_leading_digits(d.drop_first());
        assert forall|i: int| 0 <= i < leading_digits(d) implies digit(
            #[trigger] d[i],
            10,
        ) is Some by {
            if i > 0 {
                assert(d[i] == d.drop_first()[i - 1]);
            }
        }
    }
}

/// The count that a `wc -l` prints.
pub fn parse_wc_l_stdout(bytes: &[u8]) -> (r: Result<usize, String>)
    ensures
        count_view(r) == wc_count(lossy_text(bytes@)),
{
    let text = utf8_lossy(bytes);
    let v = chars_of(text.as_str());
    let ghost s = v@;
    let mut from: usize = 0;
    assert(s.skip(0) =~= s);
    while from < v.len() && white(v[from])
        invariant
            from <= v@.len(),
            v@ == s,
            token_start(s) == from + token_start(s.skip(from as int)),
        decreases v@.len() - from,
    {
        assert(s.skip(from as int).drop_first() =~= s.skip(from + 1));
        assert(s.skip(from as int)[0] == s[from as int]);
        from += 1;
    }
    assert(from < s.len() ==> s.skip(from as int)[0] == s[from as int]);
    assert(token_start(s) == from);
    let ghost rest = s.skip(from as int);
    if from == v.len() {
        return Err("wc: empty output".to_owned());
    }
    let mut to: usize = from;
    while to < v.len() && !white(v[to])
        invariant
            from <= to <= v@.len(),
            v@ == s,
            rest == s.skip(from as int),
            token_len(rest) == (to - from) + token_len(s.skip(to as int)),
        decreases v@.len() - to,
    {
        assert(s.skip(to as int).drop_first() =~= s.skip(to + 1));
        assert(s.skip(to as int)[0] == s[to as int]);
        to += 1;
    }
    assert(to < s.len() ==> s.skip(to as int)[0] == s[to as int]);
    let token = string_from(&v, from, to);
    assert(token@ =~= rest.take(token_len(rest)));
    assert(first_token(s) == Some(token@));
    let tv = chars_of(token.as_str());
    assert(tv@.skip(0) =~= tv@);
    match parse_chars(&tv, 0, 10, usize::MAX as u64) {
        Some(n) => Ok(n as usize),
        None => {
            let mut line = joined("wc: invalid count ", quoted(token.as_str()).as_str());
            push_str(&mut line, ": ");
            push_str(&mut line, count_failure(&tv));
            Err(line)
        },
    }
}

/// Why a text is no count.
fn count_failure(v: &Vec<char>) -> (r: &'static str)
    ensures
        r@ == count_error(v@),
{
    let start: usize = if v.len() > 1 && v[0] == '+' {
        1
    } else {
        0
    };
    let ghost d = unsigned_digits(v@);
    assert(d =~= v@.skip(start as int));
    let mut k: usize = start;
    let mut digits: Vec<char> = Vec::new();
    let mut more = true;
    while more && k < v.len()
        invariant
            start <= k <= v@.len(),
            d == v@.skip(start as int),
            digits@ == d.take(k - start),
            more ==> leading_digits(d) == (k - start) + leading_digits(v@.skip(k as int)),
            !more ==> leading_digits(d) == k - start,
        decreases v@.len() - k + (if more {
            1int
        } else {
            0
        }),
    {
        assert(v@.skip(k as int)[0] == v@[k as int]);
        assert(v@.skip(k as int).drop_first() =~= v@.skip(k + 1));
        match digit_of(v[k], 10) {
            Some(_) => {
                digits.push(v[k]);
                assert(digits@ =~= d.take(k + 1 - start));
                k += 1;
            },
            None => {
                more = false;
            },
        }
    }
    assert(leading_digits(d) == k - start);
    assert(digits@ == d.take(leading_digits(d)));
    if digits.len() == 0 {
        assert(digits@ =~= seq![]);
        return "invalid digit found in string";
    }
    proof {
        lemma_leading_digits(d);
        lemma_token_bounds(d);
        assert(unsigned_digits(digits@) == digits@) by {
            assert(digit(d[0], 10) is Some);
            assert(digits@[0] == d[0]);
        }
        assert forall|i: int| 0 <= i < digits@.len() implies digit(
            #[trigger] digits@[i],
            10,
        ) is Some by {
            assert(digits@[i] == d[i]);
        }
        assert(digits@.skip(0) =~= digits@);
    }
    match parse_chars(&digits, 0, 10, usize::MAX as u64) {
        Some(_) => "invalid digit found in string",
        None => "number too large to fit in target type",
    }
}

/// Milliseconds between two looks at the counting processes; the granularity
/// of cancellation.
pub const COUNT_POLL_MS: u64 = 50;

/// What looking at the last process of the pipeline showed.
#[derive(Debug)]
pub enum Polled {
    Running,
    /// It exited; the status as shown to people, and what it printed.
    Exited { success: bool, status: String, stdout: Vec<u8> },
    Failed(String),
    /// There is no process to look at.
    Missing,
}

/// A [`Polled`] by its contents.
pub enum PolledView {
    Running,
    Exited { success: bool, status: Seq<char>, stdout: Seq<u8> },
    Failed(Seq<char>),
    Missing,
}

impl View for Polled {
    type V = PolledView;

    open spec fn view(&self) -> PolledView {
        match *self {
            Polled::Running => PolledView::Running,
            Polled::Exited { success, status, stdout } => PolledView::Exited {
                success,
                status: status@,
                stdout: stdout@,
            },
            Polled::Failed(e) => PolledView::Failed(e@),
            Polled::Missing => PolledView::Missing,
        }
    }
}

/// What to do after a look at the pipeline.
#[derive(Debug)]
pub enum PollStep {
    /// Kill and reap every process; the count ends with this error.
    Kill(String),
    /// Look again after this many milliseconds.
    Sleep(u64),
    /// The pipeline ended, with this count or error.
    Done(Result<usize, String>),
}

/// A [`PollStep`] by its contents.
pub enum PollView {
    Kill(Seq<char>),
    Sleep(u64),
    Done(Result<int, Seq<char>>),
}

impl View for PollStep {
    type V = PollView;

    open spec fn view(&self) -> PollView {
        match *self {
            PollStep::Kill(e) => PollView::Kill(e@),
            PollStep::Sleep(ms) => PollView::Sleep(ms),
            PollStep::Done(r) => PollView::Done(count_view(r)),
        }
    }
}

/// What to do after a look at the pipeline. Cancellation comes before whatever
/// the look showed.
pub open spec fn polled(cancel: bool, look: PolledView) -> PollView {
    if cancel {
        PollView::Kill("count cancelled"@)
    } else {
        match look {
            PolledView::Missing => PollView::Done(Err("count pipeline spawned no processes"@)),
            PolledView::Running => PollView::Sleep(COUNT_POLL_MS),
            PolledView::Failed(e) => PollView::Done(Err("count wait: "@ + e)),
            PolledView::Exited { success, status, stdout } => if success {
                PollView::Done(wc_count(lossy_text(stdout)))
            } else {
                PollView::Done(Err("count pipeline exited with "@ + status))
            },
        }
    }
}

/// Decide what to do after a look at the pipeline.
pub fn poll_pipeline(cancel: bool, look: Polled) -> (r: PollStep)
    ensures
        r@ == polled(cancel, look@),
{
    if cancel {
        return PollStep::Kill("count cancelled".to_owned());
    }
    match look {
        Polled::Missing => PollStep::Done(Err("count pipeline spawned no processes".to_owned())),
        Polled::Running => PollStep::Sleep(COUNT_POLL_MS),
        Polled::Failed(e) => PollStep::Done(Err(joined("count wait: ", e.as_str()))),
        Polled::Exited { success, status, stdout } => {
            if success {
                PollStep::Done(parse_wc_l_stdout(stdout.as_slice()))
            } else {
                PollStep::Done(Err(joined("count pipeline exited with ", status.as_str())))
            }
        },
    }
}

/// The arguments of the listing process. The first form prints one newline per
/// entry without formatting paths; the second is the plain listing, for a
/// `find` that does not know the first.
pub fn find_args(path: &str, printf_newlines: bool) -> (r: Vec<String>)
    ensures
        texts(r@) == if printf_newlines {
            seq![path@, "-printf"@, "\n"@]
        } else {
            seq![path@]
        },
{
    let mut r: Vec<String> = Vec::new();
    r.push(path.to_owned());
    if printf_newlines {
        r.push("-printf".to_owned());
        r.push("\n".to_owned());
    }
    assert(texts(r@) =~= if printf_newlines {
        seq![path@, "-printf"@, "\n"@]
    } else {
        seq![path@]
    });
    r
}

/// One count of a tree's entries: which listing it runs, and what each look at
/// it leads to.
#[derive(Debug)]
pub struct TreeCount {
    path: String,
    printf_newlines: bool,
}

/// What a tree count asks for next.
#[derive(Debug)]
pub enum CountStep {
    /// Kill and reap the processes; the count ends with this error.
    Kill(String),
    Sleep(u64),
    /// Spawn the listing again, with other arguments.
    Retry,
    Done(Result<usize, String>),
}

/// Rough tree entry count for progress totals.
pub fn count_tree_entries_fast(path: &str) -> (r: TreeCount)
    ensures
        r.path_view() == path@,
        r.first_attempt(),
{
    TreeCount { path: path.to_owned(), printf_newlines: true }
}

impl TreeCount {
    pub closed spec fn path_view(&self) -> Seq<char> {
        self.path@
    }

    /// Whether the count still runs the fast listing.
    pub closed spec fn first_attempt(&self) -> bool {
        self.printf_newlines
    }

    /// The arguments to spawn the listing with.
    pub fn args(&self) -> (r: Vec<String>)
        ensures
            texts(r@) == if self.first_attempt() {
                seq![self.path_view(), "-printf"@, "\n"@]
            } else {
                seq![self.path_view()]
            },
    {
        find_args(self.path.as_str(), self.printf_newlines)
    }

    /// A listing ended, spawning included. One failure is retried with the
    /// plain listing; a cancellation never is.
    pub fn ended(&mut self, result: Result<usize, String>) -> (r: CountStep)
        ensures
            final(self).path_view() == old(self).path_view(),
            match result {
                Err(e) if old(self).first_attempt() && !contains(e@, "cancelled"@) => {
                    &&& r is Retry
                    &&& !final(self).first_attempt()
                },
                _ => {
                    &&& final(self).first_attempt() == old(self).first_attempt()
                    &&& match r {
                        CountStep::Done(x) => count_view(x) == count_view(result),
                        _ => false,
                    }
                },
            },
    {
        match result {
            Err(e) => {
                if self.printf_newlines && !holds(e.as_str(), "cancelled") {
                    self.printf_newlines = false;
                    CountStep::Retry
                } else {
                    CountStep::Done(Err(e))
                }
            },
            Ok(n) => CountStep::Done(Ok(n)),
        }
    }

    /// Decide after a look at the pipeline.
    pub fn poll(&mut self, cancel: bool, look: Polled) -> (r: CountStep)
        ensures
            final(self).path_view() == old(self).path_view(),
            match polled(cancel, look@) {
                PollView::Kill(e) => {
                    &&& r matches CountStep::Kill(x) && x@ == e
                    &&& final(self).first_attempt() == old(self).first_attempt()
                },
                PollView::Sleep(ms) => {
                    &&& r == CountStep::Sleep(ms)
                    &&& final(self).first_attempt() == old(self).first_attempt()
                },
                PollView::Done(Err(e)) if old(self).first_attempt() && !contains(
                    e,
                    "cancelled"@,
                ) => r is Retry && !final(self).first_attempt(),
                PollView::Done(v) => {
                    &&& r matches CountStep::Done(x) && count_view(x) == v
                    &&& final(self).first_attempt() == old(self).first_attempt()
                },
            },
    {
        match poll_pipeline(cancel, look) {
            PollStep::Kill(e) => CountStep::Kill(e),
            PollStep::Sleep(ms) => CountStep::Sleep(ms),
            PollStep::Done(r) => self.ended(r),
        }
    }
}

/// A cancelled count ends at the next look, whatever it shows, and is not
/// retried: its error names the cancellation.
pub proof fn a_cancelled_count_is_not_retried(look: PolledView)
    ensures
        polled(true, look) == PollView::Kill("count cancelled"@),
        contains("count cancelled"@, "cancelled"@),
{
    reveal_strlit("count cancelled");
    reveal_strlit("cancelled");
    assert("count cancelled"@.subrange(6, 15) =~= "cancelled"@);
    assert(occurs_at("count cancelled"@, "cancelled"@, 6));
}

/// The attribute bit of a directory.
pub const ATTR_DIRECTORY: u32 = 0x10;

/// Where a bulk listing's record keeps its attributes.
pub const ATTRIBUTES_AT: usize = 56;

/// Where a record keeps the length of its name, in bytes.
pub const NAME_LENGTH_AT: usize = 60;

/// Where a record's name starts.
pub const NAME_AT: usize = 104;

/// One record of a bulk directory listing: how far on the next one is (0 for
/// the last), whether it is a directory, and its name in UTF-16.
#[derive(Debug)]
pub struct DirRecord {
    pub next: usize,
    pub is_dir: bool,
    pub name: Vec<u16>,
}

/// The UTF-16 units at a place.
pub open spec fn units_at(b: Seq<u8>, off: int, n: int) -> Seq<u16> {
    Seq::new(n as nat, |i: int| le16(b, off + 2 * i)->Some_0)
}

/// The record at an offset, where it lies within the buffer.
pub open spec fn record_at(b: Seq<u8>, off: int) -> Option<(u32, u32, Seq<u16>)> {
    if off < 0 || off + NAME_AT > b.len() {
        None
    } else {
        let n = le32(b, off + NAME_LENGTH_AT)->Some_0 as int / 2;
        if off + NAME_AT + 2 * n > b.len() {
            None
        } else {
            Some(
                (
                    le32(b, off)->Some_0,
                    le32(b, off + ATTRIBUTES_AT)->Some_0,
                    units_at(b, off + NAME_AT, n),
                ),
            )
        }
    }
}

/// Read the record at an offset. The name is not terminated: its length is the
/// only thing that says where it ends. `None` where the record does not fit
/// the buffer.
pub fn read_record(b: &[u8], off: usize) -> (r: Option<DirRecord>)
    ensures
        match (r, record_at(b@, off as int)) {
            (Some(d), Some(v)) => d.next == v.0 && d.is_dir == (v.1 & ATTR_DIRECTORY != 0)
                && d.name@ == v.2,
            (None, None) => true,
            _ => false,
        },
{
    let n: usize = b.len();
    if n < NAME_AT || off > n - NAME_AT {
        return None;
    }
    let next: u32 = match u32_at(b, off) {
        Some(x) => x,
        None => return None,
    };
    let attributes: u32 = match u32_at(b, off + ATTRIBUTES_AT) {
        Some(x) => x,
        None => return None,
    };
    let length: u32 = match u32_at(b, off + NAME_LENGTH_AT) {
        Some(x) => x,
        None => return None,
    };
    let units: usize = (length / 2) as usize;
    if units > (n - NAME_AT - off) / 2 {
        return None;
    }
    let mut name: Vec<u16> = Vec::new();
    let mut i: usize = 0;
    while i < units
        invariant
            i <= units,
            n == b@.len(),
            off + NAME_AT + 2 * units <= n,
            name@ == units_at(b@, off + NAME_AT, i as int),
        decreases units - i,
    {
        match u16_at(b, off + NAME_AT + 2 * i) {
            Some(u) => {
                name.push(u);
            },
            None => {
                assert(false);
            },
        }
        assert(name@ =~= units_at(b@, off + NAME_AT, i + 1));
        i += 1;
    }
    Some(DirRecord { next: next as usize, is_dir: attributes & ATTR_DIRECTORY != 0, name })
}

/// Whether a name is an entry of the listing but not of the tree: "." or "..".
pub open spec fn is_dots(name: Seq<u16>) -> bool {
    name == seq![46u16] || name == seq![46u16, 46u16]
}

fn dots(name: &Vec<u16>) -> (r: bool)
    ensures
        r == is_dots(name@),
{
    let r: bool = (name.len() == 1 && name[0] == 46) || (name.len() == 2 && name[0] == 46
        && name[1] == 46);
    proof {
        if name@.len() == 1 && name@[0] == 46 {
            assert(name@ =~= seq![46u16]);
        }
        if name@.len() == 2 && name@[0] == 46 && name@[1] == 46 {
            assert(name@ =~= seq![46u16, 46u16]);
        }
        if name@ == seq![46u16] {
            assert(name@.len() == 1);
        }
        if name@ == seq![46u16, 46u16] {
            assert(name@.len() == 2);
        }
    }
    r
}

/// A directory's path and a name in it, joined by the separator where the
/// directory does not end in one. A bare drive takes none: `C:` and a name
/// make a path relative to the drive's current directory.
pub open spec fn wide_join(dir: Seq<u16>, name: Seq<u16>) -> Seq<u16> {
    let bare_drive = dir.len() == 2 && dir[1] == 58 && is_letter(dir[0]);
    if dir.len() == 0 || dir.last() == 92 || dir.last() == 47 || bare_drive {
        dir + name
    } else {
        dir.push(92) + name
    }
}

/// Whether a UTF-16 unit is an ASCII letter.
pub open spec fn is_letter(u: u16) -> bool {
    65 <= u <= 90 || 97 <= u <= 122
}

fn join_wide(dir: &Vec<u16>, name: &Vec<u16>) -> (r: Vec<u16>)
    ensures
        r@ == wide_join(dir@, name@),
{
    let mut r: Vec<u16> = Vec::new();
    let mut i: usize = 0;
    while i < dir.len()
        invariant
            i <= dir@.len(),
            r@ == dir@.take(i as int),
        decreases dir@.len() - i,
    {
        r.push(dir[i]);
        assert(r@ =~= dir@.take(i + 1));
        i += 1;
    }
    assert(dir@.take(dir@.len() as int) =~= dir@);
    let n: usize = dir.len();
    let joined: bool = n == 0 || dir[n - 1] == 92 || dir[n - 1] == 47 || (n == 2 && dir[1] == 58
        && ((65 <= dir[0] && dir[0] <= 90) || (97 <= dir[0] && dir[0] <= 122)));
    if !joined {
        r.push(92);
    }
    let ghost front = r@;
    let mut j: usize = 0;
    while j < name.len()
        invariant
            j <= name@.len(),
            r@ == front + name@.take(j as int),
        decreases name@.len() - j,
    {
        r.push(name[j]);
        assert(r@ =~= front + name@.take(j + 1));
        j += 1;
    }
    assert(name@.take(name@.len() as int) =~= name@);
    r
}

/// Counting a tree by reading its directories in bulk. The recursion is
/// explicit, so a deep tree cannot exhaust the stack.
#[derive(Debug)]
pub struct BulkCount {
    /// Directories still to read.
    pending: Vec<Vec<u16>>,
    /// The directory being read.
    dir: Vec<u16>,
    count: usize,
}

/// A [`BulkCount`] by its contents.
pub struct BulkView {
    pub pending: Seq<Seq<u16>>,
    pub dir: Seq<u16>,
    pub count: nat,
}

pub open spec fn wides(v: Seq<Vec<u16>>) -> Seq<Seq<u16>> {
    v.map_values(|w: Vec<u16>| w@)
}

impl View for BulkCount {
    type V = BulkView;

    closed spec fn view(&self) -> BulkView {
        BulkView { pending: wides(self.pending@), dir: self.dir@, count: self.count as nat }
    }
}

/// What a bulk count asks for next.
#[derive(Debug)]
pub enum BulkStep {
    /// Open this directory and read its listing, buffer by buffer. One that
    /// cannot be opened costs its own entries, not the tree's.
    Open(Vec<u16>),
    /// The count ended, with its result.
    Done(Result<usize, String>),
}

/// Where a buffer goes on after one of its records.
#[derive(Debug, Clone, Copy, PartialEq, Eq, Structural)]
pub enum RecordStep {
    /// The count was cancelled: close the directory.
    Cancelled,
    /// The next record is at this offset.
    Next(usize),
    /// The buffer holds no further record: read the next one.
    BufferDone,
}

/// A count once it has seen a record.
pub open spec fn after_record(s: BulkView, name: Seq<u16>, is_dir: bool) -> BulkView {
    if is_dots(name) {
        s
    } else {
        BulkView {
            pending: if is_dir {
                s.pending.push(wide_join(s.dir, name))
            } else {
                s.pending
            },
            dir: s.dir,
            count: s.count + 1,
        }
    }
}

impl BulkCount {
    /// Count the tree beneath a directory.
    pub fn new(path: Vec<u16>) -> (r: BulkCount)
        ensures
            r@ == (BulkView { pending: seq![path@], dir: seq![], count: 0 }),
    {
        let mut pending: Vec<Vec<u16>> = Vec::new();
        pending.push(path);
        let r = BulkCount { pending, dir: Vec::new(), count: 0 };
        assert(r@.pending =~= seq![path@]);
        assert(r@.dir =~= seq![]);
        r
    }

    /// The next directory: the last one found.
    pub fn next_dir(&mut self, cancel: bool) -> (r: BulkStep)
        ensures
            if old(self)@.pending.len() == 0 {
                &&& final(self)@ == old(self)@
                &&& r matches BulkStep::Done(Ok(n)) && n == old(self)@.count
            } else if cancel {
                &&& final(self)@ == (BulkView {
                    pending: old(self)@.pending.drop_last(),
                    ..old(self)@
                })
                &&& r matches BulkStep::Done(Err(e)) && e@ == "count cancelled"@
            } else {
                &&& r matches BulkStep::Open(d) && d@ == old(self)@.pending.last()
                &&& final(self)@ == (BulkView {
                    pending: old(self)@.pending.drop_last(),
                    dir: old(self)@.pending.last(),
                    count: old(self)@.count,
                })
            },
    {
        let ghost before = self.pending@;
        assert(before.len() > 0 ==> wides(before).last() == before.last()@);
        match self.pending.pop() {
            None => {
                assert(self.pending@ =~= before);
                BulkStep::Done(Ok(self.count))
            },
            Some(d) => {
                assert(wides(self.pending@) =~= wides(before).drop_last());
                if cancel {
                    return BulkStep::Done(Err("count cancelled".to_owned()));
                }
                let mut copy: Vec<u16> = Vec::new();
                let mut i: usize = 0;
                while i < d.len()
                    invariant
                        i <= d@.len(),
                        copy@ == d@.take(i as int),
                    decreases d@.len() - i,
                {
                    copy.push(d[i]);
                    assert(copy@ =~= d@.take(i + 1));
                    i += 1;
                }
                assert(copy@ =~= d@);
                self.dir = d;
                BulkStep::Open(copy)
            },
        }
    }

    /// Take in the record at an offset of a filled buffer.
    pub fn record(&mut self, buffer: &[u8], off: usize, cancel: bool) -> (r: RecordStep)
        requires
            old(self)@.count < usize::MAX,
        ensures
            if cancel {
                r == RecordStep::Cancelled && *final(self) == *old(self)
            } else {
                match record_at(buffer@, off as int) {
                    None => r == RecordStep::BufferDone && *final(self) == *old(self),
                    Some(v) => {
                        &&& final(self)@ == after_record(
                            old(self)@,
                            v.2,
                            v.1 & ATTR_DIRECTORY != 0,
                        )
                        &&& r == match following(off as int, v.0) {
                            None => RecordStep::BufferDone,
                            Some(next) => RecordStep::Next(next as usize),
                        }
                    },
                }
            },
    {
        if cancel {
            return RecordStep::Cancelled;
        }
        match read_record(buffer, off) {
            None => RecordStep::BufferDone,
            Some(d) => {
                let ghost before = self.pending@;
                if !dots(&d.name) {
                    self.count = self.count + 1;
                    if d.is_dir {
                        let sub = join_wide(&self.dir, &d.name);
                        self.pending.push(sub);
                        assert(wides(self.pending@) =~= wides(before).push(sub@));
                    }
                }
                if d.next == 0 || d.next > usize::MAX - off {
                    RecordStep::BufferDone
                } else {
                    RecordStep::Next(off + d.next)
                }
            },
        }
    }
}

/// Where a buffer goes on after the record at `off`, which says that the next
/// one is `next` further.
pub open spec fn following(off: int, next: u32) -> Option<int> {
    if next == 0 || off + next > usize::MAX {
        None
    } else {
        Some(off + next)
    }
}

/// The entries of a filled buffer from `off` on: their names, and whether they
/// are directories. Every step leads further on, so a buffer ends.
pub open spec fn entries_from(b: Seq<u8>, off: int) -> Seq<(Seq<u16>, bool)>
    decreases
        (if off < b.len() {
            b.len() - off
        } else {
            0
        }),
{
    match record_at(b, off) {
        None => seq![],
        Some(v) => seq![(v.2, v.1 & ATTR_DIRECTORY != 0)] + match following(off, v.0) {
            None => seq![],
            Some(next) => entries_from(b, next),
        },
    }
}

/// A count once it has seen every record of a filled buffer from `off` on.
pub open spec fn after_buffer(s: BulkView, b: Seq<u8>, off: int) -> BulkView
    decreases
        (if off < b.len() {
            b.len() - off
        } else {
            0
        }),
{
    match record_at(b, off) {
        None => s,
        Some(v) => {
            let t = after_record(s, v.2, v.1 & ATTR_DIRECTORY != 0);
            match following(off, v.0) {
                None => t,
                Some(next) => after_buffer(t, b, next),
            }
        },
    }
}

/// The entries that belong to the tree: all but "." and "..".
pub open spec fn of_the_tree(e: (Seq<u16>, bool)) -> bool {
    !is_dots(e.0)
}

/// The directories among some entries of a directory, as paths.
pub open spec fn directories(dir: Seq<u16>, entries: Seq<(Seq<u16>, bool)>) -> Seq<Seq<u16>> {
    entries.filter(|e: (Seq<u16>, bool)| of_the_tree(e) && e.1).map_values(
        |e: (Seq<u16>, bool)| wide_join(dir, e.0),
    )
}

/// A buffer is counted whole: every entry of the tree once, and every
/// directory among them is still to be read, in the order of the listing.
pub proof fn a_buffer_is_counted_whole(s: BulkView, b: Seq<u8>, off: int)
    ensures
        after_buffer(s, b, off).count == s.count + entries_from(b, off).filter(
            |e: (Seq<u16>, bool)| of_the_tree(e),
        ).len(),
        after_buffer(s, b, off).pending == s.pending + directories(s.dir, entries_from(b, off)),
        after_buffer(s, b, off).dir == s.dir,
    decreases
        (if off < b.len() {
            b.len() - off
        } else {
            0
        }),
{
    let counted = |e: (Seq<u16>, bool)| of_the_tree(e);
    let is_dir = |e: (Seq<u16>, bool)| of_the_tree(e) && e.1;
    let path = |e: (Seq<u16>, bool)| wide_join(s.dir, e.0);
    let none = Seq::<(Seq<u16>, bool)>::empty();
    reveal(Seq::filter);
    assert(none.filter(counted) =~= none);
    assert(none.filter(is_dir) =~= none);
    match record_at(b, off) {
        None => {
            assert(s.pending + directories(s.dir, none) =~= s.pending);
        },
        Some(v) => {
            let e = (v.2, v.1 & ATTR_DIRECTORY != 0);
            let t = after_record(s, e.0, e.1);
            let rest = match following(off, v.0) {
                None => none,
                Some(next) => entries_from(b, next),
            };
            match following(off, v.0) {
                None => {
                    assert(t.pending + directories(s.dir, none) =~= t.pending);
                },
                Some(next) => {
                    a_buffer_is_counted_whole(t, b, next);
                },
            }
            Seq::filter_distributes_over_add(seq![e], rest, counted);
            Seq::filter_distributes_over_add(seq![e], rest, is_dir);
            assert(seq![e].drop_last() =~= none);
            assert(seq![e].filter(counted) =~= if of_the_tree(e) {
                seq![e]
            } else {
                none
            });
            assert(seq![e].filter(is_dir) =~= if of_the_tree(e) && e.1 {
                seq![e]
            } else {
                none
            });
            assert(directories(s.dir, seq![e] + rest) =~= seq![e].filter(is_dir).map_values(path)
                + directories(s.dir, rest));
            assert(t.pending =~= s.pending + seq![e].filter(is_dir).map_values(path));
            assert(s.pending + directories(s.dir, seq![e] + rest) =~= t.pending + directories(
                s.dir,
                rest,
            ));
        },
    }
}

proof fn lemma_token_len(word: Seq<char>, rest: Seq<char>)
    requires
        forall|i: int| 0 <= i < word.len() ==> !is_white(#[trigger] word[i]),
        rest.len() > 0 ==> is_white(rest[0]),
    ensures
        token_len(word + rest) == word.len(),
    decreases word.len(),
{
    if word.len() > 0 {
        assert((word + rest).drop_first() =~= word.drop_first() + rest);
        assert forall|i: int| 0 <= i < word.drop_first().len() implies !is_white(
            #[trigger] word.drop_first()[i],
        ) by {
            assert(!is_white(word[i + 1]));
        }
        lemma_token_len(word.drop_first(), rest);
        assert(!is_white((word + rest)[0])) by {
            assert(!is_white(word[0]));
        }
    } else {
        assert(word + rest =~= rest);
    }
}

proof fn lemma_token_start(space: Seq<char>, rest: Seq<char>)
    requires
        forall|i: int| 0 <= i < space.len() ==> is_white(#[trigger] space[i]),
        rest.len() > 0 ==> !is_white(rest[0]),
    ensures
        token_start(space + rest) == space.len(),
    decreases space.len(),
{
    if space.len() > 0 {
        assert((space + rest).drop_first() =~= space.drop_first() + rest);
        assert forall|i: int| 0 <= i < space.drop_first().len() implies is_white(
            #[trigger] space.drop_first()[i],
        ) by {
            assert(is_white(space[i + 1]));
        }
        lemma_token_start(space.drop_first(), rest);
        assert(is_white((space + rest)[0])) by {
            assert(is_white(space[0]));
        }
    } else {
        assert(space + rest =~= rest);
    }
}

/// The first word of a text is what stands between the white space it starts with
/// and the next white space; white space alone holds no word.
pub proof fn a_first_word_ends_at_white_space(
    space: Seq<char>,
    word: Seq<char>,
    rest: Seq<char>,
)
    requires
        forall|i: int| 0 <= i < space.len() ==> is_white(#[trigger] space[i]),
        forall|i: int| 0 <= i < word.len() ==> !is_white(#[trigger] word[i]),
        rest.len() > 0 ==> is_white(rest[0]),
    ensures
        word.len() > 0 ==> first_token(space + word + rest) == Some(word),
        first_token(space) is None,
{
    assert(space + Seq::<char>::empty() =~= space);
    lemma_token_start(space, Seq::empty());
    if word.len() > 0 {
        let s = space + word + rest;
        assert(s =~= space + (word + rest));
        assert(!is_white((word + rest)[0])) by {
            assert(!is_white(word[0]));
        }
        lemma_token_start(space, word + rest);
        assert(s.skip(space.len() as int) =~= word + rest);
        lemma_token_len(word, rest);
        assert((word + rest).take(word.len() as int) =~= word);
    }
}

/// The count that a listing's output starts with is read back, whatever follows
/// behind white space; an output without a word is an error, and so is a count
/// that does not fit.
pub proof fn a_count_is_read_back(n: nat, space: Seq<char>, rest: Seq<char>)
    requires
        forall|i: int| 0 <= i < space.len() ==> is_white(#[trigger] space[i]),
        rest.len() > 0 ==> is_white(rest[0]),
    ensures
        n <= usize::MAX ==> wc_count(space + crate::text::decimal(n) + rest) == Ok::<
            int,
            Seq<char>,
        >(n as int),
        n > usize::MAX ==> wc_count(space + crate::text::decimal(n) + rest) is Err,
        wc_count(space) == Err::<int, Seq<char>>("wc: empty output"@),
{
    let d = crate::text::decimal(n);
    crate::text::a_number_reads_back(n);
    crate::text::a_written_number_is_parsed(n, usize::MAX as int);
    assert forall|i: int| 0 <= i < d.len() implies !is_white(#[trigger] d[i]) by {
        assert(digit(d[i], 10) is Some);
    }
    a_first_word_ends_at_white_space(space, d, rest);
}

/// A count of digits alone fails only for being too large, and one that starts
/// with no digit only for its characters.
pub proof fn a_bad_count_says_why(token: Seq<char>)
    ensures
        ({
            let d = unsigned_digits(token);
            &&& d.len() > 0 && crate::text::all_digits(d, 10) && number(d, 10) > usize::MAX
                ==> count_error(token) == "number too large to fit in target type"@
            &&& d.len() == 0 || digit(d[0], 10) is None ==> count_error(token)
                == "invalid digit found in string"@
        }),
{
    let d = unsigned_digits(token);
    lemma_token_bounds(d);
    if crate::text::all_digits(d, 10) {
        lemma_all_leading(d);
        assert(d.take(d.len() as int) =~= d);
    }
    if d.len() == 0 || digit(d[0], 10) is None {
        assert(d.take(0) =~= Seq::empty());
        assert(number(Seq::<char>::empty(), 10) == 0);
    }
}

proof fn lemma_all_leading(d: Seq<char>)
    requires
        crate::text::all_digits(d, 10),
    ensures
        leading_digits(d) == d.len(),
    decreases d.len(),
{
    if d.len() > 0 {
        assert(digit(d[0], 10) is Some);
        let t = d.drop_first();
        assert forall|i: int| 0 <= i < t.len() implies (#[trigger] digit(t[i], 10)) is Some by {
            assert(digit(d[i + 1], 10) is Some);
        }
        lemma_all_leading(t);
    }
}

/// A count that nothing cancels goes on exactly while its processes run. It counts
/// what they printed only where they succeeded, and every other end is an error.
pub proof fn only_a_success_is_counted(look: PolledView)
    ensures
        polled(false, look) is Sleep <==> look is Running,
        polled(false, look) is Kill <==> false,
        polled(false, look) matches PollView::Done(Ok(n)) ==> {
            &&& look matches PolledView::Exited { success, stdout, .. }
            &&& success
            &&& wc_count(lossy_text(stdout)) == Ok::<int, Seq<char>>(n)
        },
        (look matches PolledView::Exited { success, stdout, .. } && success) ==> polled(
            false,
            look,
        ) == PollView::Done(wc_count(lossy_text(look->stdout))),
{
}

/// A record's fields lie at their places in the buffer, each number with its
/// lowest byte first: how far on the next record is, the attributes, the length of
/// the name in bytes, and the name itself. The record is there exactly where it
/// lies within the buffer.
pub proof fn a_record_lies_in_its_buffer(b: Seq<u8>, off: int)
    requires
        off >= 0,
    ensures
        off + 104 > b.len() ==> record_at(b, off) is None,
        off + 104 <= b.len() ==> {
            let length = b[off + 60] + 256 * b[off + 61] + 65536 * b[off + 62] + 16777216 * b[off
                + 63];
            &&& record_at(b, off) is Some <==> off + 104 + 2 * (length / 2) <= b.len()
            &&& record_at(b, off) matches Some(v) ==> {
                &&& v.0 == b[off] + 256 * b[off + 1] + 65536 * b[off + 2] + 16777216 * b[off + 3]
                &&& v.1 == b[off + 56] + 256 * b[off + 57] + 65536 * b[off + 58] + 16777216
                    * b[off + 59]
                &&& v.2.len() == length / 2
                &&& forall|i: int|
                    0 <= i < v.2.len() ==> #[trigger] v.2[i] == b[off + 104 + 2 * i] + 256 * b[off
                        + 104 + 2 * i + 1]
            }
        },
{
}

/// The attribute of a directory is the fifth bit.
pub proof fn the_fifth_bit_marks_a_directory(attributes: u32)
    ensures
        attributes & ATTR_DIRECTORY != 0 <==> (attributes / 16) % 2 == 1,
{
    assert(attributes & 0x10 != 0 <==> (attributes / 16) % 2 == 1) by (bit_vector);
}

/// A buffer's entries are those of its records, each led to by the one before, and
/// the last is the one that leads nowhere.
pub proof fn a_record_leads_to_the_next(b: Seq<u8>, off: int)
    requires
        0 <= off <= b.len() <= usize::MAX,
    ensures
        record_at(b, off) is None ==> entries_from(b, off).len() == 0,
        record_at(b, off) matches Some(v) ==> {
            &&& entries_from(b, off).len() > 0
            &&& entries_from(b, off)[0] == (v.2, (v.1 / 16) % 2 == 1)
            &&& v.0 == 0 ==> entries_from(b, off).len() == 1
            &&& v.0 > 0 && off + v.0 <= usize::MAX ==> entries_from(b, off).skip(1)
                == entries_from(b, off + v.0)
        },
{
    if let Some(v) = record_at(b, off) {
        the_fifth_bit_marks_a_directory(v.1);
        if v.0 > 0 && off + v.0 <= usize::MAX {
            assert(entries_from(b, off).skip(1) =~= entries_from(b, off + v.0));
        }
    }
}

/// Only the two names made of one dot and of two stand for a directory itself and
/// its parent.
pub proof fn only_dots_are_left_out(name: Seq<u16>)
    ensures
        is_dots(name) <==> 1 <= name.len() <= 2 && forall|i: int|
            0 <= i < name.len() ==> #[trigger] name[i] == 46,
{
    if 1 <= name.len() <= 2 && (forall|i: int| 0 <= i < name.len() ==> #[trigger] name[i] == 46) {
        assert(name =~= seq![46u16] || name =~= seq![46u16, 46u16]);
    }
    if name == seq![46u16, 46u16] {
        assert(name.len() == 2);
    }
}

/// An entry's path is its directory's, one separator and its name. A directory that
/// ends in a separator of either kind has it already, and neither an empty path nor
/// a bare drive gets one.
pub proof fn an_entry_is_joined_by_one_separator(dir: Seq<u16>, name: Seq<u16>)
    ensures
        ({
            let r = wide_join(dir, name);
            let separated = dir.len() > 0 && (dir.last() == 92 || dir.last() == 47);
            let drive = dir.len() == 2 && dir[1] == 58 && (65 <= dir[0] <= 90 || 97 <= dir[0]
                <= 122);
            &&& dir.is_prefix_of(r)
            &&& r.skip(r.len() - name.len()) == name
            &&& r.len() == dir.len() + name.len() || (r.len() == dir.len() + 1 + name.len()
                && r[dir.len() as int] == 92)
            &&& r.len() == dir.len() + name.len() <==> dir.len() == 0 || separated || drive
        }),
{
    let r = wide_join(dir, name);
    assert(dir =~= r.subrange(0, dir.len() as int));
    assert(r.skip(r.len() - name.len()) =~= name);
}

} // verus!
