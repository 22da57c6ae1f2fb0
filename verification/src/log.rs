//! The process log: every line that goes to the terminal, kept in memory in a
//! bounded ring so that a windowed run can show it.
use crate::text::{chars_of, control, is_control, joined};
use std::collections::VecDeque;
use vstd::prelude::*;

verus! {

/// Lines retained before the oldest are dropped.
pub const CAPACITY: usize = 5_000;

/// How loud a line is.
#[derive(Debug, Clone, Copy, PartialEq, Eq, Structural)]
pub enum Level {
    Info,
    Warn,
}

/// One recorded line.
#[derive(Debug, Clone, PartialEq, Eq)]
pub struct LogLine {
    /// Unix seconds when it was recorded.
    pub at: u64,
    pub level: Level,
    /// Exactly the text written to stderr, prefix included.
    pub text: String,
}

/// A [`LogLine`] by its contents.
pub struct LineView {
    pub at: u64,
    pub level: Level,
    pub text: Seq<char>,
}

impl View for LogLine {
    type V = LineView;

    open spec fn view(&self) -> LineView {
        LineView { at: self.at, level: self.level, text: self.text@ }
    }
}

pub open spec fn lines_view(lines: Seq<LogLine>) -> Seq<LineView> {
    lines.map_values(|l: LogLine| l@)
}

fn copy_line(line: &LogLine) -> (r: LogLine)
    ensures
        r@ == line@,
{
    LogLine { at: line.at, level: line.level, text: line.text.clone() }
}

/// One character of a line: a line break becomes a space, every other control
/// character the replacement character. Almost every line names a path, and a
/// path is whatever someone called a file.
pub open spec fn scrub_char(c: char) -> char {
    if c == '\n' || c == '\r' {
        ' '
    } else if is_control(c) {
        '\u{FFFD}'
    } else {
        c
    }
}

pub open spec fn scrub(s: Seq<char>) -> Seq<char> {
    s.map_values(|c: char| scrub_char(c))
}

/// The text of a line: a warning carries its prefix, and one record is one
/// line.
pub open spec fn line_text(level: Level, message: Seq<char>) -> Seq<char> {
    scrub(
        match level {
            Level::Warn => "Warning: "@ + message,
            Level::Info => message,
        },
    )
}

/// The text of a line, as it is printed and stored.
pub fn format_line(level: Level, message: &str) -> (r: String)
    ensures
        r@ == line_text(level, message@),
{
    let text = match level {
        Level::Warn => joined("Warning: ", message),
        Level::Info => message.to_owned(),
    };
    let v = chars_of(text.as_str());
    let mut r = String::new();
    let mut i: usize = 0;
    while i < v.len()
        invariant
            i <= v@.len(),
            r@ == scrub(v@.take(i as int)),
        decreases v@.len() - i,
    {
        let c = v[i];
        if c == '\n' || c == '\r' {
            r.push(' ');
        } else if control(c) {
            r.push('\u{FFFD}');
        } else {
            r.push(c);
        }
        assert(r@ =~= scrub(v@.take(i + 1)));
        i += 1;
    }
    assert(v@.take(v@.len() as int) =~= v@);
    r
}

/// A throttle's count after one more occurrence.
pub open spec fn counted(count: u64) -> u64 {
    if count < u64::MAX {
        (count + 1) as u64
    } else {
        0
    }
}

/// Whether an occurrence that comes after this many may speak.
pub open spec fn speaks(limit: u64, count: u64) -> bool {
    count < limit
}

/// How many occurrences of this many go unlogged.
pub open spec fn unlogged(limit: u64, count: u64) -> u64 {
    if count > limit {
        (count - limit) as u64
    } else {
        0
    }
}

/// A cap on how many times one kind of warning is allowed to speak. The first
/// few speak and the rest are counted.
#[derive(Debug, Clone)]
pub struct Throttle {
    limit: u64,
    seen: u64,
}

impl Throttle {
    /// How many may speak.
    pub closed spec fn limit(&self) -> u64 {
        self.limit
    }

    /// How many were counted since the last reset.
    pub closed spec fn count(&self) -> u64 {
        self.seen
    }

    pub fn new(limit: u64) -> (r: Throttle)
        ensures
            r.limit() == limit,
            r.count() == 0,
    {
        Throttle { limit, seen: 0 }
    }

    /// Count one occurrence, and answer whether it may be logged individually.
    pub fn allow(&mut self) -> (r: bool)
        ensures
            r == speaks(old(self).limit(), old(self).count()),
            final(self).limit() == old(self).limit(),
            final(self).count() == counted(old(self).count()),
    {
        let allowed: bool = self.seen < self.limit;
        self.seen = if self.seen < u64::MAX {
            self.seen + 1
        } else {
            0
        };
        allowed
    }

    /// Occurrences counted since the last [`Throttle::reset`].
    pub fn seen(&self) -> (r: u64)
        ensures
            r == self.count(),
    {
        self.seen
    }

    /// How many went unlogged: what a summary line should report.
    pub fn suppressed(&self) -> (r: u64)
        ensures
            r == unlogged(self.limit(), self.count()),
    {
        if self.seen > self.limit {
            self.seen - self.limit
        } else {
            0
        }
    }

    pub fn reset(&mut self)
        ensures
            final(self).limit() == old(self).limit(),
            final(self).count() == 0,
    {
        self.seen = 0;
    }
}

/// A throttle's count after `n` occurrences from a reset on, and how many of
/// them might speak.
pub open spec fn occurrences(limit: u64, n: nat) -> (u64, nat)
    decreases n,
{
    if n == 0 {
        (0, 0)
    } else {
        let (count, spoke) = occurrences(limit, (n - 1) as nat);
        (
            counted(count),
            if speaks(limit, count) {
                spoke + 1
            } else {
                spoke
            },
        )
    }
}

/// Of the first `n` occurrences exactly the first few speak, as many as the
/// limit allows: each one up to the limit and none after it. All of them are
/// counted, and those past the limit are what went unlogged.
pub proof fn the_first_few_speak(limit: u64, n: nat)
    requires
        n <= u64::MAX,
    ensures
        occurrences(limit, n).0 == n,
        occurrences(limit, n).1 == if n < limit {
            n
        } else {
            limit as nat
        },
        n > 0 ==> (speaks(limit, occurrences(limit, (n - 1) as nat).0) <==> n <= limit),
        unlogged(limit, occurrences(limit, n).0) + occurrences(limit, n).1 == n,
    decreases n,
{
    if n > 0 {
        the_first_few_speak(limit, (n - 1) as nat);
    }
}

/// The bounded line buffer.
#[derive(Debug)]
pub struct Ring {
    lines: VecDeque<LogLine>,
    capacity: usize,
    recorded: u64,
    dropped: u64,
}

/// A [`Ring`] by its contents: the lines, oldest first, how many it holds at
/// most, how many were ever recorded, and how many were evicted since the last
/// clear.
pub struct RingView {
    pub lines: Seq<LineView>,
    pub capacity: nat,
    pub recorded: nat,
    pub dropped: nat,
}

impl View for Ring {
    type V = RingView;

    closed spec fn view(&self) -> RingView {
        RingView {
            lines: lines_view(self.lines@),
            capacity: self.capacity as nat,
            recorded: self.recorded as nat,
            dropped: self.dropped as nat,
        }
    }
}

/// A ring after one more line: the oldest makes room for it where it is full.
pub open spec fn pushed(v: RingView, line: LineView) -> RingView {
    if v.lines.len() < v.capacity {
        RingView { lines: v.lines.push(line), recorded: v.recorded + 1, ..v }
    } else {
        RingView {
            lines: v.lines.skip(1).push(line),
            recorded: v.recorded + 1,
            dropped: v.dropped + 1,
            ..v
        }
    }
}

/// A ring after its lines were forgotten.
pub open spec fn cleared(v: RingView) -> RingView {
    RingView { lines: seq![], dropped: 0, ..v }
}

impl Ring {
    /// There is room for a line, never more than that many are held, and no
    /// more were evicted than recorded.
    pub open spec fn wf(&self) -> bool {
        &&& self@.capacity >= 1
        &&& self@.lines.len() <= self@.capacity
        &&& self@.dropped + self@.lines.len() <= self@.recorded
    }

    pub fn new(capacity: usize) -> (r: Ring)
        ensures
            r.wf(),
            r@ == (RingView {
                lines: seq![],
                capacity: if capacity == 0 {
                    1
                } else {
                    capacity as nat
                },
                recorded: 0,
                dropped: 0,
            }),
    {
        let r = Ring {
            lines: VecDeque::new(),
            capacity: if capacity == 0 {
                1
            } else {
                capacity
            },
            recorded: 0,
            dropped: 0,
        };
        assert(r@.lines =~= seq![]);
        r
    }

    /// Add a line; the oldest makes room for it where the ring is full.
    pub fn push(&mut self, level: Level, text: String, at: u64)
        requires
            old(self).wf(),
            old(self)@.recorded < u64::MAX,
        ensures
            final(self).wf(),
            final(self)@ == pushed(old(self)@, LineView { at, level, text: text@ }),
    {
        let ghost before = self.lines@;
        if self.lines.len() >= self.capacity {
            let _ = self.lines.pop_front();
            self.dropped = self.dropped + 1;
            assert(self.lines@ =~= before.skip(1));
        }
        let ghost kept = self.lines@;
        let line = LogLine { at, level, text };
        self.lines.push_back(line);
        self.recorded = self.recorded + 1;
        assert(lines_view(self.lines@) =~= lines_view(kept).push(line@));
        proof {
            if before.len() > 0 {
                assert(lines_view(before.skip(1)) =~= lines_view(before).skip(1));
            }
        }
    }

    /// Forget every retained line; the running total survives.
    pub fn clear(&mut self)
        requires
            old(self).wf(),
        ensures
            final(self).wf(),
            final(self)@ == cleared(old(self)@),
    {
        self.lines.clear();
        self.dropped = 0;
        assert(self@.lines =~= seq![]);
    }
}

/// Record a message in the ring and hand back the line to print. `at` is when
/// it was recorded.
pub fn record(ring: &mut Ring, level: Level, message: &str, at: u64) -> (printed: String)
    requires
        old(ring).wf(),
        old(ring)@.recorded < u64::MAX,
    ensures
        printed@ == line_text(level, message@),
        final(ring).wf(),
        final(ring)@ == pushed(
            old(ring)@,
            LineView { at, level, text: line_text(level, message@) },
        ),
{
    let text = format_line(level, message);
    let printed = text.clone();
    ring.push(level, text, at);
    printed
}

/// Every retained line, oldest first.
pub fn snapshot(ring: &Ring) -> (r: Vec<LogLine>)
    ensures
        lines_view(r@) == ring@.lines,
{
    let mut r: Vec<LogLine> = Vec::new();
    let mut i: usize = 0;
    while i < ring.lines.len()
        invariant
            i <= ring.lines@.len(),
            lines_view(r@) == lines_view(ring.lines@).take(i as int),
        decreases ring.lines@.len() - i,
    {
        let ghost before = lines_view(r@);
        r.push(copy_line(&ring.lines[i]));
        assert(lines_view(r@) =~= before.push(ring.lines@[i as int]@));
        assert(lines_view(r@) =~= lines_view(ring.lines@).take(i + 1));
        i += 1;
    }
    assert(lines_view(ring.lines@).take(ring.lines@.len() as int) =~= lines_view(ring.lines@));
    r
}

/// How many lines have been recorded, including ones since dropped. Only ever
/// grows, so a poll of this is the cheap way to ask "anything new?".
pub fn recorded(ring: &Ring) -> (r: u64)
    ensures
        r == ring@.recorded,
{
    ring.recorded
}

/// How many lines the ring has evicted since the last [`clear`].
pub fn dropped(ring: &Ring) -> (r: u64)
    ensures
        r == ring@.dropped,
{
    ring.dropped
}

/// Forget every retained line. [`recorded`] keeps counting.
pub fn clear(ring: &mut Ring)
    requires
        old(ring).wf(),
    ensures
        final(ring).wf(),
        final(ring)@ == cleared(old(ring)@),
{
    ring.clear();
}

/// Seconds since the Unix epoch, given what the clock says. A clock set before
/// it yields 0, which every caller reads as "very long ago".
pub fn now_unix(since_epoch: Option<u64>) -> (r: u64)
    ensures
        r == (match since_epoch {
            Some(s) => s,
            None => 0,
        }),
{
    match since_epoch {
        Some(s) => s,
        None => 0,
    }
}

/// What happens to a ring.
pub enum RingEvent {
    Line(LineView),
    Clear,
}

/// A ring after some events.
pub open spec fn replayed(v: RingView, events: Seq<RingEvent>) -> RingView
    decreases events.len(),
{
    if events.len() == 0 {
        v
    } else {
        let before = replayed(v, events.drop_last());
        match events.last() {
            RingEvent::Line(line) => pushed(before, line),
            RingEvent::Clear => cleared(before),
        }
    }
}

/// The lines recorded since the last clear.
pub open spec fn since_clear(events: Seq<RingEvent>) -> Seq<LineView>
    decreases events.len(),
{
    if events.len() == 0 {
        seq![]
    } else {
        match events.last() {
            RingEvent::Line(line) => since_clear(events.drop_last()).push(line),
            RingEvent::Clear => seq![],
        }
    }
}

/// How many lines were recorded, across clears.
pub open spec fn lines_in(events: Seq<RingEvent>) -> nat
    decreases events.len(),
{
    if events.len() == 0 {
        0
    } else {
        lines_in(events.drop_last()) + match events.last() {
            RingEvent::Line(_) => 1nat,
            RingEvent::Clear => 0,
        }
    }
}

/// The newest of some lines, as many as fit.
pub open spec fn newest(capacity: nat, all: Seq<LineView>) -> Seq<LineView> {
    if all.len() <= capacity {
        all
    } else {
        all.skip(all.len() - capacity)
    }
}

/// Whatever was recorded and cleared, a ring holds the newest lines since the
/// last clear, in order and as many as fit. Those it holds and those it evicted
/// together are all of them.
pub proof fn a_ring_keeps_the_newest(v: RingView, events: Seq<RingEvent>)
    requires
        v.capacity >= 1,
        v.lines.len() == 0,
        v.dropped == 0,
    ensures
        ({
            let r = replayed(v, events);
            let all = since_clear(events);
            &&& r.capacity == v.capacity
            &&& r.lines == newest(v.capacity, all)
            &&& r.lines.len() <= v.capacity
            &&& r.dropped + r.lines.len() == all.len()
        }),
    decreases events.len(),
{
    if events.len() == 0 {
        assert(v.lines =~= seq![]);
    } else {
        a_ring_keeps_the_newest(v, events.drop_last());
        if let RingEvent::Line(line) = events.last() {
            let all = since_clear(events.drop_last());
            assert(replayed(v, events).lines =~= newest(v.capacity, all.push(line)));
        }
    }
}

/// The running total counts every line ever recorded. No clear takes any of it
/// back, so it never decreases, and a clear leaves nothing held and nothing
/// counted as evicted.
pub proof fn the_total_survives_every_clear(v: RingView, events: Seq<RingEvent>, more: Seq<RingEvent>)
    ensures
        replayed(v, events).recorded == v.recorded + lines_in(events),
        replayed(v, events).recorded <= replayed(v, events + more).recorded,
        replayed(v, events.push(RingEvent::Clear)) == cleared(replayed(v, events)),
    decreases events.len() + more.len(),
{
    assert(events.push(RingEvent::Clear).drop_last() =~= events);
    if more.len() > 0 {
        the_total_survives_every_clear(v, events, more.drop_last());
        assert((events + more).drop_last() =~= events + more.drop_last());
        assert((events + more).last() == more.last());
    } else {
        assert(events + more =~= events);
        if events.len() > 0 {
            the_total_survives_every_clear(v, events.drop_last(), more);
        }
    }
}

/// A printed line is one line and carries no control character.
pub proof fn a_line_is_clean(level: Level, message: Seq<char>)
    ensures
        forall|i: int|
            0 <= i < line_text(level, message).len() ==> !is_control(
                #[trigger] line_text(level, message)[i],
            ),
{
}

/// A line keeps every character of its message but the control characters: a line
/// break becomes a space, and any other a mark that stands for it. A warning says so
/// in front; a plain line adds nothing.
pub proof fn a_line_keeps_its_message(level: Level, message: Seq<char>)
    ensures
        ({
            let t = line_text(level, message);
            let lead = t.len() - message.len();
            &&& level == Level::Info ==> lead == 0
            &&& level == Level::Warn ==> lead == 9 && t.take(9) == "Warning: "@
            &&& forall|i: int|
                0 <= i < message.len() ==> {
                    let c = #[trigger] message[i];
                    &&& !is_control(c) ==> t[lead + i] == c
                    &&& c == '\n' || c == '\r' ==> t[lead + i] == ' '
                    &&& is_control(c) && c != '\n' && c != '\r' ==> t[lead + i] == '\u{FFFD}'
                }
        }),
{
    reveal_strlit("Warning: ");
    if level == Level::Warn {
        assert(line_text(level, message).take(9) =~= "Warning: "@);
    }
}

/// A count goes up by one, and from the largest there is to none.
pub proof fn a_count_goes_round(count: u64)
    ensures
        counted(count) as int == (count + 1) % 0x1_0000_0000_0000_0000,
{
}

} // verus!
