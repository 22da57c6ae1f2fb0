//! The writer's loop over every root of a run, the write-ahead log's bounds,
//! and the order of a run's steps before and after the loop.
//!
//! The writer is asked for its next step and the caller performs it: serving a
//! root, publishing, checkpointing or waiting.
use super::progress::RootPhase;
use crate::config::MINIMUM_WAL_SIZE;
use crate::text::{decimal, grouped, joined, maybe, push_decimal, push_grouped, push_str, texts};
use vstd::hash_set::StringHashSet;
use vstd::prelude::*;

verus! {

/// Bytes in a mebibyte.
pub const MIB: u64 = 1048576;

/// Free space at which a run gives up: 128 MiB. Filling the volume is not a
/// clean failure, so stopping while there is still room is the only safe end.
pub const DISK_FLOOR: u64 = 134217728;

/// Share of the free space above the floor that the log may occupy: a quarter
/// leaves room for index growth and merges.
pub const WAL_SHARE_OF_FREE: u64 = 4;

/// Idle-wait ceiling in milliseconds, not a delay: any producer wakes the
/// writer at once.
pub const IDLE_BACKOFF: u64 = 2;

/// The checkpoint threshold, lowered to what the volume can absorb. A
/// configured 0 means no cap, and is bounded too.
pub open spec fn wal_cap(configured: u64, free: u64) -> u64 {
    let room = if free < DISK_FLOOR {
        0
    } else {
        (free - DISK_FLOOR) / WAL_SHARE_OF_FREE as int
    };
    let capped = if room < MINIMUM_WAL_SIZE {
        MINIMUM_WAL_SIZE as int
    } else {
        room
    };
    if configured == 0 || configured > capped {
        capped as u64
    } else {
        configured
    }
}

/// The checkpoint threshold for a volume with this much free space.
pub fn wal_cap_for_free(configured: u64, free: u64) -> (r: u64)
    ensures
        r == wal_cap(configured, free),
{
    let room: u64 = if free < DISK_FLOOR {
        0
    } else {
        (free - DISK_FLOOR) / WAL_SHARE_OF_FREE
    };
    let capped: u64 = if room < MINIMUM_WAL_SIZE {
        MINIMUM_WAL_SIZE
    } else {
        room
    };
    if configured == 0 || configured > capped {
        capped
    } else {
        configured
    }
}

/// The threshold to run with, and the line to log where the volume lowered it.
/// `free` is nothing where the volume does not say.
pub fn wal_cap_for_volume(configured: u64, free: Option<u64>) -> (r: (u64, Option<String>))
    ensures
        r.0 == (match free {
            Some(f) => wal_cap(configured, f),
            None => configured,
        }),
        maybe(r.1) == (match free {
            Some(f) => if wal_cap(configured, f) != configured {
                Some(cap_line(configured, f))
            } else {
                None
            },
            None => None,
        }),
{
    match free {
        None => (configured, None),
        Some(f) => {
            let effective: u64 = wal_cap_for_free(configured, f);
            if effective == configured {
                return (effective, None);
            }
            let mut line = human_mib(f);
            push_str(&mut line, " free where the index lives: forcing a WAL checkpoint every ");
            push_decimal(&mut line, effective / MIB);
            push_str(&mut line, " MiB instead of ");
            if configured == 0 {
                push_str(&mut line, "never");
            } else {
                push_decimal(&mut line, configured / MIB);
                push_str(&mut line, " MiB");
            }
            assert(line@ =~= cap_line(configured, f));
            (effective, Some(line))
        },
    }
}

/// A size in whole mebibytes.
pub open spec fn mib(bytes: u64) -> Seq<char> {
    decimal((bytes / MIB) as nat) + " MiB"@
}

/// The line for a threshold that the volume lowered.
pub open spec fn cap_line(configured: u64, free: u64) -> Seq<char> {
    mib(free) + " free where the index lives: forcing a WAL checkpoint every "@ + decimal(
        (wal_cap(configured, free) / MIB) as nat,
    ) + " MiB instead of "@ + if configured == 0 {
        "never"@
    } else {
        mib(configured)
    }
}

pub fn human_mib(bytes: u64) -> (r: String)
    ensures
        r@ == mib(bytes),
{
    let mut r = String::new();
    push_decimal(&mut r, bytes / MIB);
    push_str(&mut r, " MiB");
    assert(r@ =~= mib(bytes));
    r
}

/// The configured threshold: 0 stays, anything else is at least the smallest
/// that is worth its locks.
pub fn configured_cap(maximum_wal_size: u64) -> (r: u64)
    ensures
        r == if maximum_wal_size != 0 && maximum_wal_size < MINIMUM_WAL_SIZE {
            MINIMUM_WAL_SIZE
        } else {
            maximum_wal_size
        },
{
    if maximum_wal_size != 0 && maximum_wal_size < MINIMUM_WAL_SIZE {
        MINIMUM_WAL_SIZE
    } else {
        maximum_wal_size
    }
}

/// The log never takes more than its share of the room above the floor, once
/// there is room for the smallest log; and a cap is set whatever is
/// configured.
pub proof fn the_log_leaves_room(configured: u64, free: u64)
    ensures
        wal_cap(configured, free) > 0,
        configured != 0 ==> wal_cap(configured, free) <= configured || wal_cap(configured, free)
            == MINIMUM_WAL_SIZE,
        free >= DISK_FLOOR + 4 * MINIMUM_WAL_SIZE ==> DISK_FLOOR + 4 * wal_cap(configured, free)
            <= free,
{
}

/// A fuller disk never gets a larger log.
pub proof fn a_fuller_disk_caps_the_log_lower(configured: u64, less: u64, more: u64)
    requires
        less <= more,
    ensures
        wal_cap(configured, less) <= wal_cap(configured, more),
{
}

/// The error that ends a run on a full disk.
pub open spec fn disk_error(free: u64, db_path: Seq<char>) -> Seq<char> {
    "Stopped: only "@ + mib(free) + " free where the index lives ("@ + db_path
        + "). Indexing needs room for its write-ahead log, and filling the disk can kill the process outright rather than fail cleanly. Free some space and run again \u{2014} what is already indexed is kept."@
}

/// Whether a run may go on with this much free space, asked after a
/// checkpoint.
pub fn check_disk(free: Option<u64>, db_path: &str) -> (r: Result<(), String>)
    ensures
        crate::text::err_view(r) == (match free {
            Some(f) if f < DISK_FLOOR => Err::<(), Seq<char>>(disk_error(f, db_path@)),
            _ => Ok(()),
        }),
{
    match free {
        Some(f) => {
            if f < DISK_FLOOR {
                let mut line = joined("Stopped: only ", human_mib(f).as_str());
                push_str(&mut line, " free where the index lives (");
                push_str(&mut line, db_path);
                push_str(
                    &mut line,
                    "). Indexing needs room for its write-ahead log, and filling the disk can kill the process outright rather than fail cleanly. Free some space and run again \u{2014} what is already indexed is kept.",
                );
                return Err(line);
            }
            Ok(())
        },
        None => Ok(()),
    }
}

/// Where the writer is in its round.
#[derive(Debug, Clone, Copy, PartialEq, Eq, Structural)]
pub enum Stage {
    Top,
    /// Serving the walking roots; how many places of the rotation are done.
    Walks(usize),
    /// Looking for a root to extract.
    Extraction,
    /// Past the extraction.
    Cleanup,
    PublishEnd,
    Log,
    Bottom,
    Over,
}

/// The writer over a run's roots. A round serves every walking root, one slice
/// each, then a single extraction slice: a walk never waits on the writer's
/// text work for longer than that.
#[derive(Debug, Clone, Copy, PartialEq, Eq, Structural)]
pub struct Writer {
    pub stage: Stage,
    /// Where this round's rotation starts.
    pub rotation: usize,
    pub progressed: bool,
    pub cleanup_done: bool,
    /// The log's cap; 0 is none.
    pub wal_cap: u64,
    /// The log size at which the next checkpoint is due.
    pub checkpoint_at: u64,
}

/// What the writer asks for.
#[derive(Debug, Clone, Copy, PartialEq, Eq, Structural)]
pub enum WriterStep {
    /// Give this walking root a slice, and answer with [`Writer::served`].
    ServeWalk(usize),
    /// Give this extracting root a slice, and answer with [`Writer::served`].
    ServeExtract(usize),
    Publish,
    /// Reconcile deletions: every walk has ended.
    CleanupStale,
    /// Checkpoint the log, check the disk, and answer with
    /// [`Writer::checkpointed`].
    Checkpoint,
    /// Wait on this walking root's channel, for a moment at most.
    Park(usize),
    /// Wait for a moment.
    Sleep,
    /// The loop is over.
    Ended { aborted: bool },
}

/// The root at a place of the rotation.
pub open spec fn place(rotation: int, k: int, n: int) -> int {
    if rotation + k < n {
        rotation + k
    } else {
        rotation + k - n
    }
}

/// Where a root stands in the rotation.
pub open spec fn place_of(rotation: int, i: int, n: int) -> int {
    if i >= rotation {
        i - rotation
    } else {
        i + n - rotation
    }
}

/// The first place from `k` on whose root is in a phase; `n` where there is
/// none.
pub open spec fn next_in(phases: Seq<RootPhase>, rotation: int, k: int, phase: RootPhase) -> int
    decreases phases.len() - k,
{
    if k >= phases.len() {
        phases.len() as int
    } else if phases[place(rotation, k, phases.len() as int)] == phase {
        k
    } else {
        next_in(phases, rotation, k + 1, phase)
    }
}

/// The first root in a phase; as many as there are roots where there is none.
pub open spec fn first_in(phases: Seq<RootPhase>, phase: RootPhase) -> int {
    next_in(phases, 0, 0, phase)
}

/// Whether no root is in a phase.
pub open spec fn none_in(phases: Seq<RootPhase>, phase: RootPhase) -> bool {
    forall|i: int| 0 <= i < phases.len() ==> #[trigger] phases[i] != phase
}

/// Whether every root is in a phase.
pub open spec fn all_in(phases: Seq<RootPhase>, phase: RootPhase) -> bool {
    forall|i: int| 0 <= i < phases.len() ==> #[trigger] phases[i] == phase
}

/// The rotation of the next round.
pub open spec fn rotated(rotation: usize, n: nat) -> usize {
    if rotation + 1 < n {
        (rotation + 1) as usize
    } else {
        0
    }
}

/// The writer's next state and step, with the roots' phases, the stop flag and
/// the log's size as they stand now.
pub open spec fn writer_next(w: Writer, phases: Seq<RootPhase>, stop: bool, wal_len: u64) -> (
    Writer,
    WriterStep,
) {
    let n = phases.len() as int;
    match w.stage {
        Stage::Top => if stop {
            (Writer { stage: Stage::Over, ..w }, WriterStep::Ended { aborted: true })
        } else {
            writer_walks(Writer { progressed: false, ..w }, phases, 0)
        },
        Stage::Walks(k) => writer_walks(w, phases, k as int),
        Stage::Extraction => {
            let k = next_in(phases, w.rotation as int, 0, RootPhase::Extracting);
            if k < n {
                (
                    Writer { stage: Stage::Cleanup, ..w },
                    WriterStep::ServeExtract(place(w.rotation as int, k, n) as usize),
                )
            } else {
                writer_cleanup(w, phases)
            }
        },
        Stage::Cleanup => writer_cleanup(w, phases),
        Stage::PublishEnd => (Writer { stage: Stage::Log, ..w }, WriterStep::Publish),
        Stage::Log => if w.wal_cap > 0 && w.progressed && !stop && wal_len >= w.checkpoint_at {
            (Writer { stage: Stage::Bottom, ..w }, WriterStep::Checkpoint)
        } else {
            writer_bottom(w, phases, stop)
        },
        Stage::Bottom => writer_bottom(w, phases, stop),
        Stage::Over => (w, WriterStep::Ended { aborted: stop }),
    }
}

/// The next walking root of the round, or the publication after the last.
pub open spec fn writer_walks(w: Writer, phases: Seq<RootPhase>, from: int) -> (
    Writer,
    WriterStep,
) {
    let k = next_in(phases, w.rotation as int, from, RootPhase::Walking);
    if k < phases.len() {
        (
            Writer { stage: Stage::Walks((k + 1) as usize), ..w },
            WriterStep::ServeWalk(
                place(w.rotation as int, k, phases.len() as int) as usize,
            ),
        )
    } else {
        (Writer { stage: Stage::Extraction, ..w }, WriterStep::Publish)
    }
}

/// The round past its extraction: the rotation moves on, and the first round
/// that no root walks any more cleans up.
pub open spec fn writer_cleanup(w: Writer, phases: Seq<RootPhase>) -> (Writer, WriterStep) {
    let turned = Writer { rotation: rotated(w.rotation, phases.len()), ..w };
    if !w.cleanup_done && none_in(phases, RootPhase::Walking) {
        (
            Writer {
                stage: Stage::PublishEnd,
                cleanup_done: true,
                progressed: true,
                ..turned
            },
            WriterStep::CleanupStale,
        )
    } else {
        (Writer { stage: Stage::Log, ..turned }, WriterStep::Publish)
    }
}

/// The end of a round: the run is over once every root is done, and a round
/// without progress waits. The stop flag is read again: a stop may land as the
/// last root finishes, and must not read as a completed run.
pub open spec fn writer_bottom(w: Writer, phases: Seq<RootPhase>, stop: bool) -> (
    Writer,
    WriterStep,
) {
    if all_in(phases, RootPhase::Done) {
        (Writer { stage: Stage::Over, ..w }, WriterStep::Ended { aborted: stop })
    } else if !w.progressed {
        let i = first_in(phases, RootPhase::Walking);
        (
            Writer { stage: Stage::Top, ..w },
            if i < phases.len() {
                WriterStep::Park(i as usize)
            } else {
                WriterStep::Sleep
            },
        )
    } else if stop {
        (Writer { stage: Stage::Over, ..w }, WriterStep::Ended { aborted: true })
    } else {
        writer_walks(Writer { progressed: false, ..w }, phases, 0)
    }
}

proof fn lemma_next_in(phases: Seq<RootPhase>, rotation: int, k: int, phase: RootPhase)
    requires
        0 <= rotation < phases.len(),
        0 <= k <= phases.len(),
    ensures
        k <= next_in(phases, rotation, k, phase) <= phases.len(),
        next_in(phases, rotation, k, phase) < phases.len() ==> phases[place(
            rotation,
            next_in(phases, rotation, k, phase),
            phases.len() as int,
        )] == phase,
        forall|j: int|
            k <= j < next_in(phases, rotation, k, phase) ==> phases[#[trigger] place(
                rotation,
                j,
                phases.len() as int,
            )] != phase,
    decreases phases.len() - k,
{
    if k < phases.len() && phases[place(rotation, k, phases.len() as int)] != phase {
        lemma_next_in(phases, rotation, k + 1, phase);
    }
}

impl Writer {
    /// The rotation starts at a root.
    pub open spec fn wf(self, roots: nat) -> bool {
        &&& self.rotation < roots
        &&& match self.stage {
            Stage::Walks(k) => k <= roots,
            _ => true,
        }
    }

    /// Begin with this cap on the log.
    pub fn new(wal_cap: u64) -> (r: Writer)
        ensures
            r == (Writer {
                stage: Stage::Top,
                rotation: 0,
                progressed: false,
                cleanup_done: false,
                wal_cap,
                checkpoint_at: wal_cap,
            }),
    {
        Writer {
            stage: Stage::Top,
            rotation: 0,
            progressed: false,
            cleanup_done: false,
            wal_cap,
            checkpoint_at: wal_cap,
        }
    }

    fn find(phases: &Vec<RootPhase>, rotation: usize, from: usize, phase: RootPhase) -> (r: usize)
        requires
            rotation < phases@.len(),
            from <= phases@.len(),
        ensures
            r == next_in(phases@, rotation as int, from as int, phase),
            r <= phases@.len(),
    {
        let mut k: usize = from;
        let n: usize = phases.len();
        while k < n
            invariant
                from <= k <= n,
                n == phases@.len(),
                rotation < n,
                next_in(phases@, rotation as int, from as int, phase) == next_in(
                    phases@,
                    rotation as int,
                    k as int,
                    phase,
                ),
            decreases n - k,
        {
            if phases[Writer::root_at(rotation, k, n)] == phase {
                return k;
            }
            k += 1;
        }
        k
    }

    fn root_at(rotation: usize, k: usize, n: usize) -> (r: usize)
        requires
            rotation < n,
            k < n,
        ensures
            r == place(rotation as int, k as int, n as int),
            r < n,
    {
        if k < n - rotation {
            rotation + k
        } else {
            k - (n - rotation)
        }
    }

    fn walks(&mut self, phases: &Vec<RootPhase>, from: usize) -> (r: WriterStep)
        requires
            old(self).rotation < phases@.len(),
            from <= phases@.len(),
        ensures
            final(self).wf(phases@.len()),
            (*final(self), r) == writer_walks(*old(self), phases@, from as int),
    {
        let k: usize = Writer::find(phases, self.rotation, from, RootPhase::Walking);
        if k < phases.len() {
            self.stage = Stage::Walks(k + 1);
            WriterStep::ServeWalk(Writer::root_at(self.rotation, k, phases.len()))
        } else {
            self.stage = Stage::Extraction;
            WriterStep::Publish
        }
    }

    fn cleanup(&mut self, phases: &Vec<RootPhase>) -> (r: WriterStep)
        requires
            old(self).rotation < phases@.len(),
        ensures
            final(self).wf(phases@.len()),
            (*final(self), r) == writer_cleanup(*old(self), phases@),
    {
        let walking: usize = Writer::find(phases, 0, 0, RootPhase::Walking);
        proof {
            let n = phases@.len() as int;
            lemma_next_in(phases@, 0, 0, RootPhase::Walking);
            if walking == n {
                assert forall|i: int| 0 <= i < n implies #[trigger] phases@[i]
                    != RootPhase::Walking by {
                    assert(place(0, i, n) == i);
                }
            }
        }
        self.rotation = if self.rotation < phases.len() - 1 {
            self.rotation + 1
        } else {
            0
        };
        if !self.cleanup_done && walking == phases.len() {
            self.stage = Stage::PublishEnd;
            self.cleanup_done = true;
            self.progressed = true;
            WriterStep::CleanupStale
        } else {
            self.stage = Stage::Log;
            WriterStep::Publish
        }
    }

    fn bottom(&mut self, phases: &Vec<RootPhase>, stop: bool) -> (r: WriterStep)
        requires
            old(self).rotation < phases@.len(),
        ensures
            final(self).wf(phases@.len()),
            (*final(self), r) == writer_bottom(*old(self), phases@, stop),
    {
        let mut i: usize = 0;
        while i < phases.len() && phases[i] == RootPhase::Done
            invariant
                i <= phases@.len(),
                forall|j: int| 0 <= j < i ==> #[trigger] phases@[j] == RootPhase::Done,
            decreases phases@.len() - i,
        {
            i += 1;
        }
        if i == phases.len() {
            self.stage = Stage::Over;
            return WriterStep::Ended { aborted: stop };
        }
        assert(phases@[i as int] != RootPhase::Done);
        if !self.progressed {
            let k: usize = Writer::find(phases, 0, 0, RootPhase::Walking);
            self.stage = Stage::Top;
            if k < phases.len() {
                WriterStep::Park(k)
            } else {
                WriterStep::Sleep
            }
        } else if stop {
            self.stage = Stage::Over;
            WriterStep::Ended { aborted: true }
        } else {
            self.progressed = false;
            self.walks(phases, 0)
        }
    }

    /// The next step, with the roots' phases, the stop flag and the log's size
    /// as they stand now.
    pub fn next(&mut self, phases: &Vec<RootPhase>, stop: bool, wal_len: u64) -> (r: WriterStep)
        requires
            old(self).wf(phases@.len()),
        ensures
            final(self).wf(phases@.len()),
            (*final(self), r) == writer_next(*old(self), phases@, stop, wal_len),
    {
        match self.stage {
            Stage::Top => {
                if stop {
                    self.stage = Stage::Over;
                    return WriterStep::Ended { aborted: true };
                }
                self.progressed = false;
                self.walks(phases, 0)
            },
            Stage::Walks(k) => self.walks(phases, k),
            Stage::Extraction => {
                let k: usize = Writer::find(phases, self.rotation, 0, RootPhase::Extracting);
                if k < phases.len() {
                    self.stage = Stage::Cleanup;
                    WriterStep::ServeExtract(Writer::root_at(self.rotation, k, phases.len()))
                } else {
                    self.cleanup(phases)
                }
            },
            Stage::Cleanup => self.cleanup(phases),
            Stage::PublishEnd => {
                self.stage = Stage::Log;
                WriterStep::Publish
            },
            Stage::Log => {
                if self.wal_cap > 0 && self.progressed && !stop && wal_len >= self.checkpoint_at {
                    self.stage = Stage::Bottom;
                    WriterStep::Checkpoint
                } else {
                    self.bottom(phases, stop)
                }
            },
            Stage::Bottom => self.bottom(phases, stop),
            Stage::Over => WriterStep::Ended { aborted: stop },
        }
    }

    /// A root was served; whether its turn did anything.
    pub fn served(&mut self, progressed: bool)
        ensures
            *final(self) == (Writer {
                progressed: old(self).progressed || progressed,
                ..*old(self)
            }),
    {
        self.progressed = self.progressed || progressed;
    }

    /// The log was checkpointed and is this large now. The threshold is
    /// re-armed from it: a lost race costs one attempt per further cap of
    /// growth, not one per round.
    pub fn checkpointed(&mut self, wal_len: u64)
        requires
            wal_len + old(self).wal_cap <= u64::MAX,
        ensures
            *final(self) == (Writer {
                checkpoint_at: (wal_len + old(self).wal_cap) as u64,
                ..*old(self)
            }),
    {
        self.checkpoint_at = wal_len + self.wal_cap;
    }
}

/// A rotation visits every root once: two places are never one root, and every
/// root has a place.
pub proof fn a_rotation_visits_every_root(rotation: int, n: int)
    requires
        0 <= rotation < n,
    ensures
        forall|k: int| 0 <= k < n ==> 0 <= #[trigger] place(rotation, k, n) < n,
        forall|a: int, b: int|
            0 <= a < b < n ==> #[trigger] place(rotation, a, n) != #[trigger] place(
                rotation,
                b,
                n,
            ),
        forall|i: int|
            0 <= i < n ==> 0 <= #[trigger] place_of(rotation, i, n) < n && place(
                rotation,
                place_of(rotation, i, n),
                n,
            ) == i,
{
}

/// A walk is served only where there is one, and no extraction is served while
/// a walking root is still to have its slice in the round.
pub proof fn walks_come_first(w: Writer, phases: Seq<RootPhase>, stop: bool, wal_len: u64)
    requires
        w.wf(phases.len()),
        phases.len() <= usize::MAX,
    ensures
        match writer_next(w, phases, stop, wal_len).1 {
            WriterStep::ServeWalk(i) => i < phases.len() && phases[i as int]
                == RootPhase::Walking,
            WriterStep::ServeExtract(i) => i < phases.len() && phases[i as int]
                == RootPhase::Extracting && w.stage == Stage::Extraction,
            _ => true,
        },
        w.stage matches Stage::Walks(k) ==> (writer_next(w, phases, stop, wal_len).0.stage
            == Stage::Extraction ==> forall|j: int|
            k <= j < phases.len() ==> phases[#[trigger] place(
                w.rotation as int,
                j,
                phases.len() as int,
            )] != RootPhase::Walking),
{
    let n = phases.len() as int;
    a_rotation_visits_every_root(w.rotation as int, n);
    lemma_next_in(phases, w.rotation as int, 0, RootPhase::Extracting);
    lemma_next_in(phases, w.rotation as int, 0, RootPhase::Walking);
    match w.stage {
        Stage::Walks(k) => {
            lemma_next_in(phases, w.rotation as int, k as int, RootPhase::Walking);
        },
        _ => {},
    }
}

/// A round has one extraction slice at most: the step after it is past the
/// extraction, whatever the phases are then.
pub proof fn one_extraction_per_round(
    w: Writer,
    phases: Seq<RootPhase>,
    stop: bool,
    wal_len: u64,
    then: Seq<RootPhase>,
)
    requires
        w.wf(phases.len()),
        then.len() == phases.len(),
        writer_next(w, phases, stop, wal_len).1 is ServeExtract,
    ensures
        ({
            let s = writer_next(w, phases, stop, wal_len).0;
            let next = writer_next(s, then, stop, wal_len);
            &&& s.stage == Stage::Cleanup
            &&& next.1 is CleanupStale || next.1 is Publish
        }),
{
}

/// Deletions are reconciled once, and not while any root still walks.
pub proof fn the_cleanup_waits_for_every_walk(
    w: Writer,
    phases: Seq<RootPhase>,
    stop: bool,
    wal_len: u64,
)
    requires
        w.wf(phases.len()),
    ensures
        writer_next(w, phases, stop, wal_len).1 is CleanupStale ==> !w.cleanup_done && none_in(
            phases,
            RootPhase::Walking,
        ) && writer_next(w, phases, stop, wal_len).0.cleanup_done,
        w.cleanup_done ==> writer_next(w, phases, stop, wal_len).0.cleanup_done,
{
}

/// A stop never reads as completion: the loop ends as complete only with every
/// root done and the stop flag down.
pub proof fn a_stop_is_never_a_completion(
    w: Writer,
    phases: Seq<RootPhase>,
    stop: bool,
    wal_len: u64,
)
    requires
        w.wf(phases.len()),
        w.stage != Stage::Over,
        writer_next(w, phases, stop, wal_len).1 == (WriterStep::Ended { aborted: false }),
    ensures
        !stop,
        all_in(phases, RootPhase::Done),
{
}

/// No checkpoint is forced where none is due: it takes a cap, progress in the
/// round, no stop, and a log at its threshold.
pub proof fn a_checkpoint_is_due(w: Writer, phases: Seq<RootPhase>, stop: bool, wal_len: u64)
    requires
        w.wf(phases.len()),
        writer_next(w, phases, stop, wal_len).1 is Checkpoint,
    ensures
        w.wal_cap > 0,
        w.progressed,
        !stop,
        wal_len >= w.checkpoint_at,
{
}

/// The steps of a run around its loop, in order.
#[derive(Debug, Clone, Copy, PartialEq, Eq, Structural)]
pub enum RunStep {
    /// Open the index, migrating and recovering it.
    OpenIndex,
    /// Bring it into line with the settings, against the record of the last
    /// run: the only thing that knows a root was dropped.
    Reconcile,
    /// Record the settings.
    Stamp,
    /// Make the files that failed pending again.
    RetryFailed,
    /// Apply the bulk-write settings, before a single row is written.
    BulkSettings,
    /// Take the log's checkpointing over.
    DisableAutocheckpoint,
    /// Build a pipeline per root and publish them.
    BuildPipelines,
    /// Run the writer's loop.
    Loop,
    /// Release every reader: one read mark would keep the log from shrinking.
    DropReaders,
    /// Land the run's own writing.
    CheckpointRun,
    /// Merge the full-text segments.
    MergeText,
    /// Record that a full run completed.
    StampCompleted,
    /// Record what each root holds.
    RootCounts,
    /// Land the tail's writing.
    CheckpointTail,
    Finished,
}

/// The step after a step. `reconciled` is whether the reconciliation finished,
/// `aborted` whether the loop ended early.
pub open spec fn run_step_after(step: RunStep, reconciled: bool, aborted: bool) -> RunStep {
    match step {
        RunStep::OpenIndex => RunStep::Reconcile,
        RunStep::Reconcile => if reconciled {
            RunStep::Stamp
        } else {
            RunStep::Finished
        },
        RunStep::Stamp => RunStep::RetryFailed,
        RunStep::RetryFailed => RunStep::BulkSettings,
        RunStep::BulkSettings => RunStep::DisableAutocheckpoint,
        RunStep::DisableAutocheckpoint => RunStep::BuildPipelines,
        RunStep::BuildPipelines => RunStep::Loop,
        RunStep::Loop => RunStep::DropReaders,
        RunStep::DropReaders => RunStep::CheckpointRun,
        RunStep::CheckpointRun => if aborted {
            RunStep::Finished
        } else {
            RunStep::MergeText
        },
        RunStep::MergeText => RunStep::StampCompleted,
        RunStep::StampCompleted => RunStep::RootCounts,
        RunStep::RootCounts => RunStep::CheckpointTail,
        RunStep::CheckpointTail => RunStep::Finished,
        RunStep::Finished => RunStep::Finished,
    }
}

/// The step after a step.
pub fn next_run_step(step: RunStep, reconciled: bool, aborted: bool) -> (r: RunStep)
    ensures
        r == run_step_after(step, reconciled, aborted),
{
    match step {
        RunStep::OpenIndex => RunStep::Reconcile,
        RunStep::Reconcile => if reconciled {
            RunStep::Stamp
        } else {
            RunStep::Finished
        },
        RunStep::Stamp => RunStep::RetryFailed,
        RunStep::RetryFailed => RunStep::BulkSettings,
        RunStep::BulkSettings => RunStep::DisableAutocheckpoint,
        RunStep::DisableAutocheckpoint => RunStep::BuildPipelines,
        RunStep::BuildPipelines => RunStep::Loop,
        RunStep::Loop => RunStep::DropReaders,
        RunStep::DropReaders => RunStep::CheckpointRun,
        RunStep::CheckpointRun => if aborted {
            RunStep::Finished
        } else {
            RunStep::MergeText
        },
        RunStep::MergeText => RunStep::StampCompleted,
        RunStep::StampCompleted => RunStep::RootCounts,
        RunStep::RootCounts => RunStep::CheckpointTail,
        RunStep::CheckpointTail => RunStep::Finished,
        RunStep::Finished => RunStep::Finished,
    }
}

/// The steps a run takes from a step on, at most `n` of them.
pub open spec fn run_steps(from: RunStep, reconciled: bool, aborted: bool, n: nat) -> Seq<RunStep>
    decreases n,
{
    if n == 0 || from == RunStep::Finished {
        seq![]
    } else {
        seq![from] + run_steps(
            run_step_after(from, reconciled, aborted),
            reconciled,
            aborted,
            (n - 1) as nat,
        )
    }
}

/// A run records its settings only after a reconciliation that finished, and
/// its completion only where the loop was not cut short; a reconciliation cut
/// short writes nothing more.
pub proof fn a_run_records_what_it_did(reconciled: bool, aborted: bool)
    ensures
        ({
            let steps = run_steps(RunStep::OpenIndex, reconciled, aborted, 15);
            &&& !reconciled ==> steps == seq![RunStep::OpenIndex, RunStep::Reconcile]
            &&& steps.contains(RunStep::Stamp) <==> reconciled
            &&& steps.contains(RunStep::CheckpointRun) <==> reconciled
            &&& steps.contains(RunStep::StampCompleted) <==> reconciled && !aborted
            &&& steps.contains(RunStep::MergeText) <==> reconciled && !aborted
            &&& steps.contains(RunStep::CheckpointTail) <==> reconciled && !aborted
        }),
{
    let steps = run_steps(RunStep::OpenIndex, reconciled, aborted, 15);
    reveal_with_fuel(run_steps, 16);
    if !reconciled {
        assert(steps =~= seq![RunStep::OpenIndex, RunStep::Reconcile]);
    } else if aborted {
        let want = seq![
            RunStep::OpenIndex,
            RunStep::Reconcile,
            RunStep::Stamp,
            RunStep::RetryFailed,
            RunStep::BulkSettings,
            RunStep::DisableAutocheckpoint,
            RunStep::BuildPipelines,
            RunStep::Loop,
            RunStep::DropReaders,
            RunStep::CheckpointRun,
        ];
        assert(steps =~= want);
        assert(want[2] == RunStep::Stamp);
        assert(want[9] == RunStep::CheckpointRun);
    } else {
        let want = seq![
            RunStep::OpenIndex,
            RunStep::Reconcile,
            RunStep::Stamp,
            RunStep::RetryFailed,
            RunStep::BulkSettings,
            RunStep::DisableAutocheckpoint,
            RunStep::BuildPipelines,
            RunStep::Loop,
            RunStep::DropReaders,
            RunStep::CheckpointRun,
            RunStep::MergeText,
            RunStep::StampCompleted,
            RunStep::RootCounts,
            RunStep::CheckpointTail,
        ];
        assert(steps =~= want);
        assert(want[2] == RunStep::Stamp);
        assert(want[9] == RunStep::CheckpointRun);
        assert(want[10] == RunStep::MergeText);
        assert(want[11] == RunStep::StampCompleted);
        assert(want[13] == RunStep::CheckpointTail);
    }
}

/// The roots without repetitions, each where it first stands.
pub open spec fn distinct_roots(roots: Seq<Seq<char>>) -> Seq<Seq<char>>
    decreases roots.len(),
{
    if roots.len() == 0 {
        seq![]
    } else {
        let front = distinct_roots(roots.drop_last());
        if roots.drop_last().contains(roots.last()) {
            front
        } else {
            front.push(roots.last())
        }
    }
}

/// The roots of a run: spelling variants were canonicalized before, so they
/// collapse to one walk.
pub fn run_roots(paths: &Vec<String>) -> (r: Result<Vec<String>, String>)
    ensures
        match r {
            Ok(v) => paths@.len() > 0 && texts(v@) == distinct_roots(texts(paths@)),
            Err(e) => paths@.len() == 0 && e@ == "run_indexing: no paths provided"@,
        },
{
    if paths.len() == 0 {
        return Err("run_indexing: no paths provided".to_owned());
    }
    let ghost all = texts(paths@);
    let mut seen = StringHashSet::new();
    let mut r: Vec<String> = Vec::new();
    let mut i: usize = 0;
    assert(all.take(0) =~= seq![]);
    assert(texts(r@) =~= seq![]);
    assert forall|s: Seq<char>| seen@.contains(s) == all.take(0).contains(s) by {}
    while i < paths.len()
        invariant
            i <= paths@.len(),
            all == texts(paths@),
            texts(r@) == distinct_roots(all.take(i as int)),
            forall|s: Seq<char>| #[trigger] seen@.contains(s) == all.take(i as int).contains(s),
        decreases paths@.len() - i,
    {
        let ghost before = texts(r@);
        let ghost had = seen@;
        proof {
            assert(all.take(i + 1).drop_last() =~= all.take(i as int));
            assert(all.take(i + 1).last() == paths@[i as int]@);
        }
        if seen.insert(paths[i].clone()) {
            r.push(paths[i].clone());
            assert(texts(r@) =~= before.push(paths@[i as int]@));
        }
        proof {
            let t = all.take(i as int);
            let u = all.take(i + 1);
            assert forall|s: Seq<char>| #[trigger] seen@.contains(s) == u.contains(s) by {
                if t.contains(s) {
                    let j = choose|j: int| 0 <= j < t.len() && t[j] == s;
                    assert(u[j] == s);
                }
                if s == paths@[i as int]@ {
                    assert(u[i as int] == s);
                }
                if u.contains(s) {
                    let j = choose|j: int| 0 <= j < u.len() && u[j] == s;
                    if j < i {
                        assert(t[j] == s);
                    }
                }
                assert(had.contains(s) == t.contains(s));
            }
        }
        i += 1;
    }
    assert(all.take(all.len() as int) =~= all);
    Ok(r)
}

/// No root is walked twice in one run, and none is left out.
pub proof fn every_root_is_walked_once(roots: Seq<Seq<char>>)
    ensures
        distinct_roots(roots).no_duplicates(),
        forall|s: Seq<char>| #[trigger] distinct_roots(roots).contains(s) <==> roots.contains(s),
    decreases roots.len(),
{
    if roots.len() > 0 {
        let front = roots.drop_last();
        let d = distinct_roots(front);
        let all = distinct_roots(roots);
        every_root_is_walked_once(front);
        assert forall|s: Seq<char>| #[trigger] all.contains(s) <==> roots.contains(s) by {
            assert(d.contains(s) <==> front.contains(s));
            if front.contains(s) {
                let i = choose|i: int| 0 <= i < front.len() && front[i] == s;
                assert(roots[i] == s);
                let j = choose|j: int| 0 <= j < d.len() && d[j] == s;
                assert(all[j] == s);
            }
            if s == roots.last() {
                assert(roots[roots.len() - 1] == s);
                if !front.contains(s) {
                    assert(all[d.len() as int] == s);
                }
            }
            if roots.contains(s) {
                let i = choose|i: int| 0 <= i < roots.len() && roots[i] == s;
                if i < front.len() {
                    assert(front[i] == s);
                }
            }
            if all.contains(s) {
                let j = choose|j: int| 0 <= j < all.len() && all[j] == s;
                if j < d.len() {
                    assert(d[j] == s);
                }
            }
        }
        if !front.contains(roots.last()) {
            assert(!d.contains(roots.last()));
            assert forall|i: int, j: int|
                0 <= i < all.len() && 0 <= j < all.len() && i != j implies all[i] != all[j] by {
                if i < d.len() && j < d.len() {
                    assert(d[i] != d[j]);
                } else if i < d.len() {
                    assert(d[i] == all[i]);
                    assert(d.contains(d[i]));
                } else {
                    assert(d[j] == all[j]);
                    assert(d.contains(d[j]));
                }
            }
        }
    }
}

/// One phase's timing line, `12,345 files in 41.2s (300/s)`: the count, what is
/// counted, the seconds and, where enough time passed for one to mean anything,
/// the rate.
pub fn phase_summary(n: usize, noun: &str, secs: &str, rate: Option<&str>) -> (r: String)
    ensures
        r@ == grouped(n as nat) + " "@ + noun@ + " in "@ + secs@ + "s"@ + match rate {
            Some(rate) => " ("@ + rate@ + "/s)"@,
            None => seq![],
        },
{
    let mut line = String::new();
    push_grouped(&mut line, n as u64);
    push_str(&mut line, " ");
    push_str(&mut line, noun);
    push_str(&mut line, " in ");
    push_str(&mut line, secs);
    push_str(&mut line, "s");
    let ghost head = line@;
    assert(head =~= grouped(n as nat) + " "@ + noun@ + " in "@ + secs@ + "s"@);
    match rate {
        Some(rate) => {
            push_str(&mut line, " (");
            push_str(&mut line, rate);
            push_str(&mut line, "/s)");
            assert(line@ =~= head + (" ("@ + rate@ + "/s)"@));
        },
        None => {
            assert(line@ =~= head + seq![]);
        },
    }
    line
}

/// The summary of a run's unreadable files, where there are any.
pub fn report_run_warnings(failed: u64, suppressed: u64) -> (r: Option<String>)
    ensures
        maybe(r) == if failed == 0 {
            None
        } else {
            Some(
                decimal(failed as nat) + " file"@ + (if failed == 1 {
                    ""@
                } else {
                    "s"@
                }) + " could not be read to hash"@ + if suppressed > 0 {
                    " ("@ + decimal(suppressed as nat) + " similar warnings not shown)"@
                } else {
                    seq![]
                },
            )
        },
{
    if failed == 0 {
        return None;
    }
    let mut line = String::new();
    push_decimal(&mut line, failed);
    push_str(&mut line, " file");
    if failed == 1 {
        push_str(&mut line, "");
    } else {
        push_str(&mut line, "s");
    }
    push_str(&mut line, " could not be read to hash");
    if suppressed > 0 {
        push_str(&mut line, " (");
        push_decimal(&mut line, suppressed);
        push_str(&mut line, " similar warnings not shown)");
    }
    let ghost tail = if suppressed > 0 {
        " ("@ + decimal(suppressed as nat) + " similar warnings not shown)"@
    } else {
        seq![]
    };
    assert(line@ =~= decimal(failed as nat) + " file"@ + (if failed == 1 {
        ""@
    } else {
        "s"@
    }) + " could not be read to hash"@ + tail);
    Some(line)
}

/// The log gets what was asked for where that fits its share of the room above the
/// floor, and else the whole of that share: a quarter. Too full a disk leaves it the
/// smallest log that is worth its locks, or less where less was asked for.
pub proof fn the_log_takes_its_share(configured: u64, free: u64)
    ensures
        ({
            let r = wal_cap(configured, free);
            &&& configured != 0 && DISK_FLOOR + 4 * configured <= free ==> r == configured
            &&& free >= DISK_FLOOR + 4 * MINIMUM_WAL_SIZE ==> r == configured || (4 * (r + 1)
                + DISK_FLOOR > free && (configured == 0 || configured > r))
            &&& free < DISK_FLOOR + 4 * MINIMUM_WAL_SIZE ==> r == MINIMUM_WAL_SIZE || (r
                == configured && 0 < configured < MINIMUM_WAL_SIZE)
        }),
{
}

/// A size is told in whole mebibytes.
pub proof fn a_size_is_told_in_mebibytes(bytes: u64, n: u64)
    requires
        n * 1048576 <= bytes < (n + 1) * 1048576,
    ensures
        mib(bytes) == decimal(n as nat) + " MiB"@,
{
    assert(bytes / 1048576 == n) by (nonlinear_arith)
        requires
            n * 1048576 <= bytes < (n + 1) * 1048576,
    ;
}

/// A round serves the walking roots in the order of its rotation, each one once:
/// the root served is walking, none that was passed over since the last is, and the
/// round goes on behind it. Where none is left, the extraction is next.
pub proof fn every_walking_root_gets_its_slice(
    w: Writer,
    phases: Seq<RootPhase>,
    stop: bool,
    wal_len: u64,
)
    requires
        w.wf(phases.len()),
        phases.len() <= usize::MAX,
        w.stage is Walks || (w.stage == Stage::Top && !stop),
    ensures
        ({
            let n = phases.len() as int;
            let from = if w.stage is Walks {
                w.stage->Walks_0 as int
            } else {
                0
            };
            let (t, step) = writer_next(w, phases, stop, wal_len);
            &&& t.rotation == w.rotation
            &&& t.cleanup_done == w.cleanup_done
            &&& w.stage == Stage::Top ==> !t.progressed
            &&& match step {
                WriterStep::ServeWalk(i) => {
                    &&& t.stage matches Stage::Walks(k)
                    &&& from < k <= n
                    &&& i == (w.rotation + k - 1) % n
                    &&& phases[i as int] == RootPhase::Walking
                    &&& forall|j: int|
                        from <= j < k - 1 ==> phases[#[trigger] place(w.rotation as int, j, n)]
                            != RootPhase::Walking
                },
                WriterStep::Publish => t.stage == Stage::Extraction && forall|j: int|
                    from <= j < n ==> phases[#[trigger] place(w.rotation as int, j, n)]
                        != RootPhase::Walking,
                _ => false,
            }
        }),
{
    let n = phases.len() as int;
    let from = if w.stage is Walks {
        w.stage->Walks_0 as int
    } else {
        0
    };
    lemma_next_in(phases, w.rotation as int, from, RootPhase::Walking);
    let k = next_in(phases, w.rotation as int, from, RootPhase::Walking);
    if k < n {
        lemma_place(w.rotation as int, k, n);
    }
}

proof fn lemma_place(rotation: int, k: int, n: int)
    requires
        0 <= rotation < n,
        0 <= k < n,
    ensures
        place(rotation, k, n) == (rotation + k) % n,
        0 <= place(rotation, k, n) < n,
{
    if rotation + k < n {
        vstd::arithmetic::div_mod::lemma_small_mod((rotation + k) as nat, n as nat);
    } else {
        vstd::arithmetic::div_mod::lemma_mod_sub_multiples_vanish(rotation + k, n);
        vstd::arithmetic::div_mod::lemma_small_mod((rotation + k - n) as nat, n as nat);
    }
}

/// A round extracts from one root wherever any has rows to extract, and then moves
/// its rotation on by one root. Deletions are reconciled in the first round that no
/// root walks any more.
pub proof fn a_round_extracts_and_turns(
    w: Writer,
    phases: Seq<RootPhase>,
    stop: bool,
    wal_len: u64,
)
    requires
        w.wf(phases.len()),
        phases.len() <= usize::MAX,
        w.stage == Stage::Extraction || w.stage == Stage::Cleanup,
    ensures
        ({
            let n = phases.len() as int;
            let (t, step) = writer_next(w, phases, stop, wal_len);
            &&& step is ServeExtract <==> w.stage == Stage::Extraction && !none_in(
                phases,
                RootPhase::Extracting,
            )
            &&& step is ServeExtract ==> t.rotation == w.rotation && t.stage == Stage::Cleanup
            &&& !(step is ServeExtract) ==> {
                &&& t.rotation == (w.rotation + 1) % n
                &&& step is CleanupStale <==> !w.cleanup_done && none_in(
                    phases,
                    RootPhase::Walking,
                )
                &&& step is CleanupStale ==> t.cleanup_done && t.progressed
                &&& !(step is CleanupStale) ==> step is Publish && t.cleanup_done
                    == w.cleanup_done && t.progressed == w.progressed
            }
        }),
{
    let n = phases.len() as int;
    let rotation = w.rotation as int;
    lemma_next_in(phases, rotation, 0, RootPhase::Extracting);
    a_rotation_visits_every_root(rotation, n);
    if w.stage == Stage::Extraction {
        let k = next_in(phases, rotation, 0, RootPhase::Extracting);
        if k < n {
            assert(phases[place(rotation, k, n)] == RootPhase::Extracting);
        } else {
            assert forall|i: int| 0 <= i < n implies #[trigger] phases[i]
                != RootPhase::Extracting by {
                let j = place_of(rotation, i, n);
                assert(place(rotation, j, n) == i);
            }
        }
    }
    if rotation + 1 < n {
        vstd::arithmetic::div_mod::lemma_small_mod((rotation + 1) as nat, n as nat);
    } else {
        vstd::arithmetic::div_mod::lemma_mod_self_0(n);
    }
}

/// A round ends by what it has to do: a checkpoint where one is due, the end where
/// every root is done or a stop came, a wait where nothing progressed, and else the
/// next round. A wait is on the first root that walks, where one does.
pub proof fn a_round_ends_by_what_is_left(
    w: Writer,
    phases: Seq<RootPhase>,
    stop: bool,
    wal_len: u64,
)
    requires
        w.wf(phases.len()),
        phases.len() <= usize::MAX,
        w.stage == Stage::Log || w.stage == Stage::Bottom,
    ensures
        ({
            let (t, step) = writer_next(w, phases, stop, wal_len);
            let due = w.stage == Stage::Log && w.wal_cap > 0 && w.progressed && !stop && wal_len
                >= w.checkpoint_at;
            &&& step is Checkpoint <==> due
            &&& due ==> t.stage == Stage::Bottom && t.progressed
            &&& !due && all_in(phases, RootPhase::Done) ==> step == (WriterStep::Ended {
                aborted: stop,
            })
            &&& !due && !all_in(phases, RootPhase::Done) ==> {
                &&& step is Ended <==> w.progressed && stop
                &&& step is Ended ==> step == (WriterStep::Ended { aborted: true })
                &&& step is Park || step is Sleep <==> !w.progressed
                &&& step is Sleep ==> none_in(phases, RootPhase::Walking)
                &&& step matches WriterStep::Park(i) ==> {
                    &&& i < phases.len()
                    &&& phases[i as int] == RootPhase::Walking
                    &&& forall|j: int| 0 <= j < i ==> #[trigger] phases[j] != RootPhase::Walking
                }
                &&& step is Park || step is Sleep ==> t.stage == Stage::Top
            }
            &&& step is Ended ==> t.stage == Stage::Over
        }),
{
    lemma_next_in(phases, 0, 0, RootPhase::Walking);
    lemma_next_in(phases, w.rotation as int, 0, RootPhase::Walking);
    let n = phases.len() as int;
    let i = first_in(phases, RootPhase::Walking);
    assert forall|j: int| 0 <= j < i implies #[trigger] phases[j] != RootPhase::Walking by {
        assert(place(0, j, n) == j);
    }
}

/// A run goes through its steps in order: the settings are recorded between the
/// reconciliation and the first write, the bulk settings and the log are in hand
/// before the loop, every reader is gone before the run's own writing lands, and a
/// run that was not cut short merges, records its completion and its counts, and
/// lands those too.
pub proof fn a_run_goes_in_order(reconciled: bool, aborted: bool)
    ensures
        ({
            let steps = run_steps(RunStep::OpenIndex, reconciled, aborted, 15);
            let body = seq![
                RunStep::OpenIndex,
                RunStep::Reconcile,
                RunStep::Stamp,
                RunStep::RetryFailed,
                RunStep::BulkSettings,
                RunStep::DisableAutocheckpoint,
                RunStep::BuildPipelines,
                RunStep::Loop,
                RunStep::DropReaders,
                RunStep::CheckpointRun,
            ];
            let tail = seq![
                RunStep::MergeText,
                RunStep::StampCompleted,
                RunStep::RootCounts,
                RunStep::CheckpointTail,
            ];
            &&& reconciled && aborted ==> steps == body
            &&& reconciled && !aborted ==> steps == body + tail
            &&& !reconciled ==> steps == body.take(2)
        }),
{
    reveal_with_fuel(run_steps, 16);
}

/// A root stands where it was first named: naming more roots behind it moves none.
pub proof fn a_root_keeps_its_place(roots: Seq<Seq<char>>, more: Seq<Seq<char>>)
    ensures
        distinct_roots(roots).is_prefix_of(distinct_roots(roots + more)),
    decreases more.len(),
{
    let all = roots + more;
    if more.len() > 0 {
        a_root_keeps_its_place(roots, more.drop_last());
        assert(all.drop_last() =~= roots + more.drop_last());
        let d = distinct_roots(roots);
        let front = distinct_roots(all.drop_last());
        assert(d =~= front.subrange(0, d.len() as int));
        assert(d =~= distinct_roots(all).subrange(0, d.len() as int));
    } else {
        assert(all =~= roots);
    }
}

/// A line on a lowered threshold starts with the room there is, and ends with what
/// was asked for: never, where nothing was.
pub proof fn a_lowered_threshold_is_told(configured: u64, free: u64)
    ensures
        crate::text::is_prefix(mib(free), cap_line(configured, free)),
        configured == 0 ==> crate::text::is_suffix("never"@, cap_line(configured, free)),
        configured != 0 ==> crate::text::is_suffix(mib(configured), cap_line(configured, free)),
{
    let line = cap_line(configured, free);
    assert(line.take(mib(free).len() as int) =~= mib(free));
    if configured == 0 {
        assert(line.skip(line.len() - "never"@.len()) =~= "never"@);
    } else {
        assert(line.skip(line.len() - mib(configured).len()) =~= mib(configured));
    }
}

/// A phase is that of all roots, or of none, by each of them: one root more must
/// agree.
pub proof fn every_root_has_its_say(phases: Seq<RootPhase>, one: RootPhase, phase: RootPhase)
    ensures
        all_in(seq![], phase),
        none_in(seq![], phase),
        all_in(phases.push(one), phase) <==> all_in(phases, phase) && one == phase,
        none_in(phases.push(one), phase) <==> none_in(phases, phase) && one != phase,
{
    let more = phases.push(one);
    assert(more[phases.len() as int] == one);
    assert forall|i: int| 0 <= i < phases.len() implies more[i] == #[trigger] phases[i] by {}
}

} // verus!
