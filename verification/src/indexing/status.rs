//! The indexing service's status: who may start a run, what a stop does, and
//! what a run may publish meanwhile.
//!
//! The threads, the channel and the database connection are outside this
//! crate. Times are on the caller's clock.
use super::progress::{MaintenanceStep, ReconcileProgress, RootProgress, RootView, roots_view};
use crate::config::Config;
use crate::text::{joined, texts};
use vstd::prelude::*;

verus! {

/// What a run is doing before its first file is walked.
#[derive(Debug, Clone, Copy, PartialEq, Eq, Structural)]
pub enum PrepStep {
    /// Waiting on the previous run's thread to wind down.
    PreviousRun,
    /// Schema migration and log recovery.
    OpeningIndex,
    /// Re-testing stored rows against a configuration that changed since the
    /// last run.
    Reconciling(ReconcileProgress),
    /// Everything between the reconciliation and the first walk.
    Starting,
}

#[derive(Debug)]
pub enum IndexingStatus {
    Idle,
    /// A run claimed but not yet at its walk. Holds the database exactly as
    /// `Running` does.
    Preparing { start_time: u64, step: PrepStep },
    Running {
        start_time: u64,
        roots: Vec<RootProgress>,
        /// The upkeep the writer is at, where it is not on files.
        maintenance: Option<MaintenanceStep>,
    },
    Stopping,
    /// Compacting and re-analysing the index after a run. Holds the database.
    Optimizing,
    Error(String),
}

/// An [`IndexingStatus`] by its contents.
pub enum StatusView {
    Idle,
    Preparing { start_time: u64, step: PrepStep },
    Running { start_time: u64, roots: Seq<RootView>, maintenance: Option<MaintenanceStep> },
    Stopping,
    Optimizing,
    Error(Seq<char>),
}

impl View for IndexingStatus {
    type V = StatusView;

    open spec fn view(&self) -> StatusView {
        match *self {
            IndexingStatus::Idle => StatusView::Idle,
            IndexingStatus::Preparing { start_time, step } => StatusView::Preparing {
                start_time,
                step,
            },
            IndexingStatus::Running { start_time, roots, maintenance } => StatusView::Running {
                start_time,
                roots: roots_view(roots@),
                maintenance,
            },
            IndexingStatus::Stopping => StatusView::Stopping,
            IndexingStatus::Optimizing => StatusView::Optimizing,
            IndexingStatus::Error(e) => StatusView::Error(e@),
        }
    }
}

/// One setting whose stored value differs from the current configuration. List
/// values are newline-joined.
#[derive(Debug, Clone, PartialEq, Eq)]
pub struct ConfigChange {
    pub key: String,
    pub stored: String,
    pub current: String,
}

/// What the service's thread is told.
#[derive(Debug)]
pub enum IndexingCommand {
    Start { paths: Vec<String>, db_path: String, config: Config },
    Stop,
}

/// Whether a run is claimed, running or winding down.
pub open spec fn in_flight(s: StatusView) -> bool {
    s is Preparing || s is Running || s is Stopping
}

/// Whether the status is anything but idle. An error is a run that ended.
pub open spec fn active(s: StatusView) -> bool {
    !(s is Idle || s is Error)
}

/// The status after an attempt to start a run, and what the attempt answers.
pub open spec fn started(s: StatusView, paths: nat, now: u64) -> (
    StatusView,
    Result<(), Seq<char>>,
) {
    if paths == 0 {
        (s, Err("start_indexing requires at least one path"@))
    } else if in_flight(s) {
        (s, Err("indexing is already running"@))
    } else {
        (StatusView::Preparing { start_time: now, step: PrepStep::PreviousRun }, Ok(()))
    }
}

/// The status after a stop, and whether the run has to be told.
pub open spec fn stopped(s: StatusView) -> (StatusView, bool) {
    if s is Preparing || s is Running {
        (StatusView::Stopping, true)
    } else {
        (s, false)
    }
}

/// The status after a prologue step. Nothing changes once the status has left
/// the prologue.
pub open spec fn prepared(s: StatusView, step: PrepStep) -> StatusView {
    match s {
        StatusView::Preparing { start_time, .. } => StatusView::Preparing { start_time, step },
        _ => s,
    }
}

/// The status after a snapshot of the roots. A stop is never clobbered; fresh
/// figures clear the upkeep step.
pub open spec fn published(s: StatusView, start_time: u64, roots: Seq<RootView>) -> StatusView {
    if s is Stopping {
        s
    } else {
        StatusView::Running { start_time, roots, maintenance: None }
    }
}

/// The status with an upkeep step set or cleared, where a run is published.
pub open spec fn annotated(s: StatusView, step: Option<MaintenanceStep>) -> StatusView {
    match s {
        StatusView::Running { start_time, roots, .. } => StatusView::Running {
            start_time,
            roots,
            maintenance: step,
        },
        _ => s,
    }
}

/// The service's status and its transitions.
#[derive(Debug)]
pub struct IndexingService {
    status: IndexingStatus,
    suspended: bool,
}

impl View for IndexingService {
    type V = StatusView;

    closed spec fn view(&self) -> StatusView {
        self.status@
    }
}

/// Milliseconds between two looks at the flags of a suspended run.
pub const SUSPEND_POLL_MS: u64 = 100;

/// What a run does at a point where it may be stopped or held.
#[derive(Debug, Clone, Copy, PartialEq, Eq, Structural)]
pub enum AbortStep {
    /// Give the operation up.
    Abort,
    /// Carry on.
    Proceed,
    /// Look again after this many milliseconds.
    Sleep(u64),
}

/// What the two flags ask for. A stop comes through a suspension.
pub open spec fn abort_step(stop: bool, suspended: bool) -> AbortStep {
    if stop {
        AbortStep::Abort
    } else if suspended {
        AbortStep::Sleep(SUSPEND_POLL_MS)
    } else {
        AbortStep::Proceed
    }
}

impl IndexingService {
    /// Whether the indexer is suspended. The view is the status alone.
    pub closed spec fn held(&self) -> bool {
        self.suspended
    }

    pub fn new() -> (r: Self)
        ensures
            r@ == StatusView::Idle,
            !r.held(),
    {
        IndexingService { status: IndexingStatus::Idle, suspended: false }
    }

    /// Pause the indexer. Its loops hold where they ask
    /// [`IndexingService::should_abort`], until it is resumed or stopped.
    pub fn suspend(&mut self)
        ensures
            final(self)@ == old(self)@,
            final(self).held(),
    {
        self.suspended = true;
    }

    /// Go on after a [`IndexingService::suspend`].
    pub fn resume(&mut self)
        ensures
            final(self)@ == old(self)@,
            !final(self).held(),
    {
        self.suspended = false;
    }

    pub fn is_suspended(&self) -> (r: bool)
        ensures
            r == self.held(),
    {
        self.suspended
    }

    /// Whether an operation is given up, held or carried on.
    pub fn should_abort(&self, stop: bool) -> (r: AbortStep)
        ensures
            r == abort_step(stop, self.held()),
    {
        if stop {
            AbortStep::Abort
        } else if self.suspended {
            AbortStep::Sleep(SUSPEND_POLL_MS)
        } else {
            AbortStep::Proceed
        }
    }

    /// Claim a run of one or more roots. The transition happens here, before
    /// any thread is told: a caller polling for it could otherwise start
    /// writing to a database that the run is about to reopen.
    pub fn start_indexing(&mut self, paths: &Vec<String>, now: u64) -> (r: Result<(), String>)
        ensures
            final(self).held() == old(self).held(),
            ({
                let x = started(old(self)@, paths@.len(), now);
                final(self)@ == x.0 && crate::text::err_view(r) == x.1
            }),
    {
        if paths.len() == 0 {
            return Err("start_indexing requires at least one path".to_owned());
        }
        match &self.status {
            IndexingStatus::Preparing { .. }
            | IndexingStatus::Running { .. }
            | IndexingStatus::Stopping => {
                return Err("indexing is already running".to_owned());
            },
            _ => {},
        }
        self.status = IndexingStatus::Preparing {
            start_time: now,
            step: PrepStep::PreviousRun,
        };
        Ok(())
    }

    /// The thread could not be told of a claimed run: the claim is dropped.
    pub fn start_failed(&mut self, error: &str) -> (r: String)
        ensures
            final(self).held() == old(self).held(),
            final(self)@ == StatusView::Idle,
            r@ == "Failed to send start command: "@ + error@,
    {
        self.status = IndexingStatus::Idle;
        joined("Failed to send start command: ", error)
    }

    /// A stop arrived. Where it gives `true` the run's stop flag is set and
    /// the statement in flight interrupted.
    pub fn request_stop(&mut self) -> (r: bool)
        ensures
            final(self).held() == old(self).held(),
            (final(self)@, r) == stopped(old(self)@),
    {
        let told = match &self.status {
            IndexingStatus::Preparing { .. } | IndexingStatus::Running { .. } => true,
            _ => false,
        };
        if told {
            self.status = IndexingStatus::Stopping;
        }
        told
    }

    /// Wait for a run that was told to stop.
    pub fn stop_indexing(&self) -> (r: StopWait)
        ensures
            r.attempts == 0,
    {
        StopWait { attempts: 0 }
    }

    /// Shut down on a signal: wait as a stop does.
    pub fn graceful_shutdown(&self) -> (r: StopWait)
        ensures
            r.attempts == 0,
    {
        self.stop_indexing()
    }

    /// Publish a failure that happened outside a run.
    pub fn report_error(&mut self, message: String)
        ensures
            final(self).held() == old(self).held(),
            final(self)@ == StatusView::Error(message@),
    {
        self.status = IndexingStatus::Error(message);
    }

    pub fn get_status(&self) -> (r: &IndexingStatus)
        ensures
            r@ == self@,
    {
        &self.status
    }

    /// Whether a run is under way.
    pub fn is_active(&self) -> (r: bool)
        ensures
            r == active(self@),
    {
        match &self.status {
            IndexingStatus::Idle | IndexingStatus::Error(_) => false,
            _ => true,
        }
    }

    /// Announce a step of the prologue.
    pub fn set_prep_step(&mut self, step: PrepStep)
        ensures
            final(self).held() == old(self).held(),
            final(self)@ == prepared(old(self)@, step),
    {
        let at: Option<u64> = match &self.status {
            IndexingStatus::Preparing { start_time, .. } => Some(*start_time),
            _ => None,
        };
        match at {
            Some(start_time) => {
                self.status = IndexingStatus::Preparing { start_time, step };
            },
            None => {},
        }
    }

    /// When this run was claimed; now for callers that claimed none.
    pub fn run_start(&self, now: u64) -> (r: u64)
        ensures
            r == (match self@ {
                StatusView::Preparing { start_time, .. } => start_time,
                StatusView::Running { start_time, .. } => start_time,
                _ => now,
            }),
    {
        match &self.status {
            IndexingStatus::Preparing { start_time, .. } => *start_time,
            IndexingStatus::Running { start_time, .. } => *start_time,
            _ => now,
        }
    }

    /// Publish a snapshot of every root.
    pub fn publish_status(&mut self, start_time: u64, roots: Vec<RootProgress>)
        ensures
            final(self).held() == old(self).held(),
            final(self)@ == published(old(self)@, start_time, roots_view(roots@)),
    {
        let stopping = match &self.status {
            IndexingStatus::Stopping => true,
            _ => false,
        };
        if !stopping {
            self.status = IndexingStatus::Running { start_time, roots, maintenance: None };
        }
    }

    /// Annotate the published run with the upkeep the writer is at, or clear
    /// the annotation.
    pub fn set_maintenance(&mut self, step: Option<MaintenanceStep>)
        ensures
            final(self).held() == old(self).held(),
            final(self)@ == annotated(old(self)@, step),
    {
        match &mut self.status {
            IndexingStatus::Running { maintenance, .. } => {
                *maintenance = step;
            },
            _ => {},
        }
    }

    /// A run ended. Where it gives `true`, stopped runs included, the optimize
    /// pass follows, and [`IndexingService::optimized`] after it.
    pub fn run_ended(&mut self, result: Result<(), String>) -> (r: bool)
        ensures
            final(self).held() == old(self).held(),
            match result {
                Err(e) => final(self)@ == StatusView::Error(e@) && !r,
                Ok(()) => final(self)@ == StatusView::Optimizing && r,
            },
    {
        match result {
            Err(e) => {
                self.status = IndexingStatus::Error(e);
                false
            },
            Ok(()) => {
                self.status = IndexingStatus::Optimizing;
                true
            },
        }
    }

    /// The files to delete for a clean rebuild: the database, which must go, and
    /// the sidecars beside it, which may be missing.
    pub fn delete_index_for_rebuild(&self, db_path: &str) -> (r: Vec<String>)
        ensures
            texts(r@) == seq![
                db_path@,
                db_path@ + "-wal"@,
                db_path@ + "-shm"@,
                db_path@ + "-journal"@,
            ],
    {
        let mut r: Vec<String> = Vec::new();
        r.push(db_path.to_owned());
        r.push(joined(db_path, "-wal"));
        r.push(joined(db_path, "-shm"));
        r.push(joined(db_path, "-journal"));
        assert(texts(r@) =~= seq![
            db_path@,
            db_path@ + "-wal"@,
            db_path@ + "-shm"@,
            db_path@ + "-journal"@,
        ]);
        r
    }

    /// The optimize pass is over.
    pub fn optimized(&mut self)
        ensures
            final(self).held() == old(self).held(),
            final(self)@ == StatusView::Idle,
    {
        self.status = IndexingStatus::Idle;
    }
}

impl Default for IndexingService {
    fn default() -> (r: Self)
        ensures
            r@ == StatusView::Idle,
            !r.held(),
    {
        IndexingService::new()
    }
}

/// Looks at the status before a wait is given up.
pub const WAIT_ATTEMPTS: u32 = 50;

/// Milliseconds between two looks.
pub const WAIT_MS: u64 = 100;

/// What to do after a look at the status of a run that was told to stop.
#[derive(Debug, Clone, Copy, PartialEq, Eq, Structural)]
pub enum StopStep {
    /// Look again after this many milliseconds.
    Sleep(u64),
    /// The run is over already: nothing to do.
    AlreadyStopped,
    /// Take the run's connection, and checkpoint through it where asked to.
    Release,
}

/// Waiting for a run to take notice of a stop.
#[derive(Debug, Clone, Copy, PartialEq, Eq, Structural)]
pub struct StopWait {
    pub attempts: u32,
}

impl StopWait {
    /// Decide after a look at the status.
    pub fn next(&mut self, status: &IndexingStatus) -> (r: StopStep)
        ensures
            r == if old(self).attempts >= WAIT_ATTEMPTS {
                StopStep::Release
            } else {
                match status@ {
                    StatusView::Stopping => StopStep::Release,
                    StatusView::Idle | StatusView::Error(_) => StopStep::AlreadyStopped,
                    _ => StopStep::Sleep(WAIT_MS),
                }
            },
            final(self).attempts == if r is Sleep {
                old(self).attempts + 1
            } else {
                old(self).attempts as int
            },
    {
        if self.attempts >= WAIT_ATTEMPTS {
            return StopStep::Release;
        }
        match status {
            IndexingStatus::Stopping => StopStep::Release,
            IndexingStatus::Idle | IndexingStatus::Error(_) => StopStep::AlreadyStopped,
            _ => {
                self.attempts = self.attempts + 1;
                StopStep::Sleep(WAIT_MS)
            },
        }
    }

    /// Decide after a look at the status before the index is deleted: whether
    /// to look again after this many milliseconds, or to go on.
    pub fn until_idle(&mut self, status: &IndexingStatus) -> (r: Option<u64>)
        ensures
            r == if old(self).attempts < WAIT_ATTEMPTS && active(status@) {
                Some(WAIT_MS)
            } else {
                None::<u64>
            },
            final(self).attempts == if r is Some {
                old(self).attempts + 1
            } else {
                old(self).attempts as int
            },
    {
        if self.attempts >= WAIT_ATTEMPTS {
            return None;
        }
        match status {
            IndexingStatus::Idle | IndexingStatus::Error(_) => None,
            _ => {
                self.attempts = self.attempts + 1;
                Some(WAIT_MS)
            },
        }
    }
}

/// A stop stays: whatever the run goes on to announce, publish or annotate,
/// the status is still stopping.
pub proof fn a_stop_is_never_clobbered(
    step: PrepStep,
    start_time: u64,
    roots: Seq<RootView>,
    upkeep: Option<MaintenanceStep>,
)
    ensures
        prepared(StatusView::Stopping, step) == StatusView::Stopping,
        published(StatusView::Stopping, start_time, roots) == StatusView::Stopping,
        annotated(StatusView::Stopping, upkeep) == StatusView::Stopping,
{
}

/// A run in flight keeps every other out: a second start is refused and
/// changes nothing, and a run that was claimed is one in flight.
pub proof fn one_run_at_a_time(s: StatusView, paths: nat, now: u64, later: u64)
    requires
        paths > 0,
    ensures
        in_flight(s) ==> started(s, paths, now).0 == s && started(s, paths, now).1 is Err,
        !in_flight(s) ==> started(s, paths, now).1 is Ok,
        started(s, paths, now).1 is Ok ==> in_flight(started(s, paths, now).0) && active(
            started(s, paths, now).0,
        ),
        started(started(s, paths, now).0, paths, later).1 is Err,
{
}

/// An upkeep step lasts exactly until it is cleared or fresh figures are
/// published, and leaves the figures alone.
pub proof fn an_upkeep_step_is_an_annotation(
    start_time: u64,
    roots: Seq<RootView>,
    fresh: Seq<RootView>,
    step: MaintenanceStep,
)
    ensures
        ({
            let running = StatusView::Running { start_time, roots, maintenance: None };
            let during = annotated(running, Some(step));
            &&& during == (StatusView::Running { start_time, roots, maintenance: Some(step) })
            &&& annotated(during, None) == running
            &&& published(during, start_time, fresh) == (StatusView::Running {
                start_time,
                roots: fresh,
                maintenance: None,
            })
        }),
{
}

/// A stop is told to a run that is claimed or under way, once: the status is then
/// stopping, and a second stop tells nothing more. Where no run can be told, the
/// status stays.
pub proof fn a_stop_is_told_once(s: StatusView)
    ensures
        ({
            let (t, told) = stopped(s);
            &&& told <==> in_flight(s) && !(s is Stopping)
            &&& told ==> t is Stopping
            &&& !told ==> t == s
            &&& stopped(t) == (t, false)
            &&& in_flight(t) <==> in_flight(s)
            &&& active(t) <==> active(s)
        }),
{
}

/// A claimed run starts at the moment of its claim, and keeps that moment through
/// every step of its prologue. No path is no run.
pub proof fn a_claim_keeps_its_moment(s: StatusView, paths: nat, now: u64, step: PrepStep)
    ensures
        started(s, paths, now).1 is Ok ==> {
            let claimed = started(s, paths, now).0;
            &&& claimed matches StatusView::Preparing { start_time, .. } && start_time == now
            &&& prepared(claimed, step) == (StatusView::Preparing { start_time: now, step })
        },
        paths == 0 ==> started(s, paths, now).0 == s && started(s, paths, now).1 is Err,
        !(s is Preparing) ==> prepared(s, step) == s,
{
}

/// A status is active exactly where a run holds the database: in flight or being
/// optimized.
pub proof fn an_active_run_holds_the_index(s: StatusView)
    ensures
        active(s) <==> in_flight(s) || s is Optimizing,
{
}

/// A snapshot becomes the status as it is, unless a stop is under way; an upkeep
/// step is noted only on a run.
pub proof fn a_snapshot_becomes_the_status(
    s: StatusView,
    start: u64,
    fresh: Seq<RootView>,
    upkeep: Option<MaintenanceStep>,
)
    ensures
        !(s is Stopping) ==> (published(s, start, fresh) matches StatusView::Running {
            start_time,
            roots,
            maintenance,
        } && start_time == start && roots == fresh && maintenance is None),
        !(s is Running) ==> annotated(s, upkeep) == s,
{
}

/// A stop is obeyed whether or not the run is suspended, a suspended run is held
/// for as long as it is, and any other goes on.
pub proof fn a_stop_comes_through_a_suspension(stop: bool, suspended: bool)
    ensures
        abort_step(stop, suspended) == AbortStep::Abort <==> stop,
        abort_step(stop, suspended) == AbortStep::Proceed <==> !stop && !suspended,
        abort_step(stop, suspended) matches AbortStep::Sleep(ms) ==> suspended && ms > 0,
{
}

} // verus!
