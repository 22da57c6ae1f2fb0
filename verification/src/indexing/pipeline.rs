//! One root of a run: what its walk's events do to the buffered batches, when
//! a batch lands, how a finished walk hands over to extraction, and what a
//! stale row is.
//!
//! The walk and the extraction themselves run outside this crate, and so do
//! the batches' statements; their answers come in as plain values.
use super::progress::{RootPhase, RootProgress, RootView};
use crate::batch::{ExtractScope, Stored};
use crate::config::Config;
use crate::keyed::Keyed;
use crate::parts::under;
use crate::paths::{Separator, UnreadableDirs};
use crate::records::{ContentOutcome, FileIndexAction, OutcomeView, OwnedNewFile, RecordView};
use crate::text::{
    contains, decimal, holds, joined, maybe, push_decimal, push_str, same, texts,
};
use vstd::hash_set::StringHashSet;
use vstd::prelude::*;

verus! {

/// Most extracted rows a root holds back between turns.
pub const READY_TOPUP: usize = 64;

/// Most threads one root's pools may have.
pub const MAX_WORKERS: usize = 64;

/// A file is sampled for display once in this many.
pub const SAMPLE_EVERY: usize = 64;

/// A row whose text has been extracted, on its way to the writer.
#[derive(Debug)]
pub struct ExtractedRow {
    pub file_id: i64,
    pub path: String,
    pub outcome: ContentOutcome,
}

/// An [`ExtractedRow`] by its contents.
pub struct RowView {
    pub file_id: i64,
    pub path: Seq<char>,
    pub outcome: OutcomeView,
}

impl View for ExtractedRow {
    type V = RowView;

    open spec fn view(&self) -> RowView {
        RowView { file_id: self.file_id, path: self.path@, outcome: self.outcome@ }
    }
}

/// A file that a walk came to.
#[derive(Debug)]
pub struct WalkFile {
    pub path: String,
    pub action: FileIndexAction,
    /// Its record, where it has to be written.
    pub record: Option<OwnedNewFile>,
    /// Reached through a link: its row may live outside every root.
    pub aliased: bool,
}

/// What a walk reports.
#[derive(Debug)]
pub enum WalkEvent {
    /// Rows of a directory with no file behind them.
    Stale(Vec<String>),
    File(WalkFile),
}

/// A [`WalkEvent`] by its contents.
pub enum WalkEventView {
    Stale(Seq<Seq<char>>),
    File {
        path: Seq<char>,
        action: FileIndexAction,
        record: Option<RecordView>,
        aliased: bool,
    },
}

impl View for WalkEvent {
    type V = WalkEventView;

    open spec fn view(&self) -> WalkEventView {
        match *self {
            WalkEvent::Stale(p) => WalkEventView::Stale(texts(p@)),
            WalkEvent::File(f) => WalkEventView::File {
                path: f.path@,
                action: f.action,
                record: match f.record {
                    Some(r) => Some(r@),
                    None => None,
                },
                aliased: f.aliased,
            },
        }
    }
}

/// What the roots of a run share.
pub struct RunCx {
    quantum: usize,
    slice: u64,
    stale_candidates: Vec<String>,
    aliased_paths: StringHashSet,
    stale_cleanup_ok: bool,
}

/// A [`RunCx`] by its contents.
pub struct RunView {
    /// Rows per batch.
    pub quantum: usize,
    /// Milliseconds of writer time one root's turn may take.
    pub slice: u64,
    /// Rows with no file behind them.
    pub stale: Seq<Seq<char>>,
    /// Paths reached through a link.
    pub aliased: Set<Seq<char>>,
    /// Whether every walk so far saw its whole tree.
    pub stale_cleanup_ok: bool,
}

impl View for RunCx {
    type V = RunView;

    closed spec fn view(&self) -> RunView {
        RunView {
            quantum: self.quantum,
            slice: self.slice,
            stale: texts(self.stale_candidates@),
            aliased: self.aliased_paths@,
            stale_cleanup_ok: self.stale_cleanup_ok,
        }
    }
}

/// The paths that were not reached through a link.
pub open spec fn spared(paths: Seq<Seq<char>>, aliased: Set<Seq<char>>) -> Seq<Seq<char>>
    decreases paths.len(),
{
    if paths.len() == 0 {
        seq![]
    } else if aliased.contains(paths.last()) {
        spared(paths.drop_last(), aliased)
    } else {
        spared(paths.drop_last(), aliased).push(paths.last())
    }
}

/// The stored directories that a walk never reached and that do not lie under
/// one it could not read.
pub open spec fn unvisited(
    parents: Seq<Seq<char>>,
    seen: Set<Seq<char>>,
    unreadable: Seq<Seq<char>>,
    sep: Separator,
) -> Seq<Seq<char>>
    decreases parents.len(),
{
    if parents.len() == 0 {
        seq![]
    } else {
        let front = unvisited(parents.drop_last(), seen, unreadable, sep);
        let p = parents.last();
        if seen.contains(p) || covered(unreadable, p, sep) {
            front
        } else {
            front.push(p)
        }
    }
}

/// Whether a path lies under one of some directories.
pub open spec fn covered(dirs: Seq<Seq<char>>, path: Seq<char>, sep: Separator) -> bool {
    exists|i: int| 0 <= i < dirs.len() && under(path, #[trigger] dirs[i], sep)
}

/// The directories a walk has been in, as stored parents.
pub type SeenDirs = StringHashSet;

/// The directories whose rows have to be looked at: a directory deleted
/// wholesale, or newly excluded, is never read, so per-directory
/// reconciliation cannot see its rows.
pub fn sweep_unvisited_parents(
    parents: &Vec<String>,
    seen_dirs: &SeenDirs,
    unreadable: &UnreadableDirs,
    sep: Separator,
) -> (r: Vec<String>)
    ensures
        texts(r@) == unvisited(texts(parents@), seen_dirs@, unreadable@, sep),
{
    let ghost all = texts(parents@);
    let mut r: Vec<String> = Vec::new();
    let mut i: usize = 0;
    assert(all.take(0) =~= seq![]);
    assert(texts(r@) =~= seq![]);
    while i < parents.len()
        invariant
            i <= parents@.len(),
            all == texts(parents@),
            texts(r@) == unvisited(all.take(i as int), seen_dirs@, unreadable@, sep),
        decreases parents@.len() - i,
    {
        let ghost before = texts(r@);
        proof {
            assert(all.take(i + 1).drop_last() =~= all.take(i as int));
            assert(all.take(i + 1).last() == parents@[i as int]@);
        }
        let p = parents[i].as_str();
        if !seen_dirs.contains(p) && !unreadable.covers(p, sep) {
            r.push(parents[i].clone());
            assert(texts(r@) =~= before.push(parents@[i as int]@));
        }
        i += 1;
    }
    assert(all.take(all.len() as int) =~= all);
    r
}

impl RunCx {
    pub fn new(config: &Config) -> (r: RunCx)
        ensures
            r@ == (RunView {
                quantum: if config.processing.batch_size == 0 {
                    1
                } else {
                    config.processing.batch_size
                },
                slice: config.processing.writer_turn_slice_ms,
                stale: seq![],
                aliased: Set::empty(),
                stale_cleanup_ok: true,
            }),
    {
        let r = RunCx {
            quantum: if config.processing.batch_size == 0 {
                1
            } else {
                config.processing.batch_size
            },
            slice: config.processing.writer_turn_slice_ms,
            stale_candidates: Vec::new(),
            aliased_paths: StringHashSet::new(),
            stale_cleanup_ok: true,
        };
        assert(r@.stale =~= seq![]);
        r
    }

    pub fn quantum(&self) -> (r: usize)
        ensures
            r == self@.quantum,
    {
        self.quantum
    }

    pub fn slice(&self) -> (r: u64)
        ensures
            r == self@.slice,
    {
        self.slice
    }

    /// Whether stale rows may be deleted: not after a stop, nor after a walk
    /// that ended early.
    pub fn may_clean(&self, stop: bool) -> (r: bool)
        ensures
            r == (self@.stale_cleanup_ok && !stop),
    {
        self.stale_cleanup_ok && !stop
    }

    fn add_stale(&mut self, paths: Vec<String>)
        ensures
            final(self)@ == (RunView { stale: old(self)@.stale + texts(paths@), ..old(self)@ }),
    {
        let mut more = paths;
        let ghost before = self.stale_candidates@;
        let ghost added = more@;
        self.stale_candidates.append(&mut more);
        assert(self.stale_candidates@ == before + added);
        assert(texts(self.stale_candidates@) =~= texts(before) + texts(added));
    }

    /// Take in the rows of a directory that the walk never reached. A path
    /// reached through a link is no stale row: its parent's absence proves
    /// nothing.
    pub fn sweep_dir(&mut self, paths: &Vec<String>)
        ensures
            final(self)@ == (RunView {
                stale: old(self)@.stale + spared(texts(paths@), old(self)@.aliased),
                ..old(self)@
            }),
    {
        let kept = spare_aliased(paths, &self.aliased_paths);
        self.add_stale(kept);
    }

    /// The rows to delete, with the list emptied. The filter on links applies
    /// to every source: per-directory reconciliation can flag a link's target
    /// as stale while the link's route inserted it.
    pub fn stale_paths(&mut self) -> (r: Vec<String>)
        ensures
            texts(r@) == spared(old(self)@.stale, old(self)@.aliased),
            final(self)@ == (RunView { stale: seq![], ..old(self)@ }),
    {
        let r = spare_aliased(&self.stale_candidates, &self.aliased_paths);
        self.stale_candidates.clear();
        assert(self@.stale =~= seq![]);
        r
    }
}

/// A copy of the paths that were not reached through a link.
fn spare_aliased(paths: &Vec<String>, aliased: &StringHashSet) -> (r: Vec<String>)
    ensures
        texts(r@) == spared(texts(paths@), aliased@),
{
    let ghost all = texts(paths@);
    let mut r: Vec<String> = Vec::new();
    let mut i: usize = 0;
    assert(all.take(0) =~= seq![]);
    assert(texts(r@) =~= seq![]);
    while i < paths.len()
        invariant
            i <= paths@.len(),
            all == texts(paths@),
            texts(r@) == spared(all.take(i as int), aliased@),
        decreases paths@.len() - i,
    {
        let ghost before = texts(r@);
        proof {
            assert(all.take(i + 1).drop_last() =~= all.take(i as int));
            assert(all.take(i + 1).last() == paths@[i as int]@);
        }
        if !aliased.contains(paths[i].as_str()) {
            r.push(paths[i].clone());
            assert(texts(r@) =~= before.push(paths@[i as int]@));
        }
        i += 1;
    }
    assert(all.take(all.len() as int) =~= all);
    r
}

/// A path is spared exactly when it was listed and not reached through a link.
pub proof fn a_linked_path_is_never_stale(
    paths: Seq<Seq<char>>,
    aliased: Set<Seq<char>>,
    path: Seq<char>,
)
    ensures
        spared(paths, aliased).contains(path) <==> paths.contains(path) && !aliased.contains(path),
    decreases paths.len(),
{
    if paths.len() > 0 {
        let front = paths.drop_last();
        a_linked_path_is_never_stale(front, aliased, path);
        let s = spared(front, aliased);
        let all = spared(paths, aliased);
        if paths.contains(path) {
            let i = choose|i: int| 0 <= i < paths.len() && paths[i] == path;
            if i < front.len() {
                assert(front[i] == path);
            } else {
                assert(path == paths.last());
            }
        }
        if front.contains(path) {
            let i = choose|i: int| 0 <= i < front.len() && front[i] == path;
            assert(paths[i] == path);
        }
        if path == paths.last() {
            assert(paths[paths.len() - 1] == path);
            if !aliased.contains(path) {
                assert(all[s.len() as int] == path);
            }
        }
        if s.contains(path) {
            let i = choose|i: int| 0 <= i < s.len() && s[i] == path;
            assert(all[i] == path);
        }
        if all.contains(path) {
            let i = choose|i: int| 0 <= i < all.len() && all[i] == path;
            if i < s.len() {
                assert(s[i] == path);
            }
        }
    }
}

/// A stored directory is swept exactly when no walk reached it and it does not
/// lie under a directory that could not be read: "could not read" and "gone"
/// do not look alike.
pub proof fn an_unreadable_tree_is_kept(
    parents: Seq<Seq<char>>,
    seen: Set<Seq<char>>,
    unreadable: Seq<Seq<char>>,
    parent: Seq<char>,
    sep: Separator,
)
    ensures
        unvisited(parents, seen, unreadable, sep).contains(parent) <==> parents.contains(parent)
            && !seen.contains(parent) && !covered(unreadable, parent, sep),
    decreases parents.len(),
{
    if parents.len() > 0 {
        let rest = parents.drop_last();
        an_unreadable_tree_is_kept(rest, seen, unreadable, parent, sep);
        let front = unvisited(rest, seen, unreadable, sep);
        let all = unvisited(parents, seen, unreadable, sep);
        if all.contains(parent) {
            let i = choose|i: int| 0 <= i < all.len() && all[i] == parent;
            if i < front.len() {
                assert(front[i] == parent);
            } else {
                assert(parents[parents.len() - 1] == parent);
            }
        }
        if front.contains(parent) {
            let i = choose|i: int| 0 <= i < front.len() && front[i] == parent;
            assert(all[i] == parent);
        }
        if rest.contains(parent) {
            let i = choose|i: int| 0 <= i < rest.len() && rest[i] == parent;
            assert(parents[i] == parent);
        }
        if parents.contains(parent) {
            let i = choose|i: int| 0 <= i < parents.len() && parents[i] == parent;
            if i < rest.len() {
                assert(rest[i] == parent);
            } else if !seen.contains(parent) && !covered(unreadable, parent, sep) {
                assert(all[front.len() as int] == parent);
            }
        }
    }
}

/// The warning for directories that could not be read, where there are any.
pub fn unreadable_warning(count: usize) -> (r: Option<String>)
    ensures
        maybe(r) == if count == 0 {
            None
        } else {
            Some(
                decimal(count as nat) + " director"@ + (if count == 1 {
                    "y"@
                } else {
                    "ies"@
                })
                    + " could not be read; index entries beneath them were kept rather than deleted"@,
            )
        },
{
    if count == 0 {
        return None;
    }
    let mut line = String::new();
    push_decimal(&mut line, count as u64);
    push_str(&mut line, " director");
    if count == 1 {
        push_str(&mut line, "y");
    } else {
        push_str(&mut line, "ies");
    }
    push_str(
        &mut line,
        " could not be read; index entries beneath them were kept rather than deleted",
    );
    Some(line)
}

/// One root's in-flight state, owned by the writer.
#[derive(Debug)]
pub struct RootPipeline {
    pub root: String,
    /// This root's walk denominator; 0 is not yet known.
    pub count_total: usize,
    pub workers: usize,
    pub pending_updates: Vec<OwnedNewFile>,
    pub pending_inserts: Vec<OwnedNewFile>,
    pub walked: usize,
    pub walk_clean: bool,
    pub phase: RootPhase,
    /// Rows extracted and not yet written; a turn may leave some.
    pub ready: Vec<ExtractedRow>,
    pub written: usize,
    /// The range's counts, kept so a done root still has them.
    pub totals: Option<ExtractScope>,
    pub current_file: Option<String>,
}

/// A [`RootPipeline`] by its contents.
pub struct PipelineView {
    pub root: Seq<char>,
    pub count_total: usize,
    pub workers: usize,
    pub updates: Seq<RecordView>,
    pub inserts: Seq<RecordView>,
    pub walked: usize,
    pub walk_clean: bool,
    pub phase: RootPhase,
    pub ready: Seq<RowView>,
    pub written: usize,
    pub totals: Option<ExtractScope>,
    pub current_file: Option<Seq<char>>,
}

/// Records by their contents.
pub open spec fn records_view(v: Seq<OwnedNewFile>) -> Seq<RecordView> {
    v.map_values(|r: OwnedNewFile| r@)
}

/// Rows by their contents.
pub open spec fn rows_view(v: Seq<ExtractedRow>) -> Seq<RowView> {
    v.map_values(|r: ExtractedRow| r@)
}

impl View for RootPipeline {
    type V = PipelineView;

    open spec fn view(&self) -> PipelineView {
        PipelineView {
            root: self.root@,
            count_total: self.count_total,
            workers: self.workers,
            updates: records_view(self.pending_updates@),
            inserts: records_view(self.pending_inserts@),
            walked: self.walked,
            walk_clean: self.walk_clean,
            phase: self.phase,
            ready: rows_view(self.ready@),
            written: self.written,
            totals: self.totals,
            current_file: maybe(self.current_file),
        }
    }
}

/// The threads a root's pools get: an override that is set, else what suits
/// its disk, within bounds.
pub open spec fn pool_size(worker_override: Option<usize>, automatic: usize) -> usize {
    let wanted = match worker_override {
        Some(w) if w > 0 => w,
        _ => automatic,
    };
    if wanted < 1 {
        1
    } else if wanted > MAX_WORKERS {
        MAX_WORKERS
    } else {
        wanted
    }
}

/// One pipeline for one root. A root walked before knows its count; a
/// never-walked one is counted while it is walked.
pub fn build_pipeline(
    root: &str,
    stored_count: Option<usize>,
    worker_override: Option<usize>,
    automatic: usize,
) -> (r: RootPipeline)
    ensures
        r@ == (PipelineView {
            root: root@,
            count_total: match stored_count {
                Some(n) => if n == 0 {
                    1
                } else {
                    n
                },
                None => 0,
            },
            workers: pool_size(worker_override, automatic),
            updates: seq![],
            inserts: seq![],
            walked: 0,
            walk_clean: true,
            phase: RootPhase::Walking,
            ready: seq![],
            written: 0,
            totals: None,
            current_file: None,
        }),
{
    let wanted: usize = match worker_override {
        Some(w) => if w > 0 {
            w
        } else {
            automatic
        },
        None => automatic,
    };
    let workers: usize = if wanted < 1 {
        1
    } else if wanted > MAX_WORKERS {
        MAX_WORKERS
    } else {
        wanted
    };
    let count_total: usize = match stored_count {
        // 0 is the mark of an unknown count; an empty root must not store it.
        Some(n) => if n == 0 {
            1
        } else {
            n
        },
        None => 0,
    };
    let r = RootPipeline {
        root: root.to_owned(),
        count_total,
        workers,
        pending_updates: Vec::new(),
        pending_inserts: Vec::new(),
        walked: 0,
        walk_clean: true,
        phase: RootPhase::Walking,
        ready: Vec::new(),
        written: 0,
        totals: None,
        current_file: None,
    };
    assert(r@.updates =~= seq![]);
    assert(r@.inserts =~= seq![]);
    assert(r@.ready =~= seq![]);
    r
}

/// Which buffered batch has to land now.
#[derive(Debug, Clone, Copy, PartialEq, Eq, Structural)]
pub enum Landing {
    Nothing,
    Updates,
    Inserts,
}

/// The batch that has to land before a walk that has ended is finished.
pub open spec fn waiting_batch(p: PipelineView) -> Landing {
    if p.updates.len() > 0 {
        Landing::Updates
    } else if p.inserts.len() > 0 {
        Landing::Inserts
    } else {
        Landing::Nothing
    }
}

/// A root once a batch has been written.
pub open spec fn after_landing(p: PipelineView, landing: Landing) -> PipelineView {
    match landing {
        Landing::Nothing => p,
        Landing::Updates => PipelineView { updates: seq![], ..p },
        Landing::Inserts => PipelineView { inserts: seq![], ..p },
    }
}

/// A root, the run's shared state and the batch to land, after a walk's event.
pub open spec fn walked_on(p: PipelineView, cx: RunView, event: WalkEventView) -> (
    PipelineView,
    RunView,
    Landing,
) {
    match event {
        WalkEventView::Stale(paths) => (
            p,
            RunView { stale: cx.stale + paths, ..cx },
            Landing::Nothing,
        ),
        WalkEventView::File { path, action, record, aliased } => {
            let walked = (p.walked + 1) as usize;
            let q = PipelineView {
                walked,
                current_file: if walked as int % SAMPLE_EVERY as int == 0 {
                    Some(path)
                } else {
                    p.current_file
                },
                ..p
            };
            let c = RunView {
                aliased: if aliased {
                    cx.aliased.insert(path)
                } else {
                    cx.aliased
                },
                ..cx
            };
            match record {
                None => (q, c, Landing::Nothing),
                Some(r) => if action == FileIndexAction::Update {
                    (
                        PipelineView { updates: q.updates.push(r), ..q },
                        c,
                        if q.updates.len() + 1 >= cx.quantum {
                            Landing::Updates
                        } else {
                            Landing::Nothing
                        },
                    )
                } else {
                    (
                        PipelineView { inserts: q.inserts.push(r), ..q },
                        c,
                        if q.inserts.len() + 1 >= cx.quantum {
                            Landing::Inserts
                        } else {
                            Landing::Nothing
                        },
                    )
                },
            }
        },
    }
}

/// What a finished walk leads to.
#[derive(Debug, Clone, Copy, PartialEq, Eq, Structural)]
pub enum FinishPlan {
    /// The root is done: its walk ended early, or the run was stopped.
    Done,
    /// Mark the oversize rows, then start the content pass. The walked count
    /// is stored only when the walk saw the whole tree: the figure is sticky,
    /// and an unreadable subtree would teach a too-small denominator.
    Extract { record_count: bool },
}

/// A root, the run's shared state and what to do, after its walk ended and its
/// batches landed.
pub open spec fn walk_finished(
    p: PipelineView,
    cx: RunView,
    clean: bool,
    stop: bool,
    unreadable: bool,
) -> (PipelineView, RunView, FinishPlan) {
    let q = PipelineView { walk_clean: clean, ..p };
    if !clean {
        (
            PipelineView { phase: RootPhase::Done, ..q },
            RunView { stale_cleanup_ok: false, ..cx },
            FinishPlan::Done,
        )
    } else if stop {
        (PipelineView { phase: RootPhase::Done, ..q }, cx, FinishPlan::Done)
    } else {
        (
            PipelineView {
                phase: RootPhase::Extracting,
                totals: None,
                written: 0,
                ready: seq![],
                ..q
            },
            cx,
            FinishPlan::Extract { record_count: !unreadable },
        )
    }
}

/// What an extraction turn asks for next.
#[derive(Debug, Clone, Copy, PartialEq, Eq, Structural)]
pub enum ExtractStep {
    /// Take the next extracted row, and answer with [`RootPipeline::took`].
    Take,
    /// Store the rows that are ready, and answer with
    /// [`RootPipeline::stored`].
    Store,
    End,
}

/// What asking for an extracted row gave.
#[derive(Debug)]
pub enum RowEvent {
    Row(ExtractedRow),
    Empty,
    Finished,
}

/// A [`RowEvent`] by its contents.
pub enum RowEventView {
    Row(RowView),
    Empty,
    Finished,
}

impl View for RowEvent {
    type V = RowEventView;

    open spec fn view(&self) -> RowEventView {
        match *self {
            RowEvent::Row(r) => RowEventView::Row(r@),
            RowEvent::Empty => RowEventView::Empty,
            RowEvent::Finished => RowEventView::Finished,
        }
    }
}

/// One root's turn at writing extracted rows.
#[derive(Debug, Clone, Copy, PartialEq, Eq, Structural)]
pub struct ExtractTurn {
    /// The pass has no further row.
    pub finished: bool,
    /// Rows consumed in this turn.
    pub consumed: usize,
    /// Whether more rows may be taken before the next store.
    pub topping: bool,
    pub ended: bool,
}

/// What a turn asks for next, by how many rows are ready.
pub open spec fn extract_step(t: ExtractTurn, ready: nat) -> ExtractStep {
    if t.ended {
        ExtractStep::End
    } else if t.topping && ready < READY_TOPUP {
        ExtractStep::Take
    } else if ready == 0 {
        ExtractStep::End
    } else {
        ExtractStep::Store
    }
}

/// A root and its turn after asking for a row.
pub open spec fn row_taken(p: PipelineView, t: ExtractTurn, event: RowEventView) -> (
    PipelineView,
    ExtractTurn,
) {
    match event {
        RowEventView::Row(r) => (PipelineView { ready: p.ready.push(r), ..p }, t),
        RowEventView::Empty => (p, ExtractTurn { topping: false, ..t }),
        RowEventView::Finished => (p, ExtractTurn { topping: false, finished: true, ..t }),
    }
}

/// A root and its turn after a store. The hint is the last row consumed, not
/// the last one taken.
pub open spec fn rows_stored(p: PipelineView, t: ExtractTurn, s: Stored, late: bool) -> (
    PipelineView,
    ExtractTurn,
) {
    let left = p.ready.skip(s.consumed as int);
    (
        PipelineView {
            ready: left,
            written: (p.written + s.written) as usize,
            current_file: if s.consumed > 0 {
                Some(p.ready[s.consumed - 1].path)
            } else {
                p.current_file
            },
            ..p
        },
        ExtractTurn {
            consumed: (t.consumed + s.consumed) as usize,
            ended: s.consumed == 0 || left.len() > 0 || late,
            topping: true,
            ..t
        },
    )
}

/// A root after its turn, and whether its pass is over: not before every ready
/// row has landed.
pub open spec fn turn_ended(p: PipelineView, t: ExtractTurn, counts: Option<ExtractScope>) -> (
    PipelineView,
    bool,
) {
    if t.finished && p.ready.len() == 0 {
        (
            PipelineView {
                totals: match p.totals {
                    Some(x) => Some(x),
                    None => counts,
                },
                phase: RootPhase::Done,
                ..p
            },
            true,
        )
    } else {
        (p, false)
    }
}

/// Busy threads and pool size, chosen by phase.
pub open spec fn workers_shown(
    phase: RootPhase,
    walk: (usize, usize),
    content: Option<(usize, usize)>,
) -> (usize, usize) {
    match phase {
        RootPhase::Walking => walk,
        RootPhase::Extracting => match content {
            Some(c) => c,
            None => (0, 0),
        },
        RootPhase::Done => (0, 0),
    }
}

/// A root's range counts: the ones kept, else the pass's.
pub open spec fn known_totals(p: PipelineView, counts: Option<ExtractScope>) -> Option<
    ExtractScope,
> {
    match p.totals {
        Some(t) => Some(t),
        None => counts,
    }
}

impl RootPipeline {
    /// The tree was counted. Gives the warning to log; a cancelled count needs
    /// none.
    pub fn count_landed(&mut self, result: Result<usize, String>) -> (r: Option<String>)
        ensures
            match result {
                Ok(n) => r is None && final(self)@ == (PipelineView {
                    count_total: if n == 0 {
                        1
                    } else {
                        n
                    },
                    ..old(self)@
                }),
                Err(e) => final(self)@ == old(self)@ && maybe(r) == if contains(
                    e@,
                    "cancelled"@,
                ) {
                    None
                } else {
                    Some("count for "@ + old(self)@.root + ": "@ + e@)
                },
            },
    {
        match result {
            Ok(n) => {
                self.count_total = if n == 0 {
                    1
                } else {
                    n
                };
                None
            },
            Err(e) => {
                if holds(e.as_str(), "cancelled") {
                    None
                } else {
                    let mut line = joined("count for ", self.root.as_str());
                    push_str(&mut line, ": ");
                    push_str(&mut line, e.as_str());
                    Some(line)
                }
            },
        }
    }

    /// Take in an event of the walk. Stale rows are only noted: deleting
    /// mid-walk would break "a stopped run deletes nothing", and a link that
    /// exempts a path may still be ahead.
    pub fn walk_event(&mut self, cx: &mut RunCx, event: WalkEvent) -> (r: Landing)
        requires
            old(self)@.walked < usize::MAX,
        ensures
            (final(self)@, final(cx)@, r) == walked_on(old(self)@, old(cx)@, event@),
    {
        match event {
            WalkEvent::Stale(paths) => {
                cx.add_stale(paths);
                Landing::Nothing
            },
            WalkEvent::File(file) => {
                let WalkFile { path, action, record, aliased } = file;
                self.walked = self.walked + 1;
                if self.walked % SAMPLE_EVERY == 0 {
                    self.current_file = Some(path.clone());
                }
                if aliased {
                    let _ = cx.aliased_paths.insert(path);
                }
                match record {
                    None => Landing::Nothing,
                    Some(rec) => {
                        if action == FileIndexAction::Update {
                            let ghost before = records_view(self.pending_updates@);
                            self.pending_updates.push(rec);
                            assert(records_view(self.pending_updates@) =~= before.push(rec@));
                            if self.pending_updates.len() >= cx.quantum {
                                Landing::Updates
                            } else {
                                Landing::Nothing
                            }
                        } else {
                            let ghost before = records_view(self.pending_inserts@);
                            self.pending_inserts.push(rec);
                            assert(records_view(self.pending_inserts@) =~= before.push(rec@));
                            if self.pending_inserts.len() >= cx.quantum {
                                Landing::Inserts
                            } else {
                                Landing::Nothing
                            }
                        }
                    },
                }
            },
        }
    }

    /// A batch has been written.
    pub fn landed(&mut self, landing: Landing)
        ensures
            final(self)@ == after_landing(old(self)@, landing),
    {
        match landing {
            Landing::Nothing => {},
            Landing::Updates => {
                self.pending_updates.clear();
                assert(self@.updates =~= seq![]);
            },
            Landing::Inserts => {
                self.pending_inserts.clear();
                assert(self@.inserts =~= seq![]);
            },
        }
    }

    /// The batch that has to land now that the walk has ended: the updates, then
    /// the inserts, then nothing, and [`RootPipeline::finish_walk`] may follow.
    pub fn last_landing(&self) -> (r: Landing)
        ensures
            r == waiting_batch(self@),
    {
        if self.pending_updates.len() > 0 {
            Landing::Updates
        } else if self.pending_inserts.len() > 0 {
            Landing::Inserts
        } else {
            Landing::Nothing
        }
    }

    /// The walk ended and both batches have landed: hand the root to the
    /// content pass or mark it done. `clean` is whether every walk worker
    /// ended normally, `unreadable` whether a directory could not be read.
    pub fn finish_walk(&mut self, cx: &mut RunCx, clean: bool, stop: bool, unreadable: bool) -> (r:
        FinishPlan)
        requires
            old(self)@.updates.len() == 0,
            old(self)@.inserts.len() == 0,
        ensures
            (final(self)@, final(cx)@, r) == walk_finished(
                old(self)@,
                old(cx)@,
                clean,
                stop,
                unreadable,
            ),
    {
        self.walk_clean = clean;
        if !clean {
            cx.stale_cleanup_ok = false;
            self.phase = RootPhase::Done;
            FinishPlan::Done
        } else if stop {
            self.phase = RootPhase::Done;
            FinishPlan::Done
        } else {
            self.totals = None;
            self.written = 0;
            self.ready.clear();
            assert(self@.ready =~= seq![]);
            self.phase = RootPhase::Extracting;
            FinishPlan::Extract { record_count: !unreadable }
        }
    }

    /// The warning for a walk that ended early.
    pub fn walk_warning(&self) -> (r: String)
        ensures
            r@ == "a walk worker for "@ + self@.root
                + " terminated abnormally; skipping stale cleanup"@,
    {
        let mut line = joined("a walk worker for ", self.root.as_str());
        push_str(&mut line, " terminated abnormally; skipping stale cleanup");
        line
    }

    /// The warning for a content pass that ended early.
    pub fn content_warning(&self) -> (r: String)
        ensures
            r@ == "a content worker for "@ + self@.root + " terminated abnormally"@,
    {
        let mut line = joined("a content worker for ", self.root.as_str());
        push_str(&mut line, " terminated abnormally");
        line
    }

    /// Begin a turn at writing extracted rows. `counts` is what the pass has
    /// counted by now.
    pub fn begin_extracting(&mut self, counts: Option<ExtractScope>) -> (r: ExtractTurn)
        ensures
            final(self)@ == (PipelineView {
                totals: known_totals(old(self)@, counts),
                ..old(self)@
            }),
            r == (ExtractTurn { finished: false, consumed: 0, topping: true, ended: false }),
    {
        if self.totals.is_none() {
            self.totals = counts;
        }
        ExtractTurn { finished: false, consumed: 0, topping: true, ended: false }
    }

    /// What the turn asks for next.
    pub fn extract_next(&self, turn: &ExtractTurn) -> (r: ExtractStep)
        ensures
            r == extract_step(*turn, self@.ready.len()),
    {
        if turn.ended {
            ExtractStep::End
        } else if turn.topping && self.ready.len() < READY_TOPUP {
            ExtractStep::Take
        } else if self.ready.len() == 0 {
            ExtractStep::End
        } else {
            ExtractStep::Store
        }
    }

    /// Asking the pass for a row gave this.
    pub fn took(&mut self, turn: &mut ExtractTurn, event: RowEvent)
        ensures
            (final(self)@, *final(turn)) == row_taken(old(self)@, *old(turn), event@),
    {
        match event {
            RowEvent::Row(row) => {
                let ghost before = rows_view(self.ready@);
                self.ready.push(row);
                assert(rows_view(self.ready@) =~= before.push(row@));
            },
            RowEvent::Empty => {
                turn.topping = false;
            },
            RowEvent::Finished => {
                turn.topping = false;
                turn.finished = true;
            },
        }
    }

    /// The ready rows were stored as far as the turn's slice reached. `late`
    /// is whether the slice is over.
    pub fn stored(&mut self, turn: &mut ExtractTurn, stored: Stored, late: bool)
        requires
            stored.consumed <= old(self)@.ready.len(),
            old(self)@.written + stored.written <= usize::MAX,
            old(turn).consumed + stored.consumed <= usize::MAX,
        ensures
            (final(self)@, *final(turn)) == rows_stored(old(self)@, *old(turn), stored, late),
    {
        let ghost before = self.ready@;
        if stored.consumed > 0 {
            assert(rows_view(before)[stored.consumed - 1] == before[stored.consumed - 1]@);
            self.current_file = Some(self.ready[stored.consumed - 1].path.clone());
        }
        let left = self.ready.split_off(stored.consumed);
        self.ready = left;
        assert(rows_view(self.ready@) =~= rows_view(before).skip(stored.consumed as int));
        self.written = self.written + stored.written;
        turn.consumed = turn.consumed + stored.consumed;
        turn.topping = true;
        turn.ended = stored.consumed == 0 || self.ready.len() > 0 || late;
    }

    /// The turn is over. Gives whether the pass is over too, which is then to
    /// be joined.
    pub fn end_extracting(&mut self, turn: &ExtractTurn, counts: Option<ExtractScope>) -> (r: bool)
        ensures
            (final(self)@, r) == turn_ended(old(self)@, *turn, counts),
    {
        if turn.finished && self.ready.len() == 0 {
            if self.totals.is_none() {
                self.totals = counts;
            }
            self.phase = RootPhase::Done;
            true
        } else {
            false
        }
    }

    /// Busy threads and pool size; a root outlives its walk, so chosen by
    /// phase.
    pub fn worker_counts(&self, walk: (usize, usize), content: Option<(usize, usize)>) -> (r: (
        usize,
        usize,
    ))
        ensures
            r == workers_shown(self@.phase, walk, content),
    {
        match self.phase {
            RootPhase::Walking => walk,
            RootPhase::Extracting => match content {
                Some(c) => c,
                None => (0, 0),
            },
            RootPhase::Done => (0, 0),
        }
    }

    /// The progress to publish. The extracted figure is not clamped against
    /// its total: it never goes backwards, and can briefly overshoot.
    pub fn snapshot(
        &self,
        walk: (usize, usize),
        content: Option<(usize, usize)>,
        counts: Option<ExtractScope>,
    ) -> (r: RootProgress)
        requires
            match known_totals(self@, counts) {
                Some(t) => t.already_done + self@.written <= usize::MAX && t.pending
                    + t.already_done <= usize::MAX,
                None => true,
            },
        ensures
            r@ == (RootView {
                root: self@.root,
                phase: self@.phase,
                walked: self@.walked,
                walk_total: if self@.count_total == 0 {
                    None
                } else {
                    Some(self@.count_total)
                },
                extracted: match known_totals(self@, counts) {
                    Some(t) => (t.already_done + self@.written) as usize,
                    None => self@.written,
                },
                extract_total: match known_totals(self@, counts) {
                    Some(t) => Some((t.pending + t.already_done) as usize),
                    None => None,
                },
                current_file: self@.current_file,
                active_workers: workers_shown(self@.phase, walk, content).0,
                total_workers: workers_shown(self@.phase, walk, content).1,
            }),
    {
        let (active_workers, total_workers) = self.worker_counts(walk, content);
        let totals = match self.totals {
            Some(t) => Some(t),
            None => counts,
        };
        let (extracted, extract_total) = match totals {
            Some(t) => (t.already_done + self.written, Some(t.pending + t.already_done)),
            None => (self.written, None),
        };
        RootProgress {
            root: self.root.clone(),
            phase: self.phase,
            walked: self.walked,
            walk_total: if self.count_total == 0 {
                None
            } else {
                Some(self.count_total)
            },
            extracted,
            extract_total,
            current_file: match &self.current_file {
                Some(f) => Some(f.clone()),
                None => None,
            },
            active_workers,
            total_workers,
        }
    }
}

impl ExtractTurn {
    /// Whether the turn did anything.
    pub fn progressed(&self) -> (r: bool)
        ensures
            r == (self.finished || self.consumed > 0),
    {
        self.finished || self.consumed > 0
    }
}

/// One root's turn at draining its walk: quanta of events until the slice is
/// over, the channel is empty or the walk ends.
#[derive(Debug, Clone, Copy, PartialEq, Eq, Structural)]
pub struct WalkTurn {
    pub took: usize,
    pub quantum_end: usize,
    /// The channel ran empty.
    pub drained: bool,
    /// The walk ended.
    pub finished: bool,
}

/// What a walk turn asks for next.
#[derive(Debug, Clone, Copy, PartialEq, Eq, Structural)]
pub enum WalkStep {
    /// Take the walk's next event, and answer with [`WalkTurn::took`],
    /// [`WalkTurn::drained`] or [`WalkTurn::finished`].
    Take,
    /// The turn is over; whether it did anything.
    End(bool),
}

/// A walk turn's next state and step. The clock counts only between quanta.
pub open spec fn walk_turn_next(t: WalkTurn, quantum: usize, late: bool) -> (WalkTurn, WalkStep) {
    if t.drained || t.finished {
        (t, WalkStep::End(t.finished || t.took > 0))
    } else if t.took < t.quantum_end {
        (t, WalkStep::Take)
    } else if late {
        (t, WalkStep::End(t.took > 0))
    } else {
        (WalkTurn { quantum_end: (t.took + quantum) as usize, ..t }, WalkStep::Take)
    }
}

impl WalkTurn {
    /// Begin a turn with a first quantum.
    pub fn new(quantum: usize) -> (r: WalkTurn)
        ensures
            r == (WalkTurn { took: 0, quantum_end: quantum, drained: false, finished: false }),
    {
        WalkTurn { took: 0, quantum_end: quantum, drained: false, finished: false }
    }

    /// The next step. `late` is whether the slice is over.
    pub fn next(&mut self, quantum: usize, late: bool) -> (r: WalkStep)
        requires
            old(self).took + quantum <= usize::MAX,
        ensures
            (*final(self), r) == walk_turn_next(*old(self), quantum, late),
    {
        if self.drained || self.finished {
            WalkStep::End(self.finished || self.took > 0)
        } else if self.took < self.quantum_end {
            WalkStep::Take
        } else if late {
            WalkStep::End(self.took > 0)
        } else {
            self.quantum_end = self.took + quantum;
            WalkStep::Take
        }
    }

    /// An event was taken.
    pub fn took(&mut self)
        requires
            old(self).took < usize::MAX,
        ensures
            *final(self) == (WalkTurn { took: (old(self).took + 1) as usize, ..*old(self) }),
    {
        self.took = self.took + 1;
    }

    /// There was no event.
    pub fn drained(&mut self)
        ensures
            *final(self) == (WalkTurn { drained: true, ..*old(self) }),
    {
        self.drained = true;
    }

    /// The walk has ended.
    pub fn finished(&mut self)
        ensures
            *final(self) == (WalkTurn { finished: true, ..*old(self) }),
    {
        self.finished = true;
    }
}

/// A root is not done while extracted rows wait to be written.
pub proof fn a_root_is_done_only_when_its_rows_landed(
    p: PipelineView,
    t: ExtractTurn,
    counts: Option<ExtractScope>,
)
    requires
        p.phase == RootPhase::Extracting,
        turn_ended(p, t, counts).0.phase == RootPhase::Done,
    ensures
        turn_ended(p, t, counts).0.ready.len() == 0,
        t.finished,
{
}

/// A walk that ended early, in any root, keeps every row: the run's stale rows
/// are not cleaned up any more, whatever the other roots report.
pub proof fn an_early_end_blocks_the_cleanup(
    p: PipelineView,
    cx: RunView,
    stop: bool,
    unreadable: bool,
    q: PipelineView,
    clean: bool,
)
    ensures
        !walk_finished(p, cx, false, stop, unreadable).1.stale_cleanup_ok,
        !cx.stale_cleanup_ok ==> !walk_finished(q, cx, clean, stop, unreadable).1.stale_cleanup_ok,
{
}

/// A stopped or early-ended walk records no count, nor does one that could not
/// read a directory.
pub proof fn only_a_whole_walk_is_counted(
    p: PipelineView,
    cx: RunView,
    clean: bool,
    stop: bool,
    unreadable: bool,
)
    ensures
        walk_finished(p, cx, clean, stop, unreadable).2 == (FinishPlan::Extract {
            record_count: true,
        }) <==> clean && !stop && !unreadable,
{
}

/// Every record a walk hands in is buffered until it lands: an event adds its
/// record to exactly one batch and takes none away, and a batch asks to land
/// as soon as it holds a quantum.
pub proof fn no_record_is_dropped(p: PipelineView, cx: RunView, event: WalkEventView)
    ensures
        ({
            let (q, c, landing) = walked_on(p, cx, event);
            let added = match event {
                WalkEventView::File { record: Some(_), .. } => 1int,
                _ => 0,
            };
            &&& q.updates.len() + q.inserts.len() == p.updates.len() + p.inserts.len() + added
            &&& p.updates.is_prefix_of(q.updates)
            &&& p.inserts.is_prefix_of(q.inserts)
            &&& landing == Landing::Updates <==> q.updates.len() > p.updates.len()
                && q.updates.len() >= cx.quantum
            &&& landing == Landing::Inserts <==> q.inserts.len() > p.inserts.len()
                && q.inserts.len() >= cx.quantum
        }),
{
}

/// A record joins the batch of its action, behind what is buffered there: an
/// update the updates, anything else the inserts. The other batch and what was
/// extracted are untouched, and the file is counted once.
pub proof fn a_record_joins_the_batch_of_its_action(
    p: PipelineView,
    cx: RunView,
    path: Seq<char>,
    action: FileIndexAction,
    record: RecordView,
    aliased: bool,
)
    requires
        p.walked < usize::MAX,
    ensures
        ({
            let q = walked_on(
                p,
                cx,
                WalkEventView::File { path, action, record: Some(record), aliased },
            ).0;
            &&& q.walked == p.walked + 1
            &&& q.updates + q.inserts != p.updates + p.inserts
            &&& if action == FileIndexAction::Update {
                q.inserts == p.inserts && q.updates.drop_last() == p.updates && q.updates.last()
                    == record
            } else {
                q.updates == p.updates && q.inserts.drop_last() == p.inserts && q.inserts.last()
                    == record
            }
            &&& q.ready == p.ready
            &&& q.written == p.written
            &&& q.phase == p.phase
            &&& q.root == p.root
        }),
{
    let q = walked_on(
        p,
        cx,
        WalkEventView::File { path, action, record: Some(record), aliased },
    ).0;
    assert((q.updates + q.inserts).len() == (p.updates + p.inserts).len() + 1);
    if action == FileIndexAction::Update {
        assert(q.updates.drop_last() =~= p.updates);
    } else {
        assert(q.inserts.drop_last() =~= p.inserts);
    }
}

/// The rows that a walk's event names as having no file behind them.
pub open spec fn named_stale(event: WalkEventView) -> Seq<Seq<char>> {
    match event {
        WalkEventView::Stale(paths) => paths,
        WalkEventView::File { .. } => seq![],
    }
}

/// The rows that some events name as having no file behind them, in order.
pub open spec fn all_named_stale(events: Seq<WalkEventView>) -> Seq<Seq<char>>
    decreases events.len(),
{
    if events.len() == 0 {
        seq![]
    } else {
        named_stale(events[0]) + all_named_stale(events.skip(1))
    }
}

/// What events name is what the first of them names, then the last one.
proof fn lemma_named_stale_last(events: Seq<WalkEventView>)
    requires
        events.len() > 0,
    ensures
        all_named_stale(events) == all_named_stale(events.drop_last()) + named_stale(
            events.last(),
        ),
    decreases events.len(),
{
    if events.len() == 1 {
        assert(events.skip(1) =~= seq![]);
        assert(events.drop_last() =~= seq![]);
        assert(all_named_stale(events.skip(1)).len() == 0);
        assert(all_named_stale(events) =~= named_stale(events[0]));
        assert(all_named_stale(events.drop_last()) + named_stale(events.last()) =~= named_stale(
            events[0],
        ));
    } else {
        lemma_named_stale_last(events.skip(1));
        assert(events.skip(1).drop_last() =~= events.drop_last().skip(1));
        assert(events.skip(1).last() == events.last());
        assert(all_named_stale(events) =~= all_named_stale(events.drop_last()) + named_stale(
            events.last(),
        ));
    }
}

/// Over any events of a walk, the stale rows noted for the run are those noted
/// before and, behind them, the lists of all the stale events in order. No event
/// takes a noted row away.
pub proof fn every_stale_row_is_noted(p: PipelineView, cx: RunView, events: Seq<WalkEventView>)
    ensures
        walked_through(p, cx, events).1.stale == cx.stale + all_named_stale(events),
    decreases events.len(),
{
    if events.len() == 0 {
        assert(cx.stale + all_named_stale(events) =~= cx.stale);
    } else {
        every_stale_row_is_noted(p, cx, events.drop_last());
        lemma_named_stale_last(events);
        assert(walked_through(p, cx, events).1.stale =~= cx.stale + all_named_stale(events));
    }
}

/// Whether a walk's event is a file reached through a link at this path.
pub open spec fn reaches_by_link(event: WalkEventView, path: Seq<char>) -> bool {
    event matches WalkEventView::File { path: at, aliased: true, .. } && at == path
}

/// The paths exempt from the cleanup are those that were before and those that
/// some file of the walk was reached at through a link.
pub proof fn every_linked_path_is_exempt(
    p: PipelineView,
    cx: RunView,
    events: Seq<WalkEventView>,
    path: Seq<char>,
)
    ensures
        walked_through(p, cx, events).1.aliased.contains(path) <==> cx.aliased.contains(path)
            || exists|i: int| 0 <= i < events.len() && reaches_by_link(#[trigger] events[i], path),
    decreases events.len(),
{
    if events.len() > 0 {
        let front = events.drop_last();
        every_linked_path_is_exempt(p, cx, front, path);
        if exists|i: int| 0 <= i < front.len() && reaches_by_link(#[trigger] front[i], path) {
            let i = choose|i: int|
                0 <= i < front.len() && reaches_by_link(#[trigger] front[i], path);
            assert(reaches_by_link(events[i], path));
        }
        if reaches_by_link(events.last(), path) {
            assert(reaches_by_link(events[events.len() - 1], path));
        }
        if exists|i: int| 0 <= i < events.len() && reaches_by_link(#[trigger] events[i], path) {
            let i = choose|i: int|
                0 <= i < events.len() && reaches_by_link(#[trigger] events[i], path);
            if i < front.len() {
                assert(reaches_by_link(front[i], path));
            }
        }
    }
}

/// Whatever else a walk reports, before or after, a row that one of its stale
/// events names and that was not reached through a link is among the rows handed
/// out for deletion, and so is one that was noted before the walk.
pub proof fn every_stale_row_is_handed_out(
    p: PipelineView,
    cx: RunView,
    events: Seq<WalkEventView>,
    i: int,
    paths: Seq<Seq<char>>,
    path: Seq<char>,
)
    requires
        cx.stale.contains(path) || (0 <= i < events.len() && events[i] == WalkEventView::Stale(
            paths,
        ) && paths.contains(path)),
    ensures
        ({
            let end = walked_through(p, cx, events).1;
            end.aliased.contains(path) || spared(end.stale, end.aliased).contains(path)
        }),
{
    let end = walked_through(p, cx, events).1;
    every_stale_row_is_noted(p, cx, events);
    let all = cx.stale + all_named_stale(events);
    if cx.stale.contains(path) {
        let k = choose|k: int| 0 <= k < cx.stale.len() && cx.stale[k] == path;
        assert(all[k] == path);
    } else {
        lemma_named_among(events, i, path);
        let named = all_named_stale(events);
        let k = choose|k: int| 0 <= k < named.len() && named[k] == path;
        assert(all[cx.stale.len() + k] == path);
    }
    a_linked_path_is_never_stale(end.stale, end.aliased, path);
}

/// What one event names, all of them name.
proof fn lemma_named_among(events: Seq<WalkEventView>, i: int, path: Seq<char>)
    requires
        0 <= i < events.len(),
        named_stale(events[i]).contains(path),
    ensures
        all_named_stale(events).contains(path),
    decreases events.len(),
{
    let first = named_stale(events[0]);
    let rest = all_named_stale(events.skip(1));
    if i == 0 {
        let k = choose|k: int| 0 <= k < first.len() && first[k] == path;
        assert(all_named_stale(events)[k] == path);
    } else {
        assert(events.skip(1)[i - 1] == events[i]);
        lemma_named_among(events.skip(1), i - 1, path);
        let k = choose|k: int| 0 <= k < rest.len() && rest[k] == path;
        assert(all_named_stale(events)[first.len() + k] == path);
    }
}

/// Sparing works path by path and keeps the order: a list is spared in pieces,
/// one without linked paths comes out whole, and one of linked paths empty.
pub proof fn sparing_keeps_the_order(
    a: Seq<Seq<char>>,
    b: Seq<Seq<char>>,
    aliased: Set<Seq<char>>,
)
    ensures
        spared(a + b, aliased) == spared(a, aliased) + spared(b, aliased),
        (forall|i: int| 0 <= i < a.len() ==> !aliased.contains(#[trigger] a[i])) ==> spared(
            a,
            aliased,
        ) == a,
        (forall|i: int| 0 <= i < a.len() ==> aliased.contains(#[trigger] a[i])) ==> spared(
            a,
            aliased,
        ).len() == 0,
    decreases a.len() + b.len(),
{
    if b.len() > 0 {
        assert((a + b).drop_last() =~= a + b.drop_last());
        assert((a + b).last() == b.last());
        sparing_keeps_the_order(a, b.drop_last(), aliased);
        assert(spared(a + b, aliased) =~= spared(a, aliased) + spared(b, aliased));
    } else {
        assert(a + b =~= a);
        assert(spared(a, aliased) + spared(b, aliased) =~= spared(a, aliased));
        if a.len() > 0 {
            sparing_keeps_the_order(a.drop_last(), b, aliased);
            assert(a[a.len() - 1] == a.last());
            assert forall|i: int| 0 <= i < a.drop_last().len() implies (#[trigger] a.drop_last()[i])
                == a[i] by {}
            if forall|i: int| 0 <= i < a.len() ==> !aliased.contains(#[trigger] a[i]) {
                assert(spared(a, aliased) =~= a);
            }
        }
    }
}

/// Sweeping works directory by directory and keeps the order: a list is swept in
/// pieces, and comes out whole where none was reached and none is covered.
pub proof fn sweeping_keeps_the_order(
    a: Seq<Seq<char>>,
    b: Seq<Seq<char>>,
    seen: Set<Seq<char>>,
    unreadable: Seq<Seq<char>>,
    sep: Separator,
)
    ensures
        unvisited(a + b, seen, unreadable, sep) == unvisited(a, seen, unreadable, sep) + unvisited(
            b,
            seen,
            unreadable,
            sep,
        ),
        (forall|i: int|
            0 <= i < a.len() ==> !seen.contains(#[trigger] a[i]) && !covered(
                unreadable,
                a[i],
                sep,
            )) ==> unvisited(a, seen, unreadable, sep) == a,
    decreases a.len() + b.len(),
{
    if b.len() > 0 {
        assert((a + b).drop_last() =~= a + b.drop_last());
        assert((a + b).last() == b.last());
        sweeping_keeps_the_order(a, b.drop_last(), seen, unreadable, sep);
        assert(unvisited(a + b, seen, unreadable, sep) =~= unvisited(a, seen, unreadable, sep)
            + unvisited(b, seen, unreadable, sep));
    } else {
        assert(a + b =~= a);
        assert(unvisited(a, seen, unreadable, sep) + unvisited(b, seen, unreadable, sep)
            =~= unvisited(a, seen, unreadable, sep));
        if a.len() > 0 {
            sweeping_keeps_the_order(a.drop_last(), b, seen, unreadable, sep);
            assert(a[a.len() - 1] == a.last());
            assert forall|i: int| 0 <= i < a.drop_last().len() implies (#[trigger] a.drop_last()[i])
                == a[i] by {}
            if forall|i: int|
                0 <= i < a.len() ==> !seen.contains(#[trigger] a[i]) && !covered(
                    unreadable,
                    a[i],
                    sep,
                ) {
                assert(unvisited(a, seen, unreadable, sep) =~= a);
            }
        }
    }
}

/// A walk that ended as it should, in a run that was not stopped, goes on to its
/// content; every other one is done. Either way nothing that was noted or
/// counted is lost, and only an early end forbids the cleanup.
pub proof fn a_whole_walk_goes_on_to_its_content(
    p: PipelineView,
    cx: RunView,
    clean: bool,
    stop: bool,
    unreadable: bool,
)
    ensures
        ({
            let (q, c, plan) = walk_finished(p, cx, clean, stop, unreadable);
            &&& q.phase == RootPhase::Extracting <==> clean && !stop
            &&& q.phase != RootPhase::Walking
            &&& plan is Extract <==> q.phase == RootPhase::Extracting
            &&& c.stale == cx.stale
            &&& c.aliased == cx.aliased
            &&& c.quantum == cx.quantum
            &&& c.slice == cx.slice
            &&& c.stale_cleanup_ok <==> cx.stale_cleanup_ok && clean
            &&& q.walk_clean == clean
            &&& q.walked == p.walked
            &&& q.root == p.root
            &&& q.workers == p.workers
            &&& q.count_total == p.count_total
        }),
{
}

/// An extracted row is kept from when it is taken until it is consumed: taking
/// puts it behind those that wait, and a store removes the first ones, as many as
/// it consumed, and adds what it wrote to the count.
pub proof fn no_extracted_row_is_dropped(
    p: PipelineView,
    t: ExtractTurn,
    event: RowEventView,
    s: Stored,
    late: bool,
)
    requires
        s.consumed <= p.ready.len(),
        p.written + s.written <= usize::MAX,
        t.consumed + s.consumed <= usize::MAX,
    ensures
        ({
            let (q, u) = row_taken(p, t, event);
            let added = match event {
                RowEventView::Row(r) => seq![r],
                _ => seq![],
            };
            &&& q.ready == p.ready + added
            &&& q.written == p.written
            &&& u.consumed == t.consumed
            &&& u.finished <==> t.finished || event is Finished
            &&& event !is Row ==> extract_step(u, q.ready.len()) !is Take
        }),
        ({
            let (q, u) = rows_stored(p, t, s, late);
            &&& p.ready == p.ready.take(s.consumed as int) + q.ready
            &&& q.written == p.written + s.written
            &&& u.consumed == t.consumed + s.consumed
            &&& u.finished == t.finished
            &&& q.phase == p.phase
        }),
{
    let q = row_taken(p, t, event).0;
    match event {
        RowEventView::Row(r) => {
            assert(q.ready =~= p.ready + seq![r]);
        },
        _ => {
            assert(q.ready =~= p.ready + Seq::<RowView>::empty());
        },
    }
    assert(p.ready =~= p.ready.take(s.consumed as int) + rows_stored(p, t, s, late).0.ready);
}

/// An extraction turn goes on while it is in time and everything it had was
/// consumed; it ends where the slice is over, where rows are left, or where
/// nothing moved. It stores only where rows wait, and takes only as far as the
/// bound on waiting rows.
pub proof fn an_extraction_turn_ends_in_time(
    p: PipelineView,
    t: ExtractTurn,
    s: Stored,
    late: bool,
    ready: nat,
)
    requires
        s.consumed <= p.ready.len(),
    ensures
        ({
            let (q, u) = rows_stored(p, t, s, late);
            extract_step(u, q.ready.len()) is End <==> late || s.consumed == 0 || s.consumed
                < p.ready.len()
        }),
        extract_step(t, ready) is Store ==> ready > 0 && !t.ended,
        extract_step(t, ready) is Take ==> ready < READY_TOPUP && !t.ended,
        !t.ended && ready > 0 ==> extract_step(t, ready) !is End,
        t.ended ==> extract_step(t, ready) is End,
{
}

/// A content pass is over exactly when it has no further row and every row it
/// gave has landed; a root whose pass is not over stays as it is, and one whose
/// pass is over keeps the counts it had or takes the pass's.
pub proof fn a_pass_is_over_once_its_rows_landed(
    p: PipelineView,
    t: ExtractTurn,
    counts: Option<ExtractScope>,
)
    ensures
        ({
            let (q, over) = turn_ended(p, t, counts);
            &&& over <==> t.finished && p.ready.len() == 0
            &&& over ==> q.phase == RootPhase::Done
            &&& !over ==> q == p
            &&& q.written == p.written
            &&& q.ready == p.ready
            &&& p.totals is Some ==> q.totals == p.totals
            &&& over && p.totals is None ==> q.totals == counts
        }),
{
}

/// A pool has at least one thread and no more than the bound; a set override
/// within it is kept, and without one what suits the disk is.
pub proof fn a_pool_follows_its_override(worker_override: Option<usize>, automatic: usize)
    ensures
        1 <= pool_size(worker_override, automatic) <= MAX_WORKERS,
        worker_override matches Some(w) && 1 <= w <= MAX_WORKERS ==> pool_size(
            worker_override,
            automatic,
        ) == worker_override->Some_0,
        (worker_override is None || worker_override == Some(0usize)) && 1 <= automatic
            <= MAX_WORKERS ==> pool_size(worker_override, automatic) == automatic,
        worker_override matches Some(w) && w > MAX_WORKERS ==> pool_size(worker_override, automatic)
            == MAX_WORKERS,
{
}

/// A walk turn ends only where the walk ended, its channel ran empty or a whole
/// quantum was taken and the slice is over; it says it did something exactly
/// where it took an event or the walk ended, and looks at the clock only between
/// quanta.
pub proof fn a_walk_turn_ends_between_quanta(t: WalkTurn, quantum: usize, late: bool)
    requires
        t.took + quantum <= usize::MAX,
    ensures
        ({
            let (u, step) = walk_turn_next(t, quantum, late);
            &&& step is End <==> t.drained || t.finished || (late && t.took >= t.quantum_end)
            &&& step matches WalkStep::End(did) ==> did == (t.finished || t.took > 0)
            &&& step is Take && t.took < t.quantum_end ==> u == t
            &&& step is Take ==> t.took < t.quantum_end || u.quantum_end == t.took + quantum
            &&& u.took == t.took
            &&& u.drained == t.drained
            &&& u.finished == t.finished
        }),
{
}

/// The records of a root that have been written, in order.
pub struct Written {
    pub updates: Seq<RecordView>,
    pub inserts: Seq<RecordView>,
}

/// What has been written once a batch landed too.
pub open spec fn written_with(w: Written, p: PipelineView, landing: Landing) -> Written {
    match landing {
        Landing::Nothing => w,
        Landing::Updates => Written { updates: w.updates + p.updates, ..w },
        Landing::Inserts => Written { inserts: w.inserts + p.inserts, ..w },
    }
}

/// The records that a walk's events hand in.
pub open spec fn handed_in(events: Seq<WalkEventView>) -> Written
    decreases events.len(),
{
    if events.len() == 0 {
        Written { updates: seq![], inserts: seq![] }
    } else {
        let before = handed_in(events.drop_last());
        match events.last() {
            WalkEventView::File { action, record: Some(r), .. } => if action
                == FileIndexAction::Update {
                Written { updates: before.updates.push(r), ..before }
            } else {
                Written { inserts: before.inserts.push(r), ..before }
            },
            _ => before,
        }
    }
}

/// A root, the run's shared state and what has been written, after a walk's
/// events, where each batch that asks to land does.
pub open spec fn walked_through(p: PipelineView, cx: RunView, events: Seq<WalkEventView>) -> (
    PipelineView,
    RunView,
    Written,
)
    decreases events.len(),
{
    if events.len() == 0 {
        (p, cx, Written { updates: seq![], inserts: seq![] })
    } else {
        let (q, c, w) = walked_through(p, cx, events.drop_last());
        let (r, d, landing) = walked_on(q, c, events.last());
        (after_landing(r, landing), d, written_with(w, r, landing))
    }
}

/// A root and what has been written, once whatever still waits has landed.
pub open spec fn all_landed(p: PipelineView, w: Written) -> (PipelineView, Written) {
    let first = waiting_batch(p);
    let q = after_landing(p, first);
    let second = waiting_batch(q);
    (after_landing(q, second), written_with(written_with(w, p, first), q, second))
}

/// What has been written and what waits is what was handed in.
proof fn lemma_written_or_waiting(p: PipelineView, cx: RunView, events: Seq<WalkEventView>)
    requires
        p.updates.len() == 0,
        p.inserts.len() == 0,
    ensures
        ({
            let (q, c, w) = walked_through(p, cx, events);
            &&& w.updates + q.updates == handed_in(events).updates
            &&& w.inserts + q.inserts == handed_in(events).inserts
        }),
    decreases events.len(),
{
    let (q, c, w) = walked_through(p, cx, events);
    if events.len() == 0 {
        assert(w.updates + q.updates =~= seq![]);
        assert(w.inserts + q.inserts =~= seq![]);
    } else {
        lemma_written_or_waiting(p, cx, events.drop_last());
        let (q0, c0, w0) = walked_through(p, cx, events.drop_last());
        let (r, d, landing) = walked_on(q0, c0, events.last());
        assert(w0.updates + r.updates =~= handed_in(events).updates);
        assert(w0.inserts + r.inserts =~= handed_in(events).inserts);
        assert(w.updates + q.updates =~= w0.updates + r.updates);
        assert(w.inserts + q.inserts =~= w0.inserts + r.inserts);
    }
}

/// Every record that a walk hands in is written before the walk is finished,
/// once and in order, however few there are: by the batches that fill up on the
/// way, and by the landings that the end of the walk asks for. After those
/// nothing waits.
pub proof fn every_record_lands_before_the_walk_is_finished(
    p: PipelineView,
    cx: RunView,
    events: Seq<WalkEventView>,
)
    requires
        p.updates.len() == 0,
        p.inserts.len() == 0,
    ensures
        ({
            let (q, _, w) = walked_through(p, cx, events);
            let (end, all) = all_landed(q, w);
            &&& end.updates.len() == 0
            &&& end.inserts.len() == 0
            &&& waiting_batch(end) == Landing::Nothing
            &&& all == handed_in(events)
        }),
{
    lemma_written_or_waiting(p, cx, events);
    let (q, _, w) = walked_through(p, cx, events);
    let (end, all) = all_landed(q, w);
    if q.updates.len() == 0 {
        assert(w.updates + q.updates =~= w.updates);
    }
    if q.inserts.len() == 0 {
        assert(w.inserts + q.inserts =~= w.inserts);
    }
    assert(all.updates =~= handed_in(events).updates);
    assert(all.inserts =~= handed_in(events).inserts);
}

/// The overrides by root: `root_workers` rekeyed from the spellings in the
/// settings to the roots that are walked. Entries no longer indexed are
/// dropped; of two spellings of one root the later counts.
pub open spec fn overrides(
    raw: Seq<Seq<char>>,
    resolved: Seq<Seq<char>>,
    workers: Seq<(Seq<char>, usize)>,
    n: int,
) -> Map<Seq<char>, usize>
    decreases n,
{
    if n <= 0 {
        Map::empty()
    } else {
        let front = overrides(raw, resolved, workers, n - 1);
        match lookup(workers, raw[n - 1]) {
            Some(w) => front.insert(resolved[n - 1], w),
            None => front,
        }
    }
}

/// The value listed first under a key.
pub open spec fn lookup(entries: Seq<(Seq<char>, usize)>, key: Seq<char>) -> Option<usize>
    decreases entries.len(),
{
    if entries.len() == 0 {
        None
    } else if entries[0].0 == key {
        Some(entries[0].1)
    } else {
        lookup(entries.drop_first(), key)
    }
}

/// Overrides by their contents.
pub open spec fn workers_view(v: Seq<(String, usize)>) -> Seq<(Seq<char>, usize)> {
    v.map_values(|e: (String, usize)| (e.0@, e.1))
}

/// The value under a key is that of the first entry with it; there is none
/// exactly where no entry has the key.
pub proof fn the_first_entry_counts(entries: Seq<(Seq<char>, usize)>, key: Seq<char>)
    ensures
        match lookup(entries, key) {
            Some(w) => exists|i: int|
                {
                    &&& 0 <= i < entries.len()
                    &&& #[trigger] entries[i] == (key, w)
                    &&& forall|j: int| 0 <= j < i ==> (#[trigger] entries[j]).0 != key
                },
            None => forall|j: int| 0 <= j < entries.len() ==> (#[trigger] entries[j]).0 != key,
        },
    decreases entries.len(),
{
    if entries.len() > 0 && entries[0].0 != key {
        let rest = entries.drop_first();
        the_first_entry_counts(rest, key);
        match lookup(rest, key) {
            Some(w) => {
                let i = choose|i: int|
                    {
                        &&& 0 <= i < rest.len()
                        &&& #[trigger] rest[i] == (key, w)
                        &&& forall|j: int| 0 <= j < i ==> (#[trigger] rest[j]).0 != key
                    };
                assert(entries[i + 1] == (key, w));
                assert forall|j: int| 0 <= j < i + 1 implies (#[trigger] entries[j]).0 != key by {
                    if j > 0 {
                        assert(rest[j - 1] == entries[j]);
                    }
                }
            },
            None => {
                assert forall|j: int| 0 <= j < entries.len() implies (#[trigger] entries[j]).0
                    != key by {
                    if j > 0 {
                        assert(rest[j - 1] == entries[j]);
                    }
                }
            },
        }
    } else if entries.len() > 0 {
        assert(entries[0] == (key, entries[0].1));
    }
}

/// Every override names a root that a configured path with a setting is walked
/// as, and a root gets the setting of the last configured path that is walked as
/// it and has one.
pub proof fn an_override_follows_its_root(
    raw: Seq<Seq<char>>,
    resolved: Seq<Seq<char>>,
    workers: Seq<(Seq<char>, usize)>,
    n: int,
    root: Seq<char>,
)
    ensures
        ({
            let m = overrides(raw, resolved, workers, n);
            if m.contains_key(root) {
                exists|i: int|
                    {
                        &&& 0 <= i < n
                        &&& #[trigger] resolved[i] == root
                        &&& lookup(workers, raw[i]) == Some(m[root])
                        &&& forall|j: int|
                            i < j < n && #[trigger] resolved[j] == root ==> lookup(
                                workers,
                                raw[j],
                            ) is None
                    }
            } else {
                forall|i: int|
                    0 <= i < n && #[trigger] resolved[i] == root ==> lookup(workers, raw[i]) is None
            }
        }),
    decreases n,
{
    if n > 0 {
        an_override_follows_its_root(raw, resolved, workers, n - 1, root);
        let before = overrides(raw, resolved, workers, n - 1);
        let m = overrides(raw, resolved, workers, n);
        if resolved[n - 1] == root && lookup(workers, raw[n - 1]) is Some {
            assert(m[root] == lookup(workers, raw[n - 1])->Some_0);
            assert(resolved[n - 1] == root);
        } else if before.contains_key(root) {
            let i = choose|i: int|
                {
                    &&& 0 <= i < n - 1
                    &&& #[trigger] resolved[i] == root
                    &&& lookup(workers, raw[i]) == Some(before[root])
                    &&& forall|j: int|
                        i < j < n - 1 && #[trigger] resolved[j] == root ==> lookup(
                            workers,
                            raw[j],
                        ) is None
                };
            assert(resolved[i] == root && lookup(workers, raw[i]) == Some(m[root]));
        }
    }
}

fn find_override(workers: &Vec<(String, usize)>, key: &str) -> (r: Option<usize>)
    ensures
        r == lookup(workers_view(workers@), key@),
{
    let ghost all = workers_view(workers@);
    let mut i: usize = 0;
    assert(all.skip(0) =~= all);
    while i < workers.len()
        invariant
            i <= workers@.len(),
            all == workers_view(workers@),
            lookup(all, key@) == lookup(all.skip(i as int), key@),
        decreases workers@.len() - i,
    {
        assert(all.skip(i as int)[0] == (workers@[i as int].0@, workers@[i as int].1));
        assert(all.skip(i as int).drop_first() =~= all.skip(i + 1));
        if same(workers[i].0.as_str(), key) {
            return Some(workers[i].1);
        }
        i += 1;
    }
    None
}

/// The worker overrides by root. `resolved` holds the root each configured
/// path is walked as, in the same order.
pub fn resolved_root_workers(config: &Config, resolved: &Vec<String>) -> (r: Keyed<usize>)
    requires
        resolved@.len() == config.paths.indexing_paths@.len(),
    ensures
        r.wf(),
        r@ == overrides(
            texts(config.paths.indexing_paths@),
            texts(resolved@),
            workers_view(config.indexing.root_workers@),
            resolved@.len() as int,
        ),
{
    let mut r: Keyed<usize> = Keyed::new();
    let mut i: usize = 0;
    while i < resolved.len()
        invariant
            i <= resolved@.len(),
            resolved@.len() == config.paths.indexing_paths@.len(),
            r.wf(),
            r@ == overrides(
                texts(config.paths.indexing_paths@),
                texts(resolved@),
                workers_view(config.indexing.root_workers@),
                i as int,
            ),
        decreases resolved@.len() - i,
    {
        assert(texts(resolved@)[i as int] == resolved@[i as int]@);
        assert(texts(config.paths.indexing_paths@)[i as int]
            == config.paths.indexing_paths@[i as int]@);
        match find_override(
            &config.indexing.root_workers,
            config.paths.indexing_paths[i].as_str(),
        ) {
            Some(w) => {
                r.insert(resolved[i].clone(), w);
            },
            None => {},
        }
        i += 1;
    }
    r
}

/// A path is covered exactly where it lies under one of the directories, whichever
/// it is.
pub proof fn any_directory_covers_what_is_under_it(
    dirs: Seq<Seq<char>>,
    dir: Seq<char>,
    path: Seq<char>,
    sep: Separator,
)
    ensures
        !covered(seq![], path, sep),
        covered(dirs.push(dir), path, sep) <==> covered(dirs, path, sep) || under(path, dir, sep),
{
    let more = dirs.push(dir);
    if covered(dirs, path, sep) {
        let i = choose|i: int| 0 <= i < dirs.len() && under(path, #[trigger] dirs[i], sep);
        assert(more[i] == dirs[i]);
    }
    if under(path, dir, sep) {
        assert(more[dirs.len() as int] == dir);
    }
    if covered(more, path, sep) {
        let i = choose|i: int| 0 <= i < more.len() && under(path, #[trigger] more[i], sep);
        if i < dirs.len() {
            assert(dirs[i] == more[i]);
        }
    }
}

/// The threads shown are those of the pool that the phase keeps busy; without one
/// there are none.
pub proof fn the_busy_pool_is_shown(
    phase: RootPhase,
    walk: (usize, usize),
    content: (usize, usize),
)
    ensures
        workers_shown(RootPhase::Walking, walk, Some(content)) == walk,
        workers_shown(RootPhase::Walking, walk, None) == walk,
        workers_shown(RootPhase::Extracting, walk, Some(content)) == content,
        phase != RootPhase::Walking ==> workers_shown(phase, walk, None) == (0usize, 0usize),
        workers_shown(RootPhase::Done, walk, Some(content)) == (0usize, 0usize),
{
}

} // verus!
