//! Incremental single-path index updates, driven by watcher events, applying
//! the same filters as the full walk: the two must agree.
//!
//! What a `stat` and the database answer comes in as plain values; the
//! statements run outside this crate.
use crate::batch::{trimmed_root, BatchWriter, ExtractCursor};
use crate::config::Config;
use crate::paths::Separator;
use crate::records::OwnedNewFile;
use crate::text::maybe;
use vstd::prelude::*;

verus! {

/// A path of an event: nothing where the index cannot spell it.
pub type EventPath = Option<String>;

/// A filesystem event under a watched root.
#[derive(Debug)]
pub enum FsEvent {
    Create(EventPath),
    Modify(EventPath),
    Remove(EventPath),
    Rename { from: EventPath, to: EventPath },
}

/// What an event asks for: a removal first, then an upsert.
#[derive(Debug)]
pub struct EventPlan {
    pub remove: Option<EventPath>,
    pub upsert: Option<EventPath>,
}

pub open spec fn event_path(p: Option<EventPath>) -> Option<Option<Seq<char>>> {
    match p {
        Some(x) => Some(maybe(x)),
        None => None,
    }
}

/// What to remove and what to upsert for one filesystem event.
pub fn apply_fs_event(event: FsEvent) -> (r: EventPlan)
    ensures
        match event {
            FsEvent::Create(p) | FsEvent::Modify(p) => r.remove is None && event_path(r.upsert)
                == Some(maybe(p)),
            FsEvent::Remove(p) => event_path(r.remove) == Some(maybe(p)) && r.upsert is None,
            FsEvent::Rename { from, to } => event_path(r.remove) == Some(maybe(from))
                && event_path(r.upsert) == Some(maybe(to)),
        },
{
    match event {
        FsEvent::Create(p) => EventPlan { remove: None, upsert: Some(p) },
        FsEvent::Modify(p) => EventPlan { remove: None, upsert: Some(p) },
        FsEvent::Remove(p) => EventPlan { remove: Some(p), upsert: None },
        FsEvent::Rename { from, to } => EventPlan { remove: Some(from), upsert: Some(to) },
    }
}

/// How much of one event may be applied in this turn, and where the last turn
/// stopped. One event is not always one file: a moved-in directory arrives as
/// a single event covering everything beneath it.
#[derive(Debug, Clone, Copy, PartialEq, Eq, Structural)]
pub struct Budget {
    /// When the turn ends, on the caller's clock.
    pub deadline: u64,
    /// Entries an earlier turn already applied for this event.
    pub resume_from: usize,
}

impl Budget {
    /// Whether the turn is over.
    pub fn spent(&self, cancel: bool, now: u64) -> (r: bool)
        ensures
            r == (cancel || now >= self.deadline),
    {
        cancel || now >= self.deadline
    }
}

/// Whether an event was applied in full, or ran out of budget partway.
#[derive(Debug, Clone, Copy, PartialEq, Eq, Structural)]
pub enum Applied {
    Done,
    /// Budget spent. What was written is committed; the caller should re-queue
    /// the same event with `resume_from` set to `done`.
    Unfinished { done: usize },
}

/// What is known of a path to upsert.
#[derive(Debug, Clone, Copy, PartialEq, Eq, Structural)]
pub struct PathFacts {
    /// An ignore pattern matches it.
    pub ignored: bool,
    /// A component beneath the innermost configured root is hidden. The walk
    /// never filters the root it was handed.
    pub hidden: bool,
    /// Whether the path itself is a link; nothing where it cannot be told.
    pub link: Option<bool>,
    /// Whether what it leads to is a directory; nothing where it is gone.
    pub dir: Option<bool>,
    /// Whether the index can spell it.
    pub spelled: bool,
}

/// What to do with a path to upsert.
#[derive(Debug, Clone, Copy, PartialEq, Eq, Structural)]
pub enum UpsertPlan {
    Nothing,
    /// Upsert each file of a walk of it.
    Walk,
    File,
}

/// What to do with a path to upsert. A missing file is nothing to do: the
/// pending removal resolves it. With following off the walk records no links,
/// so neither does this.
pub open spec fn upsert_plan(
    facts: PathFacts,
    include_hidden: bool,
    follow_symlinks: bool,
) -> UpsertPlan {
    if facts.ignored || (facts.hidden && !include_hidden) || (!follow_symlinks && facts.link
        != Some(false)) {
        UpsertPlan::Nothing
    } else {
        match facts.dir {
            None => UpsertPlan::Nothing,
            Some(true) => if facts.spelled {
                UpsertPlan::Walk
            } else {
                UpsertPlan::Nothing
            },
            Some(false) => UpsertPlan::File,
        }
    }
}

/// Decide what to do with a path to upsert.
pub fn upsert_path(facts: &PathFacts, config: &Config) -> (r: UpsertPlan)
    ensures
        r == upsert_plan(
            *facts,
            config.indexing.include_hidden,
            config.indexing.follow_symlinks,
        ),
{
    if facts.ignored {
        return UpsertPlan::Nothing;
    }
    if !config.indexing.include_hidden && facts.hidden {
        return UpsertPlan::Nothing;
    }
    if !config.indexing.follow_symlinks {
        match facts.link {
            Some(false) => {},
            _ => return UpsertPlan::Nothing,
        }
    }
    match facts.dir {
        None => UpsertPlan::Nothing,
        Some(d) => {
            if !d {
                UpsertPlan::File
            } else if facts.spelled {
                UpsertPlan::Walk
            } else {
                UpsertPlan::Nothing
            }
        },
    }
}

/// One turn at upserting a directory's files, entry by entry of a walk that
/// begins anew each time.
#[derive(Debug, Clone, Copy, PartialEq, Eq, Structural)]
pub struct DirUpsert {
    /// Entries that earlier turns applied.
    pub resume_from: usize,
    /// Entries that this turn's walk came to.
    pub seen: usize,
}

/// What to do with an entry of the walk.
#[derive(Debug, Clone, Copy, PartialEq, Eq, Structural)]
pub enum EntryStep {
    /// An earlier turn applied it.
    PassOver,
    Upsert,
    /// The turn is over before it, with this outcome.
    End(Applied),
}

/// A turn after an entry, and what to do with the entry.
pub open spec fn entry_step(t: DirUpsert, spent: bool) -> (DirUpsert, EntryStep) {
    if t.seen < t.resume_from {
        (DirUpsert { seen: (t.seen + 1) as usize, ..t }, EntryStep::PassOver)
    } else if spent {
        (t, EntryStep::End(Applied::Unfinished { done: t.seen }))
    } else {
        (DirUpsert { seen: (t.seen + 1) as usize, ..t }, EntryStep::Upsert)
    }
}

/// What a turn comes to when its walk ends.
pub open spec fn walk_outcome(t: DirUpsert) -> Applied {
    Applied::Done
}

impl DirUpsert {
    pub fn new(budget: &Budget) -> (r: DirUpsert)
        ensures
            r == (DirUpsert { resume_from: budget.resume_from, seen: 0 }),
    {
        DirUpsert { resume_from: budget.resume_from, seen: 0 }
    }

    /// The walk came to its next entry. The budget counts only for entries that
    /// are not passed over.
    pub fn entry(&mut self, spent: bool) -> (r: EntryStep)
        requires
            old(self).seen < usize::MAX,
        ensures
            (*final(self), r) == entry_step(*old(self), spent),
    {
        if self.seen < self.resume_from {
            self.seen = self.seen + 1;
            return EntryStep::PassOver;
        }
        if spent {
            return EntryStep::End(Applied::Unfinished { done: self.seen });
        }
        self.seen = self.seen + 1;
        EntryStep::Upsert
    }

    /// The walk has no further entry.
    pub fn walk_ended(&self) -> (r: Applied)
        ensures
            r == walk_outcome(*self),
    {
        Applied::Done
    }
}

/// The entries from one to before another.
pub open spec fn entries(from: int, to: int) -> Seq<int> {
    Seq::new(
        (if from < to {
            to - from
        } else {
            0
        }) as nat,
        |i: int| from + i,
    )
}

/// The entries that the rest of a turn upserts, and its outcome. `spent` is, of
/// each entry of the walk, whether the budget is spent when it is come to.
pub open spec fn dir_turn(t: DirUpsert, spent: Seq<bool>) -> (Seq<int>, Applied)
    decreases spent.len() - t.seen,
    when spent.len() <= usize::MAX
{
    if t.seen >= spent.len() {
        (seq![], walk_outcome(t))
    } else {
        let (next, step) = entry_step(t, spent[t.seen as int]);
        match step {
            EntryStep::End(outcome) => (seq![], outcome),
            EntryStep::PassOver => dir_turn(next, spent),
            EntryStep::Upsert => {
                let (rest, outcome) = dir_turn(next, spent);
                (seq![t.seen as int] + rest, outcome)
            },
        }
    }
}

/// A turn that resumes there.
pub open spec fn resumed(from: usize) -> DirUpsert {
    DirUpsert { resume_from: from, seen: 0 }
}

/// Where the entries that a turn still upserts begin.
spec fn ahead(t: DirUpsert) -> int {
    if t.seen < t.resume_from {
        t.resume_from as int
    } else {
        t.seen as int
    }
}

proof fn lemma_turn(t: DirUpsert, spent: Seq<bool>)
    requires
        spent.len() <= usize::MAX,
    ensures
        ({
            let (upserted, outcome) = dir_turn(t, spent);
            let from = ahead(t);
            match outcome {
                Applied::Done => {
                    &&& upserted == entries(from, spent.len() as int)
                    &&& forall|i: int| from <= i < spent.len() ==> !#[trigger] spent[i]
                },
                Applied::Unfinished { done } => {
                    &&& from <= done < spent.len()
                    &&& spent[done as int]
                    &&& forall|i: int| from <= i < done ==> !#[trigger] spent[i]
                    &&& upserted == entries(from, done as int)
                },
            }
        }),
    decreases spent.len() - t.seen,
{
    let (upserted, outcome) = dir_turn(t, spent);
    if t.seen >= spent.len() {
        assert(upserted =~= entries(ahead(t), spent.len() as int));
    } else {
        let (next, step) = entry_step(t, spent[t.seen as int]);
        match step {
            EntryStep::End(_) => {
                assert(upserted =~= entries(ahead(t), t.seen as int));
            },
            EntryStep::PassOver => {
                lemma_turn(next, spent);
            },
            EntryStep::Upsert => {
                lemma_turn(next, spent);
                let to = match outcome {
                    Applied::Done => spent.len() as int,
                    Applied::Unfinished { done } => done as int,
                };
                assert(upserted =~= entries(ahead(t), to));
            },
        }
    }
}

/// A turn applies the entries from where it resumes up to where its budget is
/// spent, in order, and then says where it stopped. Where the budget lasts to
/// the end of the walk the event is applied in full; so it is where there are no
/// entries past the point it resumes from, and nothing is applied then.
pub proof fn a_turn_applies_what_its_budget_allows(from: usize, spent: Seq<bool>)
    requires
        spent.len() <= usize::MAX,
    ensures
        ({
            let (upserted, outcome) = dir_turn(resumed(from), spent);
            let stop = match outcome {
                Applied::Done => spent.len() as int,
                Applied::Unfinished { done } => done as int,
            };
            &&& upserted == entries(from as int, stop)
            &&& outcome matches Applied::Unfinished { done } ==> from <= done < spent.len()
                && spent[done as int]
            &&& outcome == Applied::Done <==> forall|i: int|
                from <= i < spent.len() ==> !#[trigger] spent[i]
            &&& from < spent.len() && spent[from as int] ==> outcome == Applied::Unfinished {
                done: from,
            }
            &&& from >= spent.len() ==> outcome == Applied::Done && upserted.len() == 0
        }),
{
    lemma_turn(resumed(from), spent);
}

/// The entries that a directory event upserts over its turns, each of which
/// resumes where the one before it stopped, and what the last one came to.
pub open spec fn dir_turns(from: usize, spent: Seq<Seq<bool>>) -> (Seq<int>, Applied)
    decreases spent.len(),
{
    if spent.len() == 0 {
        (seq![], Applied::Unfinished { done: from })
    } else {
        let (upserted, outcome) = dir_turn(resumed(from), spent[0]);
        match outcome {
            Applied::Done => (upserted, outcome),
            Applied::Unfinished { done } => {
                let (rest, last) = dir_turns(done, spent.drop_first());
                (upserted + rest, last)
            },
        }
    }
}

/// A directory event cut into turns applies every entry once, in order: each
/// turn takes up where the one before it stopped, and the event is applied in
/// full exactly when every entry was.
pub proof fn resuming_repeats_and_skips_nothing(total: nat, from: usize, spent: Seq<Seq<bool>>)
    requires
        total <= usize::MAX,
        forall|i: int| 0 <= i < spent.len() ==> (#[trigger] spent[i]).len() == total,
    ensures
        match dir_turns(from, spent).1 {
            Applied::Done => dir_turns(from, spent).0 == entries(from as int, total as int),
            Applied::Unfinished { done } => from <= done && dir_turns(from, spent).0 == entries(
                from as int,
                done as int,
            ) && (done < total || spent.len() == 0),
        },
    decreases spent.len(),
{
    let (upserted, last) = dir_turns(from, spent);
    if spent.len() == 0 {
        assert(upserted =~= entries(from as int, from as int));
    } else {
        assert(spent[0].len() == total);
        lemma_turn(resumed(from), spent[0]);
        if let Applied::Unfinished { done } = dir_turn(resumed(from), spent[0]).1 {
            let later = spent.drop_first();
            assert forall|i: int| 0 <= i < later.len() implies (#[trigger] later[i]).len()
                == total by {
                assert(later[i] == spent[i + 1]);
            }
            resuming_repeats_and_skips_nothing(total, done, later);
            let to = match last {
                Applied::Done => total as int,
                Applied::Unfinished { done } => done as int,
            };
            assert(upserted =~= entries(from as int, to));
        }
    }
}

/// What to do with a file's row.
#[derive(Debug, Clone, Copy, PartialEq, Eq, Structural)]
pub enum RowPlan {
    /// The stored modified time is the file's: nothing to do.
    Unchanged,
    /// Update the row with this id.
    Update(i64),
    /// Insert a row. Where another writer's row won, that one is current
    /// enough.
    Insert,
}

/// A file's row against the record prepared for it.
pub open spec fn row_plan(existing: Option<(i64, i64)>, mtime: u64) -> RowPlan {
    match existing {
        Some((id, stored)) => if (if stored < 0 {
            0int
        } else {
            stored as int
        }) == mtime {
            RowPlan::Unchanged
        } else {
            RowPlan::Update(id)
        },
        None => RowPlan::Insert,
    }
}

/// Decide what to do with a file's row, by the id and modified time stored for
/// it.
pub fn upsert_file(existing: Option<(i64, i64)>, record: &OwnedNewFile) -> (r: RowPlan)
    ensures
        r == row_plan(existing, record@.mtime),
{
    match existing {
        Some((id, stored)) => {
            let known: u64 = if stored < 0 {
                0
            } else {
                stored as u64
            };
            if known == record.mtime {
                RowPlan::Unchanged
            } else {
                RowPlan::Update(id)
            }
        },
        None => RowPlan::Insert,
    }
}

/// What to do with a written row's content.
#[derive(Debug, Clone, Copy, PartialEq, Eq, Structural)]
pub enum ContentPlan {
    /// Record that it has none.
    NotApplicable,
    /// Store the text that the record carries.
    StoreInline,
    /// Read the file and store its text.
    Extract,
}

/// Decide what to do with a written row's content. The only size gate on this
/// path: what the record says needs no content is not read.
pub fn content_plan(record: &OwnedNewFile) -> (r: ContentPlan)
    ensures
        r == if !record@.needs_content {
            ContentPlan::NotApplicable
        } else if record@.inline_text is Some {
            ContentPlan::StoreInline
        } else {
            ContentPlan::Extract
        },
{
    if !record.needs_content {
        ContentPlan::NotApplicable
    } else {
        match &record.inline_text {
            Some(_) => ContentPlan::StoreInline,
            None => ContentPlan::Extract,
        }
    }
}

/// One path's removal: the row of the path itself, and the range of everything
/// stored beneath it.
#[derive(Debug)]
pub struct Removal {
    pub path: String,
    pub lo: String,
    pub hi: String,
}

/// The rows to delete for a path that is gone. `key` is the spelling the index
/// stored for it. A path the index cannot spell was never indexed, so there is
/// nothing to delete, and its lossy spelling is another file's key.
pub fn removal(spelled: bool, key: &str, sep: Separator) -> (r: Option<Removal>)
    ensures
        match r {
            Some(x) => spelled && x.path@ == key@ && x.lo@ == trimmed_root(key@).push(
                sep.symbol(),
            ) && x.hi@ == trimmed_root(key@).push(sep.successor()),
            None => !spelled,
        },
{
    if !spelled {
        return None;
    }
    let range = ExtractCursor::for_root(key, sep);
    Some(Removal { path: key.to_owned(), lo: range.lo, hi: range.hi })
}

/// Delete this many paths and everything indexed beneath them, in transactions
/// of at most `chunk` paths.
pub fn remove_paths(paths: usize, chunk: usize) -> (r: BatchWriter)
    ensures
        r.wf(),
        r == (BatchWriter {
            total: paths,
            chunk: if chunk == 0 {
                1
            } else {
                chunk
            },
            at: 0,
            end: 0,
            open: false,
        }),
{
    BatchWriter::new(
        paths,
        if chunk == 0 {
            1
        } else {
            chunk
        },
    )
}

/// The watcher and the walk agree: an entry below a root that the walk would yield
/// is upserted, and one that it would pass by is not.
pub proof fn the_watcher_and_the_walk_agree(
    e: crate::paths::WalkEntry,
    facts: PathFacts,
    include_hidden: bool,
    follow_symlinks: bool,
)
    requires
        e.depth > 0,
        facts.ignored == (e.ignored_name || e.ignored_path),
        facts.hidden == e.hidden,
        facts.link == Some(e.is_symlink),
        facts.dir == Some(e.is_dir),
        facts.spelled,
    ensures
        upsert_plan(facts, include_hidden, follow_symlinks) != UpsertPlan::Nothing
            <==> crate::paths::yielded(e, follow_symlinks, include_hidden),
        upsert_plan(facts, include_hidden, follow_symlinks) == UpsertPlan::Walk ==> e.is_dir,
        upsert_plan(facts, include_hidden, follow_symlinks) == UpsertPlan::File ==> !e.is_dir,
{
}

/// What is gone, what an ignore pattern matches and what may not be followed is
/// left alone; a file is upserted, and a directory walked where it can be spelled.
pub proof fn only_what_would_be_indexed_is_upserted(
    facts: PathFacts,
    include_hidden: bool,
    follow_symlinks: bool,
)
    ensures
        ({
            let plan = upsert_plan(facts, include_hidden, follow_symlinks);
            &&& facts.dir is None ==> plan == UpsertPlan::Nothing
            &&& facts.ignored ==> plan == UpsertPlan::Nothing
            &&& facts.hidden && !include_hidden ==> plan == UpsertPlan::Nothing
            &&& !follow_symlinks && facts.link != Some(false) ==> plan == UpsertPlan::Nothing
            &&& facts.dir == Some(true) && !facts.spelled ==> plan == UpsertPlan::Nothing
            &&& !facts.ignored && (include_hidden || !facts.hidden) && (follow_symlinks
                || facts.link == Some(false)) ==> {
                &&& facts.dir == Some(false) ==> plan == UpsertPlan::File
                &&& facts.dir == Some(true) && facts.spelled ==> plan == UpsertPlan::Walk
            }
        }),
{
}

/// A row is left alone exactly where the walk would skip its file, updated under
/// its own id where the walk would update it, and inserted where there is none.
pub proof fn a_row_is_judged_as_the_walk_judges_it(id: i64, stored: i64, mtime: u64)
    requires
        stored >= 0,
    ensures
        row_plan(Some((id, stored)), mtime) == RowPlan::Unchanged <==> crate::records::action(
            Some(stored as u64),
            mtime,
        ) == crate::records::FileIndexAction::Skip,
        row_plan(Some((id, stored)), mtime) == RowPlan::Update(id) <==> stored != mtime,
        row_plan(None, mtime) == RowPlan::Insert,
{
}

} // verus!
