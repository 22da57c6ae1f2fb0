//! Batched index writes: in what order the rows of a batch are written, when
//! a transaction opens and commits, where a stop cuts in, and the cursor that
//! bounds one root's rows.
//!
//! The statements themselves run outside this crate. Each writer here is asked
//! for its next step, and the caller performs it.
use crate::config::Config;
use crate::paths::Separator;
use crate::text::{chars_of, joined, push_str, sorts_before, str_view, string_from};
use vstd::prelude::*;

verus! {

/// Keyset cursor bounding everything stored beneath one directory: the
/// half-open range from the directory with its separator to the directory with
/// the separator's successor. It covers the directory's own files because
/// every stored parent ends in a separator.
#[derive(Debug, Clone, PartialEq, Eq)]
pub struct ExtractCursor {
    pub last_id: i64,
    pub lo: String,
    pub hi: String,
}

/// A directory's spelling without the separators at its end, of either kind.
pub open spec fn trimmed_root(root: Seq<char>) -> Seq<char>
    decreases root.len(),
{
    if root.len() > 0 && (root.last() == '/' || root.last() == '\\') {
        trimmed_root(root.drop_last())
    } else {
        root
    }
}

/// Whether a stored parent lies in a cursor's range.
pub open spec fn in_range(lo: Seq<char>, hi: Seq<char>, parent: Seq<char>) -> bool {
    !sorts_before(parent, lo) && sorts_before(parent, hi)
}

impl ExtractCursor {
    /// Cursor covering everything under `root`. The range is bounded by the
    /// platform's separator and its successor: the pair of another platform
    /// would sort past every stored parent. Both separators are trimmed, not
    /// just the platform's: a setting or a watcher event may spell a directory
    /// either way.
    pub fn for_root(root: &str, sep: Separator) -> (r: ExtractCursor)
        ensures
            r.last_id == 0,
            r.lo@ == trimmed_root(root@).push(sep.symbol()),
            r.hi@ == trimmed_root(root@).push(sep.successor()),
    {
        let v = chars_of(root);
        let mut k: usize = v.len();
        assert(v@.take(k as int) =~= v@);
        while k > 0 && (v[k - 1] == '/' || v[k - 1] == '\\')
            invariant
                k <= v@.len(),
                trimmed_root(v@.take(k as int)) == trimmed_root(v@),
            decreases k,
        {
            assert(v@.take(k as int).drop_last() =~= v@.take(k - 1));
            k -= 1;
        }
        let mut lo = string_from(&v, 0, k);
        let mut hi = string_from(&v, 0, k);
        assert(v@.subrange(0, k as int) =~= v@.take(k as int));
        lo.push(sep.symbol());
        hi.push(sep.successor());
        ExtractCursor { last_id: 0, lo, hi }
    }
}

proof fn lemma_range(base: Seq<char>, parent: Seq<char>, sep: Separator)
    ensures
        in_range(base.push(sep.symbol()), base.push(sep.successor()), parent) <==> parent.len()
            > base.len() && parent.take(base.len() as int + 1) == base.push(sep.symbol()),
    decreases base.len(),
{
    let lo = base.push(sep.symbol());
    let hi = base.push(sep.successor());
    reveal_with_fuel(sorts_before, 2);
    if base.len() == 0 {
        if parent.len() > 0 {
            assert(lo.drop_first() =~= seq![]);
            assert(hi.drop_first() =~= seq![]);
            if parent[0] == sep.symbol() {
                assert(parent.take(1) =~= lo);
            } else {
                assert(parent.take(1)[0] != lo[0]);
            }
        }
    } else if parent.len() > 0 {
        assert(lo.drop_first() =~= base.drop_first().push(sep.symbol()));
        assert(hi.drop_first() =~= base.drop_first().push(sep.successor()));
        lemma_range(base.drop_first(), parent.drop_first(), sep);
        if parent.len() > base.len() {
            let t = parent.take(base.len() as int + 1);
            let u = parent.drop_first().take(base.len() as int);
            assert(t.drop_first() =~= u);
            if parent[0] == base[0] && u == lo.drop_first() {
                assert(t =~= seq![parent[0]] + u);
                assert(lo =~= seq![base[0]] + lo.drop_first());
            }
        }
    }
}

/// A root's range holds exactly the directories whose stored spelling starts
/// with the root and a separator: the root itself and all beneath it, and none
/// of its siblings.
pub proof fn a_cursor_covers_exactly_its_root(root: Seq<char>, parent: Seq<char>, sep: Separator)
    ensures
        ({
            let base = trimmed_root(root);
            in_range(base.push(sep.symbol()), base.push(sep.successor()), parent) <==> parent.len()
                > base.len() && parent.take(base.len() as int + 1) == base.push(sep.symbol())
        }),
{
    lemma_range(trimmed_root(root), parent, sep);
}

/// What a root's extraction scope holds. Both halves count only files an
/// extractor claims, so their sum is a denominator for the work, not for every
/// file under the root.
#[derive(Debug, Clone, Copy, PartialEq, Eq, Structural)]
pub struct ExtractScope {
    pub pending: usize,
    pub already_done: usize,
}

/// A counted sum, none below zero.
pub open spec fn counted(sum: i64) -> usize {
    if sum < 0 {
        0
    } else {
        sum as usize
    }
}

fn count_of(sum: i64) -> (r: usize)
    ensures
        r == counted(sum),
{
    if sum < 0 {
        0
    } else {
        #[verifier::truncate]
        (sum as usize)
    }
}

/// The scope that two counted sums make.
pub fn count_extract_scope(pending: i64, already_done: i64) -> (r: ExtractScope)
    ensures
        r.pending == counted(pending),
        r.already_done == counted(already_done),
{
    ExtractScope { pending: count_of(pending), already_done: count_of(already_done) }
}

/// The largest file whose text is indexed, as the index compares sizes.
pub fn max_text_file_size(config: &Config) -> (r: i64)
    ensures
        r == if config.processing.maximum_text_file_size <= i64::MAX {
            config.processing.maximum_text_file_size as int
        } else {
            i64::MAX as int
        },
{
    if config.processing.maximum_text_file_size <= i64::MAX as u64 {
        config.processing.maximum_text_file_size as i64
    } else {
        i64::MAX
    }
}

/// Whether a row's text gets a compressed sidecar.
pub fn wants_body(text: Option<&str>, config: &Config) -> (r: bool)
    ensures
        r == (config.processing.store_text_for_snippets && match str_view(text) {
            Some(t) => t.len() > 0,
            None => false,
        }),
{
    match text {
        Some(t) => {
            let v = chars_of(t);
            config.processing.store_text_for_snippets && v.len() > 0
        },
        None => false,
    }
}

/// Where one row's blob is.
#[derive(Debug)]
enum Slot {
    At { from: usize, to: usize },
    Empty,
    Failed(String),
}

/// One writer's compressed sidecars: a batch's blobs end to end in one arena,
/// with a slot per row saying where its blob is, or that it has none, or that
/// its compression failed. Reused across chunks.
#[derive(Debug)]
pub struct Bodies {
    arena: Vec<u8>,
    slots: Vec<Slot>,
}

/// One row's blob, or that it has none, or why compressing it failed.
pub type BodyView = Result<Option<Seq<u8>>, Seq<char>>;

impl Bodies {
    spec fn slot_view(&self, i: int) -> BodyView {
        match self.slots@[i] {
            Slot::At { from, to } => Ok(Some(self.arena@.subrange(from as int, to as int))),
            Slot::Empty => Ok(None),
            Slot::Failed(e) => Err(e@),
        }
    }

    /// Every slot lies within the arena.
    pub closed spec fn wf(&self) -> bool {
        forall|i: int|
            0 <= i < self.slots@.len() ==> match #[trigger] self.slots@[i] {
                Slot::At { from, to } => from <= to <= self.arena@.len(),
                _ => true,
            }
    }

    pub fn new() -> (r: Bodies)
        ensures
            r.wf(),
            r@ == Seq::<BodyView>::empty(),
    {
        let r = Bodies { arena: Vec::new(), slots: Vec::new() };
        assert(r@ =~= Seq::<BodyView>::empty());
        r
    }

    /// Forget the last chunk's blobs.
    pub fn clear(&mut self)
        ensures
            final(self).wf(),
            final(self)@ == Seq::<BodyView>::empty(),
    {
        self.arena.clear();
        self.slots.clear();
        assert(self@ =~= Seq::<BodyView>::empty());
    }

    /// Add the next row's blob: what its compression gave, or nothing where
    /// the row keeps none.
    pub fn push(&mut self, body: Option<Result<Vec<u8>, String>>)
        requires
            old(self).wf(),
        ensures
            final(self).wf(),
            final(self)@ == old(self)@.push(
                match body {
                    Some(Ok(b)) => Ok(Some(b@)),
                    Some(Err(e)) => Err(e@),
                    None => Ok(None),
                },
            ),
    {
        let ghost before = *self;
        match body {
            Some(Ok(b)) => {
                let from: usize = self.arena.len();
                let mut blob = b;
                let ghost all = blob@;
                self.arena.append(&mut blob);
                let to: usize = self.arena.len();
                self.slots.push(Slot::At { from, to });
                assert(self.arena@ == before.arena@ + all);
                assert(self.arena@.subrange(from as int, to as int) =~= all);
            },
            Some(Err(e)) => {
                self.slots.push(Slot::Failed(e));
            },
            None => {
                self.slots.push(Slot::Empty);
            },
        }
        proof {
            let n = before.slots@.len() as int;
            assert forall|i: int| 0 <= i < n implies self.slot_view(i) == before.slot_view(i)
                && match #[trigger] self.slots@[i] {
                Slot::At { from, to } => from <= to <= self.arena@.len(),
                _ => true,
            } by {
                assert(self.slots@[i] == before.slots@[i]);
                match before.slots@[i] {
                    Slot::At { from, to } => {
                        assert(self.arena@.subrange(from as int, to as int)
                            =~= before.arena@.subrange(from as int, to as int));
                    },
                    _ => {},
                }
            }
            assert(self@ =~= before@.push(
                match body {
                    Some(Ok(b)) => Ok(Some(b@)),
                    Some(Err(e)) => Err(e@),
                    None => Ok(None),
                },
            ));
        }
    }

    /// Row `i`'s blob, or why there is none.
    pub fn get(&self, i: usize) -> (r: Result<Option<&[u8]>, &str>)
        requires
            self.wf(),
            i < self@.len(),
        ensures
            match (r, self@[i as int]) {
                (Ok(Some(b)), Ok(Some(v))) => b@ == v,
                (Ok(None), Ok(None)) => true,
                (Err(e), Err(v)) => e@ == v,
                _ => false,
            },
    {
        match &self.slots[i] {
            Slot::At { from, to } => {
                let a: usize = *from;
                let b: usize = *to;
                Ok(Some(&self.arena.as_slice()[a..b]))
            },
            Slot::Empty => Ok(None),
            Slot::Failed(e) => Err(e.as_str()),
        }
    }
}

impl View for Bodies {
    type V = Seq<BodyView>;

    closed spec fn view(&self) -> Seq<BodyView> {
        Seq::new(self.slots@.len(), |i: int| self.slot_view(i))
    }
}

/// What a batch writer asks for next.
#[derive(Debug, Clone, Copy, PartialEq, Eq, Structural)]
pub enum BatchStep {
    /// Compress the bodies of these rows, then begin a transaction.
    Open { from: usize, to: usize },
    /// Write this row.
    Row(usize),
    /// Commit the transaction.
    Commit,
    /// Drop the transaction uncommitted.
    Abandon,
    Finished,
}

/// Writing already-prepared records chunk by chunk, each chunk in one
/// transaction. A stop between chunks ends it; one inside a chunk drops that
/// chunk's transaction.
#[derive(Debug, Clone, Copy, PartialEq, Eq, Structural)]
pub struct BatchWriter {
    pub total: usize,
    pub chunk: usize,
    /// The next row.
    pub at: usize,
    /// Where the current chunk ends.
    pub end: usize,
    /// Whether a transaction is open.
    pub open: bool,
}

/// Where the chunk that starts at a row ends.
pub open spec fn chunk_end(at: usize, chunk: usize, total: usize) -> usize {
    if total - at <= chunk {
        total
    } else {
        (at + chunk) as usize
    }
}

fn chunk_end_of(at: usize, chunk: usize, total: usize) -> (r: usize)
    requires
        at <= total,
    ensures
        r == chunk_end(at, chunk, total),
{
    if total - at <= chunk {
        total
    } else {
        at + chunk
    }
}

/// A batch writer's next state and step.
pub open spec fn batch_next(s: BatchWriter, stop: bool) -> (BatchWriter, BatchStep) {
    if s.open {
        if s.at == s.end {
            (BatchWriter { open: false, ..s }, BatchStep::Commit)
        } else if stop {
            (
                BatchWriter { at: s.total, end: s.total, open: false, ..s },
                BatchStep::Abandon,
            )
        } else {
            (BatchWriter { at: (s.at + 1) as usize, ..s }, BatchStep::Row(s.at))
        }
    } else if s.at == s.total || stop {
        (s, BatchStep::Finished)
    } else {
        let end = chunk_end(s.at, s.chunk, s.total);
        (BatchWriter { end, open: true, ..s }, BatchStep::Open { from: s.at, to: end })
    }
}

impl BatchWriter {
    /// A chunk is never empty, and lies within the batch.
    pub open spec fn wf(self) -> bool {
        &&& self.chunk >= 1
        &&& self.at <= self.end <= self.total
        &&& !self.open ==> self.at == self.end
    }

    pub fn new(total: usize, chunk: usize) -> (r: BatchWriter)
        requires
            chunk >= 1,
        ensures
            r.wf(),
            r == (BatchWriter { total, chunk, at: 0, end: 0, open: false }),
    {
        BatchWriter { total, chunk, at: 0, end: 0, open: false }
    }

    /// The next step, with the stop flag as it stands now.
    pub fn next(&mut self, stop: bool) -> (r: BatchStep)
        requires
            old(self).wf(),
        ensures
            final(self).wf(),
            (*final(self), r) == batch_next(*old(self), stop),
    {
        if self.open {
            if self.at == self.end {
                self.open = false;
                BatchStep::Commit
            } else if stop {
                self.at = self.total;
                self.end = self.total;
                self.open = false;
                BatchStep::Abandon
            } else {
                let row: usize = self.at;
                self.at = self.at + 1;
                BatchStep::Row(row)
            }
        } else if self.at == self.total || stop {
            BatchStep::Finished
        } else {
            self.end = chunk_end_of(self.at, self.chunk, self.total);
            self.open = true;
            BatchStep::Open { from: self.at, to: self.end }
        }
    }
}

/// The rows a batch writer has yet to write, where nothing stops it.
pub open spec fn rows_to_come(s: BatchWriter) -> Seq<usize>
    decreases
            s.total - s.at,
            (if s.open && s.at == s.end {
                2int
            } else if !s.open {
                1
            } else {
                0
            }),
    when s.wf()
{
    let next = batch_next(s, false);
    match next.1 {
        BatchStep::Row(i) => seq![i] + rows_to_come(next.0),
        BatchStep::Finished => seq![],
        _ => rows_to_come(next.0),
    }
}

/// A batch that nothing stops writes every row once, in order.
pub proof fn a_batch_writes_every_row_once(s: BatchWriter)
    requires
        s.wf(),
    ensures
        rows_to_come(s) == Seq::new((s.total - s.at) as nat, |i: int| (s.at + i) as usize),
    decreases
            s.total - s.at,
            (if s.open && s.at == s.end {
                2int
            } else if !s.open {
                1
            } else {
                0
            }),
{
    let next = batch_next(s, false);
    if next.1 != BatchStep::Finished {
        a_batch_writes_every_row_once(next.0);
    }
    assert(rows_to_come(s) =~= Seq::new((s.total - s.at) as nat, |i: int| (s.at + i) as usize));
}

/// What is left to do for a row once its record is written.
#[derive(Debug, Clone, Copy, PartialEq, Eq, Structural)]
pub enum RowContent {
    /// The row carries no text, or was not written.
    Nothing,
    /// Store its text under this id.
    Store(i64),
    /// Its text could not be compressed: it stays pending.
    Skip,
}

/// Whether to store the text a record carries, by the id its row was given and
/// whether its compression went well.
pub fn row_content(id: Option<i64>, has_text: bool, compressed: bool) -> (r: RowContent)
    ensures
        r == (match id {
            Some(i) if has_text => if compressed {
                RowContent::Store(i)
            } else {
                RowContent::Skip
            },
            _ => RowContent::Nothing,
        }),
{
    match id {
        Some(i) => {
            if !has_text {
                RowContent::Nothing
            } else if compressed {
                RowContent::Store(i)
            } else {
                RowContent::Skip
            }
        },
        None => RowContent::Nothing,
    }
}

/// The warning for a row whose text could not be compressed.
pub fn compress_warning(path: &str, error: &str) -> (r: String)
    ensures
        r@ == "compress text for "@ + path@ + ": "@ + error@,
{
    let mut line = joined("compress text for ", path);
    push_str(&mut line, ": ");
    push_str(&mut line, error);
    line
}

/// The warning for an update that matched no row. Dropping the update would
/// leave the modified time stale and the file re-hashed on every run, so it is
/// inserted instead.
pub fn update_warning(path: &str, updated: Option<i64>) -> (r: Option<String>)
    ensures
        match (r, updated) {
            (None, Some(_)) => true,
            (Some(w), None) => w@ == "no indexed row matched "@ + path@
                + " during update; inserting instead"@,
            _ => false,
        },
{
    match updated {
        Some(_) => None,
        None => {
            let mut line = joined("no indexed row matched ", path);
            push_str(&mut line, " during update; inserting instead");
            Some(line)
        },
    }
}

/// Write already-prepared records for files whose content changed.
pub fn process_batch_updates(records: usize, config: &Config) -> (r: BatchWriter)
    ensures
        r.wf(),
        r == (BatchWriter {
            total: records,
            chunk: if config.processing.fts_update_batch_size == 0 {
                1
            } else {
                config.processing.fts_update_batch_size
            },
            at: 0,
            end: 0,
            open: false,
        }),
{
    BatchWriter::new(
        records,
        if config.processing.fts_update_batch_size == 0 {
            1
        } else {
            config.processing.fts_update_batch_size
        },
    )
}

/// Write already-prepared records for newly discovered files.
pub fn process_batch_inserts(records: usize, config: &Config) -> (r: BatchWriter)
    ensures
        r.wf(),
        r == (BatchWriter {
            total: records,
            chunk: if config.processing.batch_size == 0 {
                1
            } else {
                config.processing.batch_size
            },
            at: 0,
            end: 0,
            open: false,
        }),
{
    BatchWriter::new(
        records,
        if config.processing.batch_size == 0 {
            1
        } else {
            config.processing.batch_size
        },
    )
}

/// What a stale-row cleanup asks for next.
#[derive(Debug, Clone, Copy, PartialEq, Eq, Structural)]
pub enum CleanupStep {
    /// Begin a transaction.
    Open,
    /// Delete the row of this path, and answer with [`StaleCleanup::deleted`].
    Delete(usize),
    Commit,
    /// Merge the full-text segments, reclaiming what was deleted.
    Merge,
    /// Done, with how many rows went.
    Finished(usize),
}

/// Deleting the rows a completed run found no file behind. A chunk either
/// commits whole or is not begun, so a stop cannot leave the index
/// half-reconciled.
#[derive(Debug, Clone, Copy, PartialEq, Eq, Structural)]
pub struct StaleCleanup {
    pub total: usize,
    pub chunk: usize,
    pub at: usize,
    pub end: usize,
    pub open: bool,
    /// Rows that went.
    pub gone: usize,
    pub merged: bool,
}

/// A cleanup's next state and step. Inside a chunk the stop flag is not asked.
pub open spec fn cleanup_next(s: StaleCleanup, stop: bool) -> (StaleCleanup, CleanupStep) {
    if s.open {
        if s.at == s.end {
            (StaleCleanup { open: false, ..s }, CleanupStep::Commit)
        } else {
            (StaleCleanup { at: (s.at + 1) as usize, ..s }, CleanupStep::Delete(s.at))
        }
    } else if stop {
        (s, CleanupStep::Finished(s.gone))
    } else if s.at < s.total {
        (
            StaleCleanup { end: chunk_end(s.at, s.chunk, s.total), open: true, ..s },
            CleanupStep::Open,
        )
    } else if s.gone > 0 && !s.merged {
        (StaleCleanup { merged: true, ..s }, CleanupStep::Merge)
    } else {
        (s, CleanupStep::Finished(s.gone))
    }
}

impl StaleCleanup {
    /// A chunk is never empty and lies within the paths, and no more rows went
    /// than paths were tried.
    pub open spec fn wf(self) -> bool {
        &&& self.chunk >= 1
        &&& self.at <= self.end <= self.total
        &&& !self.open ==> self.at == self.end
        &&& self.gone <= self.at
    }

    /// The next step, with the stop flag as it stands now.
    pub fn next(&mut self, stop: bool) -> (r: CleanupStep)
        requires
            old(self).wf(),
        ensures
            final(self).wf(),
            (*final(self), r) == cleanup_next(*old(self), stop),
    {
        if self.open {
            if self.at == self.end {
                self.open = false;
                CleanupStep::Commit
            } else {
                let row: usize = self.at;
                self.at = self.at + 1;
                CleanupStep::Delete(row)
            }
        } else if stop {
            CleanupStep::Finished(self.gone)
        } else if self.at < self.total {
            self.end = chunk_end_of(self.at, self.chunk, self.total);
            self.open = true;
            CleanupStep::Open
        } else if self.gone > 0 && !self.merged {
            self.merged = true;
            CleanupStep::Merge
        } else {
            CleanupStep::Finished(self.gone)
        }
    }

    /// Whether the last path asked about had a row, which is gone now.
    pub fn deleted(&mut self, found: bool)
        requires
            old(self).wf(),
            old(self).gone < old(self).at,
        ensures
            final(self).wf(),
            *final(self) == (StaleCleanup {
                gone: if found {
                    (old(self).gone + 1) as usize
                } else {
                    old(self).gone
                },
                ..*old(self)
            }),
    {
        if found {
            self.gone = self.gone + 1;
        }
    }
}

/// Delete the rows of this many stale paths.
pub fn cleanup_stale_index_entries(paths: usize, config: &Config) -> (r: StaleCleanup)
    ensures
        r.wf(),
        r == (StaleCleanup {
            total: paths,
            chunk: if config.processing.batch_size == 0 {
                1
            } else {
                config.processing.batch_size
            },
            at: 0,
            end: 0,
            open: false,
            gone: 0,
            merged: false,
        }),
{
    StaleCleanup {
        total: paths,
        chunk: if config.processing.batch_size == 0 {
            1
        } else {
            config.processing.batch_size
        },
        at: 0,
        end: 0,
        open: false,
        gone: 0,
        merged: false,
    }
}

/// A cleanup's state once the step it asked for is done; `found` says whether
/// the path of a deletion had a row.
pub open spec fn cleanup_done(s: StaleCleanup, step: CleanupStep, found: bool) -> StaleCleanup {
    if step is Delete && found {
        StaleCleanup { gone: (s.gone + 1) as usize, ..s }
    } else {
        s
    }
}

/// The steps a cleanup asks for, one for each reading of the stop flag; `found`
/// says what the deletions among them met.
pub open spec fn cleanup_steps(s: StaleCleanup, stops: Seq<bool>, found: Seq<bool>) -> Seq<
    CleanupStep,
>
    decreases stops.len(),
{
    if stops.len() == 0 {
        seq![]
    } else {
        let (t, step) = cleanup_next(s, stops[0]);
        seq![step] + cleanup_steps(cleanup_done(t, step, found[0]), stops.skip(1), found.skip(1))
    }
}

/// A chunk that was begun commits whole: whenever the stop flag goes up, and
/// whatever the deletions meet, every row left of it is deleted and then it is
/// committed.
pub proof fn a_chunk_commits_whole(s: StaleCleanup, stops: Seq<bool>, found: Seq<bool>)
    requires
        s.wf(),
        s.open,
        stops.len() == s.end - s.at + 1,
        found.len() == stops.len(),
    ensures
        cleanup_steps(s, stops, found) == Seq::new(
            (s.end - s.at) as nat,
            |i: int| CleanupStep::Delete((s.at + i) as usize),
        ).push(CleanupStep::Commit),
    decreases stops.len(),
{
    let goal = Seq::new(
        (s.end - s.at) as nat,
        |i: int| CleanupStep::Delete((s.at + i) as usize),
    ).push(CleanupStep::Commit);
    let (t, step) = cleanup_next(s, stops[0]);
    let after = cleanup_done(t, step, found[0]);
    if s.at == s.end {
        assert(cleanup_steps(after, stops.skip(1), found.skip(1)) =~= seq![]);
        assert(cleanup_steps(s, stops, found) =~= goal);
    } else {
        a_chunk_commits_whole(after, stops.skip(1), found.skip(1));
        assert(cleanup_steps(s, stops, found) =~= goal);
    }
}

/// Once the stop flag is up no chunk is begun: between two chunks the cleanup
/// is over, with the rows that went.
pub proof fn a_stop_begins_no_chunk(s: StaleCleanup)
    requires
        s.wf(),
        !s.open,
    ensures
        cleanup_next(s, true) == (s, CleanupStep::Finished(s.gone)),
{
}

/// Rows per compression chunk and per transaction inside a store turn: half of
/// what a turn may hand in, so a full turn commits twice.
pub const STORE_CHUNK: usize = 32;

/// What one store turn did with the rows it was handed.
#[derive(Debug, Clone, Copy, PartialEq, Eq, Structural)]
pub struct Stored {
    /// Rows the caller must now drop from its buffer, written or not.
    pub consumed: usize,
    /// Rows whose write succeeded.
    pub written: usize,
}

impl Default for Stored {
    fn default() -> (r: Self)
        ensures
            r == (Stored { consumed: 0, written: 0 }),
    {
        Stored { consumed: 0, written: 0 }
    }
}

/// What a store turn asks for next.
#[derive(Debug, Clone, Copy, PartialEq, Eq, Structural)]
pub enum StoreStep {
    /// Compress the bodies of these rows, then begin a transaction.
    Open { from: usize, to: usize },
    /// Write this row, and answer with [`StoreTurn::written`] where that went
    /// well.
    Row(usize),
    Commit,
    Finished(Stored),
}

/// Writing already-extracted rows until a deadline. A turn overruns the
/// deadline by at most one row; a row whose write fails is consumed all the
/// same, and stays pending for the next run.
#[derive(Debug, Clone, Copy, PartialEq, Eq, Structural)]
pub struct StoreTurn {
    pub total: usize,
    pub end: usize,
    pub open: bool,
    /// Whether the open transaction has seen a row yet.
    pub begun: bool,
    /// Whether the turn was cut short.
    pub cut: bool,
    pub done: Stored,
}

/// A store turn's next state and step. `stop` is the stop flag, `late` whether
/// the deadline has passed.
pub open spec fn store_next(s: StoreTurn, stop: bool, late: bool) -> (StoreTurn, StoreStep) {
    if s.open {
        if s.begun && (stop || late) {
            (StoreTurn { open: false, cut: true, ..s }, StoreStep::Commit)
        } else if s.done.consumed == s.end {
            (StoreTurn { open: false, ..s }, StoreStep::Commit)
        } else {
            (
                StoreTurn {
                    begun: true,
                    done: Stored { consumed: (s.done.consumed + 1) as usize, ..s.done },
                    ..s
                },
                StoreStep::Row(s.done.consumed),
            )
        }
    } else if s.cut || stop || s.done.consumed == s.total {
        (s, StoreStep::Finished(s.done))
    } else {
        let end = chunk_end(s.done.consumed, STORE_CHUNK, s.total);
        (
            StoreTurn { end, open: true, begun: false, ..s },
            StoreStep::Open { from: s.done.consumed, to: end },
        )
    }
}

impl StoreTurn {
    /// No more rows were consumed than handed in, nor written than consumed.
    pub open spec fn wf(self) -> bool {
        &&& self.done.written <= self.done.consumed <= self.total
        &&& self.open ==> self.done.consumed <= self.end <= self.total
        &&& self.open && !self.begun ==> self.done.consumed < self.end
    }

    /// The next step. `stop` is the stop flag, `late` whether the deadline has
    /// passed.
    pub fn next(&mut self, stop: bool, late: bool) -> (r: StoreStep)
        requires
            old(self).wf(),
        ensures
            final(self).wf(),
            (*final(self), r) == store_next(*old(self), stop, late),
    {
        if self.open {
            if self.begun && (stop || late) {
                self.open = false;
                self.cut = true;
                StoreStep::Commit
            } else if self.done.consumed == self.end {
                self.open = false;
                StoreStep::Commit
            } else {
                let row: usize = self.done.consumed;
                self.begun = true;
                // Counted before anything can skip it: a failed row still
                // leaves.
                self.done.consumed = row + 1;
                StoreStep::Row(row)
            }
        } else if self.cut || stop || self.done.consumed == self.total {
            StoreStep::Finished(self.done)
        } else {
            self.end = chunk_end_of(self.done.consumed, STORE_CHUNK, self.total);
            self.open = true;
            self.begun = false;
            StoreStep::Open { from: self.done.consumed, to: self.end }
        }
    }

    /// The last row asked for was written.
    pub fn written(&mut self)
        requires
            old(self).wf(),
            old(self).done.written < old(self).done.consumed,
        ensures
            final(self).wf(),
            *final(self) == (StoreTurn {
                done: Stored {
                    written: (old(self).done.written + 1) as usize,
                    ..old(self).done
                },
                ..*old(self)
            }),
    {
        self.done.written = self.done.written + 1;
    }
}

/// Store this many extracted rows.
pub fn store_extracted(rows: usize) -> (r: StoreTurn)
    ensures
        r.wf(),
        r == (StoreTurn {
            total: rows,
            end: 0,
            open: false,
            begun: false,
            cut: false,
            done: Stored { consumed: 0, written: 0 },
        }),
{
    StoreTurn { total: rows, end: 0, open: false, begun: false, cut: false, done: Stored::default() }
}

/// A turn that is not stopped at its start consumes a row, however late it is:
/// its first step opens a transaction and its second writes the first row. So
/// a caller looping on turns cannot spin.
pub proof fn a_turn_consumes_at_least_one_row(s: StoreTurn, stop: bool, late: bool, late_then: bool)
    requires
        s.wf(),
        !s.open,
        !s.cut,
        s.done.consumed < s.total,
    ensures
        ({
            let first = store_next(s, false, late);
            let second = store_next(first.0, stop, late_then);
            &&& first.1 is Open
            &&& second.1 == StoreStep::Row(s.done.consumed)
            &&& second.0.done.consumed == s.done.consumed + 1
        }),
{
}

/// Past the deadline a turn writes no further row: the step after a row
/// commits, and the one after that ends the turn.
pub proof fn a_late_turn_ends(s: StoreTurn, stop: bool, later: bool)
    requires
        s.wf(),
        s.open,
        s.begun,
    ensures
        ({
            let first = store_next(s, stop, true);
            let second = store_next(first.0, stop, later);
            &&& first.1 == StoreStep::Commit
            &&& second.1 == StoreStep::Finished(s.done)
        }),
{
}

/// One bounded batch of content extraction within a cursor's range.
#[derive(Debug)]
pub struct ExtractBatch {
    /// The ids of the pending rows, in order.
    pub ids: Vec<i64>,
    pub at: usize,
}

/// Begin a batch over the rows found pending. An aborting run takes none.
pub fn extract_one_batch(abort: bool, ids: Vec<i64>) -> (r: ExtractBatch)
    ensures
        r.at == 0,
        r.ids@ == if abort {
            seq![]
        } else {
            ids@
        },
{
    let ids = if abort {
        Vec::new()
    } else {
        ids
    };
    ExtractBatch { ids, at: 0 }
}

impl ExtractBatch {
    /// The next row to extract and store, or nothing where the batch is done:
    /// commit then. The cursor advances only past what is processed, so a stop
    /// mid-batch never skips rows.
    pub fn next(&mut self, stop: bool, cursor: &mut ExtractCursor) -> (r: Option<usize>)
        requires
            old(self).at <= old(self).ids@.len(),
        ensures
            final(self).at <= final(self).ids@.len(),
            final(self).ids@ == old(self).ids@,
            final(cursor).lo@ == old(cursor).lo@,
            final(cursor).hi@ == old(cursor).hi@,
            if stop || old(self).at == old(self).ids@.len() {
                &&& r is None
                &&& final(self).at == old(self).at
                &&& final(cursor).last_id == old(cursor).last_id
            } else {
                &&& r == Some(old(self).at)
                &&& final(self).at == old(self).at + 1
                &&& final(cursor).last_id == old(self).ids@[old(self).at as int]
            },
    {
        if stop || self.at == self.ids.len() {
            None
        } else {
            let row: usize = self.at;
            cursor.last_id = self.ids[row];
            self.at = row + 1;
            Some(row)
        }
    }

    /// How many rows were processed.
    pub fn processed(&self) -> (r: usize)
        ensures
            r == self.at,
    {
        self.at
    }
}

/// A root is trimmed of the separators at its end, of either kind, and of nothing
/// else: however many it is spelled with, its range is the same.
pub proof fn trailing_separators_do_not_matter(root: Seq<char>)
    ensures
        trimmed_root(root.push('/')) == trimmed_root(root),
        trimmed_root(root.push('\\')) == trimmed_root(root),
        root.len() > 0 && root.last() != '/' && root.last() != '\\' ==> trimmed_root(root) == root,
        trimmed_root(root).len() > 0 ==> trimmed_root(root).last() != '/' && trimmed_root(
            root,
        ).last() != '\\',
        trimmed_root(root).is_prefix_of(root),
    decreases root.len(),
{
    assert(root.push('/').drop_last() =~= root);
    assert(root.push('\\').drop_last() =~= root);
    assert(root =~= root.subrange(0, root.len() as int));
    if root.len() > 0 && (root.last() == '/' || root.last() == '\\') {
        trailing_separators_do_not_matter(root.drop_last());
        let t = trimmed_root(root);
        assert(t =~= root.drop_last().subrange(0, t.len() as int));
        assert(t =~= root.subrange(0, t.len() as int));
    }
}

/// A counted sum is itself, and none is below zero.
pub proof fn a_count_is_never_negative(sum: i64)
    ensures
        0 <= sum <= usize::MAX ==> counted(sum) == sum,
        sum < 0 ==> counted(sum) == 0,
{
}

/// Every transaction of a batch holds one chunk: it is begun over the next rows,
/// as many as a chunk has or as are left, its rows are written one by one in order,
/// and it is committed exactly when all of them were. A stop drops the one that is
/// open, and begins none.
pub proof fn a_transaction_holds_one_chunk(s: BatchWriter, stop: bool)
    requires
        s.wf(),
    ensures
        ({
            let (t, step) = batch_next(s, stop);
            &&& step matches BatchStep::Open { from, to } ==> {
                &&& !s.open
                &&& !stop
                &&& from == s.at
                &&& from < to <= s.total
                &&& to - from <= s.chunk
                &&& to == s.total || to - from == s.chunk
                &&& t.open
                &&& t.at == from
                &&& t.end == to
            }
            &&& step matches BatchStep::Row(i) ==> s.open && !stop && i == s.at && i < s.end && t.at
                == i + 1 && t.open
            &&& step is Commit <==> s.open && s.at == s.end
            &&& step is Abandon <==> s.open && s.at < s.end && stop
            &&& step is Abandon ==> batch_next(t, stop).1 is Finished && !t.open
            &&& step is Finished <==> !s.open && (stop || s.at == s.total)
        }),
{
}

/// A cleanup begins its chunks over the next paths, tries them one by one in order
/// and ends, where nothing stops it, only once every path was tried and, if any row
/// went, the segments were merged. It says how many rows went.
pub proof fn a_cleanup_tries_every_path(s: StaleCleanup, stop: bool)
    requires
        s.wf(),
    ensures
        ({
            let (t, step) = cleanup_next(s, stop);
            &&& step is Open ==> !s.open && !stop && t.open && s.at < t.end <= s.total && t.end
                - s.at <= s.chunk && (t.end == s.total || t.end - s.at == s.chunk)
            &&& step matches CleanupStep::Delete(i) ==> s.open && i == s.at && t.at == i + 1
            &&& step is Commit <==> s.open && s.at == s.end
            &&& step is Merge <==> !s.open && !stop && s.at == s.total && s.gone > 0 && !s.merged
            &&& step matches CleanupStep::Finished(n) ==> n == s.gone && (stop || (s.at == s.total
                && (s.gone == 0 || s.merged)))
            &&& t.gone == s.gone
            &&& t.total == s.total
        }),
{
}

/// A store turn hands its rows to be written one by one in order, in transactions
/// of at most 32, and each row it hands over is consumed. It is cut short only by a
/// stop or by the deadline; otherwise it ends once every row was consumed.
pub proof fn a_turn_in_time_consumes_every_row(s: StoreTurn, stop: bool, late: bool)
    requires
        s.wf(),
    ensures
        ({
            let (t, step) = store_next(s, stop, late);
            &&& step matches StoreStep::Open { from, to } ==> !s.open && !stop && from
                == s.done.consumed && from < to <= s.total && to - from <= 32 && (to == s.total
                || to - from == 32)
            &&& step matches StoreStep::Row(i) ==> s.open && i == s.done.consumed && i < s.end
                && t.done.consumed == i + 1 && (!s.begun || !(stop || late))
            &&& step matches StoreStep::Finished(d) ==> d == s.done && (s.cut || stop
                || s.done.consumed == s.total)
            &&& t.cut && !s.cut ==> stop || late
            &&& step is Commit ==> s.open && (s.done.consumed == s.end || stop || late)
            &&& t.done.written == s.done.written
            &&& t.total == s.total
        }),
{
}

} // verus!
