//! The full-text index's merge settings, and how long a burst of deletions may
//! spend consolidating.
use vstd::prelude::*;

verus! {

/// The automerge threshold.
pub const WRITE_AUTOMERGE: u8 = 16;

/// The crisis-merge threshold.
pub const WRITE_CRISISMERGE: u8 = 32;

/// Percentage of a level's entries that must be tombstones before the level is
/// rewritten to reclaim them. 0 disables that altogether, so it must never be
/// the resting value of an index.
pub const FTS_DELETEMERGE: u8 = 10;

/// Rounds of merging a burst may spend before it leaves the rest to the next
/// run.
pub const BURST_MERGE_ROUNDS: u32 = 8;

/// Output leaf pages one merge may write.
pub const FINALIZE_MERGE_PAGES: i64 = 1000;

/// What the full-text index is told: a setting that persists, or a merge.
#[derive(Debug, Clone, Copy, PartialEq, Eq, Structural)]
pub enum FtsSetting {
    Automerge(u8),
    Deletemerge(u8),
    Crisismerge(u8),
    /// Not a setting but a command: consolidate, writing at most this many
    /// pages. A negative number would ask for a full rewrite instead.
    Merge(i64),
}

/// The write-side settings, in the order to apply them before a run starts
/// writing. Delete-merging is among them because an index whose burst was
/// killed gets it back here.
pub fn fts_begin_bulk_write() -> (r: [FtsSetting; 3])
    ensures
        r@ == seq![
            FtsSetting::Automerge(WRITE_AUTOMERGE),
            FtsSetting::Deletemerge(FTS_DELETEMERGE),
            FtsSetting::Crisismerge(WRITE_CRISISMERGE),
        ],
{
    let r = [
        FtsSetting::Automerge(WRITE_AUTOMERGE),
        FtsSetting::Deletemerge(FTS_DELETEMERGE),
        FtsSetting::Crisismerge(WRITE_CRISISMERGE),
    ];
    assert(r@ =~= seq![
        FtsSetting::Automerge(WRITE_AUTOMERGE),
        FtsSetting::Deletemerge(FTS_DELETEMERGE),
        FtsSetting::Crisismerge(WRITE_CRISISMERGE),
    ]);
    r
}

/// The consolidation that ends a run: what reclaims the tombstones.
pub fn fts_finalize_after_text_indexing() -> (r: FtsSetting)
    ensures
        r == FtsSetting::Merge(FINALIZE_MERGE_PAGES),
{
    FtsSetting::Merge(FINALIZE_MERGE_PAGES)
}

/// The setting that keeps tombstones from being reclaimed while a pass is
/// creating them. [`fts_end_tombstone_burst`] restores it.
pub fn fts_begin_tombstone_burst() -> (r: FtsSetting)
    ensures
        r == FtsSetting::Deletemerge(0),
{
    FtsSetting::Deletemerge(0)
}

/// Consolidating what a burst left behind: merge until the index stops
/// shrinking, within a number of rounds.
#[derive(Debug, Clone, Copy, PartialEq, Eq, Structural)]
pub struct BurstMerge {
    /// How much the index held before the next merge, where it could be read.
    pub last: Option<i64>,
    pub rounds_left: u32,
}

/// End a burst: the setting to restore first, for a merge reclaims nothing
/// without it, and the merging to run then. `rows` is how much the index holds
/// once the setting is back.
pub fn fts_end_tombstone_burst(rows: Option<i64>) -> (r: (FtsSetting, BurstMerge))
    ensures
        r.0 == FtsSetting::Deletemerge(FTS_DELETEMERGE),
        r.1 == (BurstMerge { last: rows, rounds_left: BURST_MERGE_ROUNDS }),
{
    (
        FtsSetting::Deletemerge(FTS_DELETEMERGE),
        BurstMerge { last: rows, rounds_left: BURST_MERGE_ROUNDS },
    )
}

impl BurstMerge {
    /// Whether to merge once more.
    pub fn wants_merge(&self) -> (r: bool)
        ensures
            r == (self.rounds_left > 0),
    {
        self.rounds_left > 0
    }

    /// A merge was done and left this much. No change, or two readings that
    /// both failed, ends the burst.
    pub fn merged(&mut self, rows: Option<i64>)
        requires
            old(self).rounds_left > 0,
        ensures
            *final(self) == (if rows == old(self).last {
                BurstMerge { last: rows, rounds_left: 0 }
            } else {
                BurstMerge { last: rows, rounds_left: (old(self).rounds_left - 1) as u32 }
            }),
    {
        let same = match (rows, self.last) {
            (Some(a), Some(b)) => a == b,
            (None, None) => true,
            _ => false,
        };
        self.rounds_left = if same {
            0
        } else {
            self.rounds_left - 1
        };
        self.last = rows;
    }
}

/// What is left of a burst's merging after a series of readings.
pub open spec fn after_readings(m: BurstMerge, readings: Seq<Option<i64>>) -> BurstMerge
    decreases readings.len(),
{
    if readings.len() == 0 || m.rounds_left == 0 {
        m
    } else {
        let rows = readings[0];
        after_readings(
            if rows == m.last {
                BurstMerge { last: rows, rounds_left: 0 }
            } else {
                BurstMerge { last: rows, rounds_left: (m.rounds_left - 1) as u32 }
            },
            readings.drop_first(),
        )
    }
}

/// A burst's merging ends, whatever the index reports: after as many readings
/// as there are rounds none is left.
pub proof fn a_burst_ends(m: BurstMerge, readings: Seq<Option<i64>>)
    requires
        readings.len() >= m.rounds_left,
    ensures
        after_readings(m, readings).rounds_left == 0,
    decreases readings.len(),
{
    if readings.len() > 0 && m.rounds_left > 0 {
        let rows = readings[0];
        let n = if rows == m.last {
            BurstMerge { last: rows, rounds_left: 0 }
        } else {
            BurstMerge { last: rows, rounds_left: (m.rounds_left - 1) as u32 }
        };
        a_burst_ends(n, readings.drop_first());
    }
}

/// The resting threshold reclaims tombstones, which a zero would not, and a merge
/// asks for a bounded amount of work, which a negative number would not.
pub proof fn the_resting_settings_reclaim()
    ensures
        0 < FTS_DELETEMERGE <= 100,
        FINALIZE_MERGE_PAGES > 0,
        0 < BURST_MERGE_ROUNDS,
        WRITE_AUTOMERGE < WRITE_CRISISMERGE,
{
}

} // verus!
