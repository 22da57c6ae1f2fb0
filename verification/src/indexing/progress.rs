//! Progress reporting for a run: per-root and overall counters, and the
//! reconcile prologue's own meter.
use crate::text::maybe;
use vstd::prelude::*;

verus! {

/// Where one root's pipeline is in its life cycle.
#[derive(Debug, Clone, Copy, PartialEq, Eq, Structural)]
pub enum RootPhase {
    /// The walk is discovering and writing file metadata.
    Walking,
    /// The walk finished; content extraction is draining this root's pending
    /// rows.
    Extracting,
    Done,
}

/// Index upkeep the writer stops file work to do.
#[derive(Debug, Clone, Copy, PartialEq, Eq, Structural)]
pub enum MaintenanceStep {
    /// Folding the write-ahead log back into the index file.
    Checkpoint,
    /// Deleting the rows of files that are no longer on disk.
    RemovingStale,
    /// Merging the full-text index's segments.
    MergingText,
    /// Re-reading each root's stored totals.
    RootCounts,
    /// Marking files above the size limit as having no text.
    SizeLimit,
}

/// Progress for one indexing root.
#[derive(Debug, Clone)]
pub struct RootProgress {
    pub root: String,
    pub phase: RootPhase,
    /// Files the walk has seen so far; final and exact once the walk ends.
    pub walked: usize,
    /// What to divide `walked` by; `None` until one lands.
    pub walk_total: Option<usize>,
    /// Rows with searchable text, including earlier runs' once `extract_total`
    /// is known.
    pub extracted: usize,
    /// The count of files that have or will have text, not of files under the
    /// root. `None` until the content pass has counted its range.
    pub extract_total: Option<usize>,
    /// A file the root has recently reached, as a whole path in every phase.
    pub current_file: Option<String>,
    /// Threads busy and pool size for the current phase's pool; both zero once
    /// done.
    pub active_workers: usize,
    pub total_workers: usize,
}

/// A [`RootProgress`] by its contents.
pub struct RootView {
    pub root: Seq<char>,
    pub phase: RootPhase,
    pub walked: usize,
    pub walk_total: Option<usize>,
    pub extracted: usize,
    pub extract_total: Option<usize>,
    pub current_file: Option<Seq<char>>,
    pub active_workers: usize,
    pub total_workers: usize,
}

impl View for RootProgress {
    type V = RootView;

    open spec fn view(&self) -> RootView {
        RootView {
            root: self.root@,
            phase: self.phase,
            walked: self.walked,
            walk_total: self.walk_total,
            extracted: self.extracted,
            extract_total: self.extract_total,
            current_file: maybe(self.current_file),
            active_workers: self.active_workers,
            total_workers: self.total_workers,
        }
    }
}

/// Each root's progress by its contents.
pub open spec fn roots_view(roots: Seq<RootProgress>) -> Seq<RootView> {
    roots.map_values(|r: RootProgress| r@)
}

/// A root's walk-phase contribution to a progress denominator. An overtaken
/// estimate is raised to what was walked; past the walk the estimate is
/// dropped, for it can read high.
pub open spec fn denominator(r: RootView) -> Option<usize> {
    match r.phase {
        RootPhase::Walking => match r.walk_total {
            Some(t) => Some(
                if t < r.walked {
                    r.walked
                } else {
                    t
                },
            ),
            None => None,
        },
        _ => Some(r.walked),
    }
}

impl RootProgress {
    /// This root's walk-phase contribution to a progress denominator.
    pub fn walk_denominator(&self) -> (r: Option<usize>)
        ensures
            r == denominator(self@),
    {
        match self.phase {
            RootPhase::Walking => match self.walk_total {
                Some(t) => Some(
                    if t < self.walked {
                        self.walked
                    } else {
                        t
                    },
                ),
                None => None,
            },
            RootPhase::Extracting | RootPhase::Done => Some(self.walked),
        }
    }
}

/// Files processed and the run's total, across every root.
#[derive(Debug, Clone, Copy, PartialEq, Eq, Structural)]
pub struct OverallProgress {
    /// Work units, not files: each file counts once walked and once extracted.
    pub processed: usize,
    /// `None` while a still-walking root has no count yet.
    pub total: Option<usize>,
}

/// What one root has processed: its extraction half joins only once it has
/// been counted.
pub open spec fn processed_of(r: RootView) -> int {
    r.walked + match r.extract_total {
        Some(_) => r.extracted as int,
        None => 0,
    }
}

/// What one root has to process, where its walk has a denominator.
pub open spec fn total_of(r: RootView) -> int {
    (match denominator(r) {
        Some(d) => d as int,
        None => 0,
    }) + match r.extract_total {
        Some(t) => t as int,
        None => 0,
    }
}

/// What every root has processed.
pub open spec fn processed(roots: Seq<RootView>) -> int
    decreases roots.len(),
{
    if roots.len() == 0 {
        0
    } else {
        processed(roots.drop_last()) + processed_of(roots.last())
    }
}

/// What every root has to process.
pub open spec fn work(roots: Seq<RootView>) -> int
    decreases roots.len(),
{
    if roots.len() == 0 {
        0
    } else {
        work(roots.drop_last()) + total_of(roots.last())
    }
}

/// Whether every root's walk has a denominator.
pub open spec fn counted(roots: Seq<RootView>) -> bool {
    forall|i: int| 0 <= i < roots.len() ==> denominator(#[trigger] roots[i]) is Some
}

proof fn lemma_sums_grow(roots: Seq<RootView>, i: int)
    requires
        0 <= i <= roots.len(),
    ensures
        0 <= processed(roots.take(i)) <= processed(roots),
        0 <= work(roots.take(i)) <= work(roots),
    decreases roots.len(),
{
    if i == roots.len() {
        assert(roots.take(i) =~= roots);
        if i > 0 {
            lemma_sums_grow(roots.drop_last(), i - 1);
        }
    } else {
        assert(roots.drop_last().take(i) =~= roots.take(i));
        lemma_sums_grow(roots.drop_last(), i);
    }
}

/// Aggregate every root's progress into the one pair a status bar shows.
pub fn overall_progress(roots: &[RootProgress]) -> (r: OverallProgress)
    requires
        processed(roots_view(roots@)) <= usize::MAX,
        counted(roots_view(roots@)) ==> work(roots_view(roots@)) <= usize::MAX,
    ensures
        r.processed == processed(roots_view(roots@)),
        match r.total {
            Some(t) => counted(roots_view(roots@)) && t == work(roots_view(roots@)),
            None => !counted(roots_view(roots@)),
        },
{
    let ghost all = roots_view(roots@);
    let mut done: usize = 0;
    let mut known = true;
    let mut i: usize = 0;
    assert(all.take(0) =~= seq![]);
    while i < roots.len()
        invariant
            i <= roots@.len(),
            all == roots_view(roots@),
            processed(all) <= usize::MAX,
            done == processed(all.take(i as int)),
            known == counted(all.take(i as int)),
        decreases roots@.len() - i,
    {
        let r = &roots[i];
        proof {
            lemma_sums_grow(all, i + 1);
            lemma_sums_grow(all, i as int);
            assert(all.take(i + 1).drop_last() =~= all.take(i as int));
            assert(all.take(i + 1).last() == r@);
        }
        assert(processed(all.take(i + 1)) == done + processed_of(r@));
        done = done + r.walked;
        if r.extract_total.is_some() {
            done = done + r.extracted;
        }
        let has = r.walk_denominator().is_some();
        proof {
            let t = all.take(i + 1);
            if counted(t) {
                assert(t[i as int] == r@);
                assert(counted(all.take(i as int))) by {
                    assert forall|j: int| 0 <= j < i implies denominator(
                        #[trigger] all.take(i as int)[j],
                    ) is Some by {
                        assert(t[j] == all.take(i as int)[j]);
                    }
                }
            }
            if known && has {
                assert forall|j: int| 0 <= j < t.len() implies denominator(#[trigger] t[j]) is Some by {
                    if j < i {
                        assert(t[j] == all.take(i as int)[j]);
                    }
                }
            }
        }
        known = known && has;
        i += 1;
    }
    assert(all.take(all.len() as int) =~= all);
    if !known {
        return OverallProgress { processed: done, total: None };
    }
    let mut total: usize = 0;
    let mut k: usize = 0;
    while k < roots.len()
        invariant
            k <= roots@.len(),
            all == roots_view(roots@),
            work(all) <= usize::MAX,
            total == work(all.take(k as int)),
            counted(all),
        decreases roots@.len() - k,
    {
        let r = &roots[k];
        proof {
            lemma_sums_grow(all, k + 1);
            lemma_sums_grow(all, k as int);
            assert(all.take(k + 1).drop_last() =~= all.take(k as int));
            assert(all.take(k + 1).last() == r@);
            assert(all[k as int] == r@);
        }
        assert(work(all.take(k + 1)) == total + total_of(r@));
        match r.walk_denominator() {
            Some(d) => {
                total = total + d;
            },
            None => {},
        }
        match r.extract_total {
            Some(t) => {
                total = total + t;
            },
            None => {},
        }
        k += 1;
    }
    OverallProgress { processed: done, total: Some(total) }
}

/// How far a configuration reconciliation has got.
#[derive(Debug, Clone, Copy, PartialEq, Eq, Structural)]
pub struct ReconcileProgress {
    /// Stored rows re-tested against the current configuration so far.
    pub examined: usize,
    /// `None` while the plan is doing whole-range work that reads no rows.
    pub total: Option<usize>,
    pub deleted: usize,
    /// Rows whose content state or stored text was re-decided.
    pub recontented: usize,
}

impl Default for ReconcileProgress {
    fn default() -> (r: Self)
        ensures
            r == (ReconcileProgress { examined: 0, total: None, deleted: 0, recontented: 0 }),
    {
        ReconcileProgress { examined: 0, total: None, deleted: 0, recontented: 0 }
    }
}

/// A run past its walks needs no estimate: its total is known, and each root
/// counts what it walked.
pub proof fn a_run_past_its_walks_is_counted(roots: Seq<RootView>)
    requires
        forall|i: int| 0 <= i < roots.len() ==> #[trigger] roots[i].phase != RootPhase::Walking,
    ensures
        counted(roots),
        forall|i: int|
            0 <= i < roots.len() ==> denominator(#[trigger] roots[i]) == Some(roots[i].walked),
{
    assert forall|i: int| 0 <= i < roots.len() implies denominator(#[trigger] roots[i]) == Some(
        roots[i].walked,
    ) by {
        assert(roots[i].phase != RootPhase::Walking);
    }
}

/// The bar never passes its end: a root's walk counts no more than its
/// denominator, so the whole run does not either, as long as no extraction has
/// passed its own count.
pub proof fn a_bar_stays_within_its_total(roots: Seq<RootView>)
    requires
        counted(roots),
        forall|i: int|
            0 <= i < roots.len() ==> match (#[trigger] roots[i]).extract_total {
                Some(t) => roots[i].extracted <= t,
                None => true,
            },
    ensures
        processed(roots) <= work(roots),
    decreases roots.len(),
{
    if roots.len() > 0 {
        let front = roots.drop_last();
        assert forall|i: int| 0 <= i < front.len() implies denominator(#[trigger] front[i]) is Some
            && match front[i].extract_total {
            Some(t) => front[i].extracted <= t,
            None => true,
        } by {
            assert(front[i] == roots[i]);
            assert(denominator(roots[i]) is Some);
        }
        a_bar_stays_within_its_total(front);
        let last = roots.last();
        assert(last == roots[roots.len() - 1]);
        assert(denominator(last) is Some);
        assert(processed_of(last) <= total_of(last));
    }
}

/// A run whose roots are all past their walks and whose extractions reached
/// their counts has nothing left: its total is known, and is what was
/// processed.
pub proof fn a_finished_run_is_complete(roots: Seq<RootView>)
    requires
        forall|i: int| 0 <= i < roots.len() ==> (#[trigger] roots[i]).phase != RootPhase::Walking,
        forall|i: int|
            0 <= i < roots.len() ==> match (#[trigger] roots[i]).extract_total {
                Some(t) => roots[i].extracted == t,
                None => true,
            },
    ensures
        counted(roots),
        processed(roots) == work(roots),
    decreases roots.len(),
{
    a_run_past_its_walks_is_counted(roots);
    if roots.len() > 0 {
        let front = roots.drop_last();
        assert forall|i: int| 0 <= i < front.len() implies (#[trigger] front[i]).phase
            != RootPhase::Walking && match front[i].extract_total {
            Some(t) => front[i].extracted == t,
            None => true,
        } by {
            assert(front[i] == roots[i]);
        }
        a_finished_run_is_complete(front);
        assert(roots.last() == roots[roots.len() - 1]);
    }
}

/// A run has no total exactly while some root still walks without a count.
pub proof fn an_uncounted_walk_has_no_total(roots: Seq<RootView>)
    ensures
        !counted(roots) <==> exists|i: int|
            0 <= i < roots.len() && (#[trigger] roots[i]).phase == RootPhase::Walking
                && roots[i].walk_total is None,
{
    if !counted(roots) {
        let i = choose|i: int| 0 <= i < roots.len() && denominator(#[trigger] roots[i]) is None;
        assert(roots[i].phase == RootPhase::Walking);
    } else {
        assert forall|i: int| 0 <= i < roots.len() implies !((#[trigger] roots[i]).phase
            == RootPhase::Walking && roots[i].walk_total is None) by {
            assert(denominator(roots[i]) is Some);
        }
    }
}

/// Taking a root out takes out what it adds.
proof fn lemma_without(roots: Seq<RootView>, i: int)
    requires
        0 <= i < roots.len(),
    ensures
        processed(roots) == processed(roots.remove(i)) + processed_of(roots[i]),
        work(roots) == work(roots.remove(i)) + total_of(roots[i]),
    decreases roots.len(),
{
    if i == roots.len() - 1 {
        assert(roots.remove(i) =~= roots.drop_last());
    } else {
        let front = roots.drop_last();
        lemma_without(front, i);
        assert(roots.remove(i).drop_last() =~= front.remove(i));
        assert(roots.remove(i).last() == roots.last());
        assert(front[i] == roots[i]);
    }
}

/// The order of the roots does not matter: the same roots in any order make
/// the same figures.
pub proof fn the_order_of_the_roots_does_not_matter(a: Seq<RootView>, b: Seq<RootView>)
    requires
        a.to_multiset() == b.to_multiset(),
    ensures
        processed(a) == processed(b),
        work(a) == work(b),
        counted(a) == counted(b),
    decreases a.len(),
{
    broadcast use vstd::seq_lib::group_to_multiset_ensures;

    assert(a.len() == a.to_multiset().len());
    assert(b.len() == b.to_multiset().len());
    if a.len() > 0 {
        let x = a.last();
        assert(a.contains(a[a.len() - 1]));
        assert(a.to_multiset().count(x) > 0);
        assert(b.contains(x));
        let j = choose|j: int| 0 <= j < b.len() && b[j] == x;
        let n = a.len() - 1;
        assert(a.remove(n).to_multiset() =~= a.to_multiset().remove(x));
        assert(b.remove(j).to_multiset() =~= b.to_multiset().remove(x));
        the_order_of_the_roots_does_not_matter(a.remove(n), b.remove(j));
        lemma_without(a, n);
        lemma_without(b, j);
        assert forall|i: int| counted(a) && 0 <= i < b.len() implies denominator(
            #[trigger] b[i],
        ) is Some by {
            assert(b.to_multiset().count(b[i]) > 0);
            assert(a.contains(b[i]));
            let k = choose|k: int| 0 <= k < a.len() && a[k] == b[i];
            assert(denominator(a[k]) is Some);
        }
        assert forall|i: int| counted(b) && 0 <= i < a.len() implies denominator(
            #[trigger] a[i],
        ) is Some by {
            assert(a.to_multiset().count(a[i]) > 0);
            assert(b.contains(a[i]));
            let k = choose|k: int| 0 <= k < b.len() && b[k] == a[i];
            assert(denominator(b[k]) is Some);
        }
    }
}

/// A walk's share of the total is its estimate or what it walked, whichever is
/// more. What it has processed is what it walked, and what it extracted once there
/// is something to hold that against.
pub proof fn a_share_is_what_is_known(r: RootView)
    ensures
        r.phase == RootPhase::Walking ==> denominator(r) is Some == r.walk_total is Some,
        (r.phase == RootPhase::Walking && r.walk_total is Some) ==> {
            let d = denominator(r)->Some_0;
            &&& d >= r.walked
            &&& d >= r.walk_total->Some_0
            &&& d == r.walked || d == r.walk_total->Some_0
        },
        r.extract_total is None ==> processed_of(r) == r.walked,
        r.extract_total is Some ==> processed_of(r) == r.walked + r.extracted,
        (denominator(r) is Some && r.extract_total is None) ==> total_of(r)
            == denominator(r)->Some_0,
        (denominator(r) is Some && r.extract_total is Some) ==> total_of(r)
            == denominator(r)->Some_0 + r.extract_total->Some_0,
{
}

/// The figures of two groups of roots together are the sums of theirs.
pub proof fn the_figures_add_up(a: Seq<RootView>, b: Seq<RootView>)
    ensures
        processed(a + b) == processed(a) + processed(b),
        work(a + b) == work(a) + work(b),
        counted(a + b) <==> counted(a) && counted(b),
    decreases b.len(),
{
    let all = a + b;
    if b.len() > 0 {
        the_figures_add_up(a, b.drop_last());
        assert(all.drop_last() =~= a + b.drop_last());
        assert(all.last() == b.last());
    } else {
        assert(all =~= a);
    }
    if counted(all) {
        assert forall|i: int| 0 <= i < a.len() implies denominator(#[trigger] a[i]) is Some by {
            assert(all[i] == a[i]);
        }
        assert forall|i: int| 0 <= i < b.len() implies denominator(#[trigger] b[i]) is Some by {
            assert(all[a.len() + i] == b[i]);
        }
    }
    if counted(a) && counted(b) {
        assert forall|i: int| 0 <= i < all.len() implies denominator(#[trigger] all[i]) is Some by {
            if i < a.len() {
                assert(all[i] == a[i]);
            } else {
                assert(all[i] == b[i - a.len()]);
            }
        }
    }
}

} // verus!
