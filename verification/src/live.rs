//! Watching the search results a frontend is actually showing.
//!
//! Rows refresh from the file, never the index. Watches go on parent
//! directories, not files: editors save by renaming over the target, orphaning
//! the file that a file watch would hold. The watcher itself and the reading
//! of files are outside this crate; times are milliseconds on one clock.
use crate::config::Config;
use crate::keyed::{distinct, lemma_absent, lemma_lookup, Keyed};
use crate::parts::{file_name, parent, path_file_name, path_parent, path_under, under};
use crate::paths::Separator;
use crate::records::{outcome_body, ContentOutcome};
use crate::text::maybe;
use vstd::prelude::*;

verus! {

/// How long a window of events settles.
pub const SETTLE: u64 = 150;

/// The shortest time between two updates of one row.
pub const MIN_INTERVAL: u64 = 750;

/// The longest wait for a message while a window settles.
pub const TICK: u64 = 50;

/// Directories watched.
pub const MAX_DIRS: usize = 64;

/// Rows watched.
pub const MAX_TARGETS: usize = 256;

/// How a row's body matched.
#[derive(Debug, Clone, Copy, PartialEq, Eq, Structural)]
pub enum ContentTier {
    Exact,
    Fuzzy,
}

/// One row the frontend is showing and wants kept current.
#[derive(Debug, Clone, PartialEq, Eq)]
pub struct Target {
    /// The row's path, spelled exactly as the search returned it.
    pub path: String,
    /// The tier when this row displays body text and needs its window re-cut
    /// on change. Without one the file is never opened.
    pub text: Option<ContentTier>,
    /// The size the row is displaying.
    pub size: u64,
    /// The modified time the row is displaying.
    pub mtime: i64,
}

/// A [`Target`] by its contents.
pub struct TargetView {
    pub path: Seq<char>,
    pub text: Option<ContentTier>,
    pub size: u64,
    pub mtime: i64,
}

impl View for Target {
    type V = TargetView;

    open spec fn view(&self) -> TargetView {
        TargetView { path: self.path@, text: self.text, size: self.size, mtime: self.mtime }
    }
}

fn copy_target(t: &Target) -> (r: Target)
    ensures
        r@ == t@,
{
    Target { path: t.path.clone(), text: t.text, size: t.size, mtime: t.mtime }
}

/// A cut of a body with the ranges that matched.
#[derive(Debug, Clone, PartialEq, Eq)]
pub struct Snippet {
    pub window: String,
    pub ranges: Vec<(usize, usize)>,
}

/// A [`Snippet`] by its contents.
pub struct SnippetView {
    pub window: Seq<char>,
    pub ranges: Seq<(usize, usize)>,
}

impl View for Snippet {
    type V = SnippetView;

    open spec fn view(&self) -> SnippetView {
        SnippetView { window: self.window@, ranges: self.ranges@ }
    }
}

/// What a change did to a row's window: "did not look" and "looked and it is
/// not there any more" must reach the frontend as different answers.
#[derive(Debug, Clone, PartialEq, Eq)]
pub enum WindowUpdate {
    /// Not a body-text row, or its body could not be re-read; the cell keeps
    /// what it has.
    Unchanged,
    Cut(Snippet),
    NoMatch,
}

/// A [`WindowUpdate`] by its contents.
pub enum WindowView {
    Unchanged,
    Cut(SnippetView),
    NoMatch,
}

impl View for WindowUpdate {
    type V = WindowView;

    open spec fn view(&self) -> WindowView {
        match *self {
            WindowUpdate::Unchanged => WindowView::Unchanged,
            WindowUpdate::Cut(s) => WindowView::Cut(s@),
            WindowUpdate::NoMatch => WindowView::NoMatch,
        }
    }
}

/// A ready-to-apply change to one row on screen.
#[derive(Debug, Clone, PartialEq, Eq)]
pub enum LiveUpdate {
    /// The file moved. `path` is the row's old path, the frontend's key.
    Renamed { path: String, to: String, name: String },
    Changed { path: String, size: u64, mtime: i64, window: WindowUpdate },
    /// The file is no longer there. Reversible: a file recreated at the same
    /// path reports a change.
    Gone { path: String },
}

/// A [`LiveUpdate`] by its contents.
pub enum UpdateView {
    Renamed { path: Seq<char>, to: Seq<char>, name: Seq<char> },
    Changed { path: Seq<char>, size: u64, mtime: i64, window: WindowView },
    Gone { path: Seq<char> },
}

impl View for LiveUpdate {
    type V = UpdateView;

    open spec fn view(&self) -> UpdateView {
        match *self {
            LiveUpdate::Renamed { path, to, name } => UpdateView::Renamed {
                path: path@,
                to: to@,
                name: name@,
            },
            LiveUpdate::Changed { path, size, mtime, window } => UpdateView::Changed {
                path: path@,
                size,
                mtime,
                window: window@,
            },
            LiveUpdate::Gone { path } => UpdateView::Gone { path: path@ },
        }
    }
}

/// The row an update is keyed by.
pub open spec fn update_path(u: UpdateView) -> Seq<char> {
    match u {
        UpdateView::Renamed { path, .. } => path,
        UpdateView::Changed { path, .. } => path,
        UpdateView::Gone { path } => path,
    }
}

impl LiveUpdate {
    /// The row this update is keyed by: the path the frontend knows it as.
    pub fn path(&self) -> (r: &str)
        ensures
            r@ == update_path(self@),
    {
        match self {
            LiveUpdate::Renamed { path, .. } => path.as_str(),
            LiveUpdate::Changed { path, .. } => path.as_str(),
            LiveUpdate::Gone { path } => path.as_str(),
        }
    }
}

/// What a window of events decided for a row.
#[derive(Debug, Clone, PartialEq, Eq)]
pub enum Op {
    Changed,
    Renamed(String),
    /// Provisional: the departing half of a rename may arrive before the event
    /// that names the destination.
    Gone,
}

/// An [`Op`] by its contents.
pub enum OpView {
    Changed,
    Renamed(Seq<char>),
    Gone,
}

impl View for Op {
    type V = OpView;

    open spec fn view(&self) -> OpView {
        match *self {
            Op::Changed => OpView::Changed,
            Op::Renamed(to) => OpView::Renamed(to@),
            Op::Gone => OpView::Gone,
        }
    }
}

fn copy_op(op: &Op) -> (r: Op)
    ensures
        r@ == op@,
{
    match op {
        Op::Changed => Op::Changed,
        Op::Renamed(to) => Op::Renamed(to.clone()),
        Op::Gone => Op::Gone,
    }
}

/// What a watcher reported.
#[derive(Debug, Clone, Copy, PartialEq, Eq, Structural)]
pub enum EventKind {
    /// A rename with both its ends, the source first.
    RenameBoth,
    /// The arriving half of a rename.
    RenameTo,
    /// The departing half of a rename.
    RenameFrom,
    Remove,
    Create,
    /// Any other modification.
    Modify,
    /// An access, or what the watcher could not tell.
    Other,
}

/// One event of the watcher. A path is missing where the index could not spell
/// it: its lossy spelling may be another file's path.
#[derive(Debug)]
pub struct LiveEvent {
    pub kind: EventKind,
    pub paths: Vec<Option<String>>,
}

/// The paths of an event by their contents.
pub open spec fn event_paths(paths: Seq<Option<String>>) -> Seq<Option<Seq<char>>> {
    paths.map_values(|p: Option<String>| maybe(p))
}

/// The decisions of a window so far: per row, and the rename destinations
/// whose source is no row on screen.
pub struct Decided {
    pub pending: Map<Seq<char>, OpView>,
    pub orphans: Seq<Seq<char>>,
}

/// One path of an event folded into the decisions.
pub open spec fn fold_path(
    kind: EventKind,
    path: Option<Seq<char>>,
    shown: Map<Seq<char>, TargetView>,
    d: Decided,
) -> Decided {
    match path {
        None => d,
        Some(k) => if shown.contains_key(k) {
            match kind {
                EventKind::RenameTo | EventKind::Create | EventKind::Modify => Decided {
                    pending: d.pending.insert(k, OpView::Changed),
                    ..d
                },
                EventKind::RenameFrom => if d.pending.contains_key(k) {
                    d
                } else {
                    Decided { pending: d.pending.insert(k, OpView::Gone), ..d }
                },
                EventKind::Remove => Decided { pending: d.pending.insert(k, OpView::Gone), ..d },
                _ => d,
            }
        } else if kind == EventKind::RenameTo {
            Decided { orphans: d.orphans.push(k), ..d }
        } else {
            d
        },
    }
}

/// Every path of an event folded into the decisions, in order.
pub open spec fn fold_paths(
    kind: EventKind,
    paths: Seq<Option<Seq<char>>>,
    shown: Map<Seq<char>, TargetView>,
    d: Decided,
) -> Decided
    decreases paths.len(),
{
    if paths.len() == 0 {
        d
    } else {
        fold_path(kind, paths.last(), shown, fold_paths(kind, paths.drop_last(), shown, d))
    }
}

/// The decisions after an event.
pub open spec fn classified(
    kind: EventKind,
    paths: Seq<Option<Seq<char>>>,
    shown: Map<Seq<char>, TargetView>,
    d: Decided,
) -> Decided {
    match kind {
        EventKind::RenameBoth => if paths.len() < 2 {
            d
        } else {
            let from = paths[0];
            let to = paths[1];
            if from is Some && shown.contains_key(from->Some_0) {
                Decided {
                    pending: d.pending.insert(
                        from->Some_0,
                        match to {
                            Some(t) => OpView::Renamed(t),
                            None => OpView::Gone,
                        },
                    ),
                    ..d
                }
            } else if to is Some && shown.contains_key(to->Some_0) {
                Decided { pending: d.pending.insert(to->Some_0, OpView::Changed), ..d }
            } else {
                d
            }
        },
        _ => fold_paths(kind, paths, shown, d),
    }
}

pub open spec fn spellings(v: Seq<String>) -> Seq<Seq<char>> {
    crate::text::texts(v)
}

/// Fold one event into the pending decisions for this window. Live results
/// never add rows: nothing here can know a new file matches the query.
pub fn classify(
    event: &LiveEvent,
    targets: &Keyed<Target>,
    pending: &mut Keyed<Op>,
    orphan_to: &mut Vec<String>,
)
    requires
        targets.wf(),
        old(pending).wf(),
    ensures
        final(pending).wf(),
        (Decided { pending: final(pending)@, orphans: spellings(final(orphan_to)@) })
            == classified(
            event.kind,
            event_paths(event.paths@),
            targets@,
            Decided { pending: old(pending)@, orphans: spellings(old(orphan_to)@) },
        ),
{
    let ghost paths = event_paths(event.paths@);
    let ghost d0 = Decided { pending: pending@, orphans: spellings(orphan_to@) };
    match event.kind {
        EventKind::RenameBoth => {
            if event.paths.len() < 2 {
                return;
            }
            assert(paths[0] == maybe(event.paths@[0]));
            assert(paths[1] == maybe(event.paths@[1]));
            // Some watchers emit this after both halves, so it lands in the
            // same window and overwrites the provisional departure.
            match &event.paths[0] {
                Some(from) => {
                    if targets.contains(from.as_str()) {
                        let op = match &event.paths[1] {
                            Some(to) => Op::Renamed(to.clone()),
                            // The file left, so this is the honest update.
                            None => Op::Gone,
                        };
                        pending.insert(from.clone(), op);
                        return;
                    }
                },
                None => {},
            }
            match &event.paths[1] {
                Some(to) => {
                    if targets.contains(to.as_str()) {
                        // A temporary file renamed over a row on screen: the
                        // row did not move, its contents changed.
                        pending.insert(to.clone(), Op::Changed);
                    }
                },
                None => {},
            }
        },
        _ => {
            let mut i: usize = 0;
            assert(paths.take(0) =~= seq![]);
            while i < event.paths.len()
                invariant
                    i <= event.paths@.len(),
                    paths == event_paths(event.paths@),
                    event.kind != EventKind::RenameBoth,
                    targets.wf(),
                    pending.wf(),
                    (Decided { pending: pending@, orphans: spellings(orphan_to@) }) == fold_paths(
                        event.kind,
                        paths.take(i as int),
                        targets@,
                        d0,
                    ),
                decreases event.paths@.len() - i,
            {
                assert(paths.take(i + 1).drop_last() =~= paths.take(i as int));
                assert(paths.take(i + 1).last() == maybe(event.paths@[i as int]));
                fold_one(event.kind, &event.paths[i], targets, pending, orphan_to);
                i += 1;
            }
            assert(paths.take(paths.len() as int) =~= paths);
        },
    }
}

/// Fold one path of an event into the decisions.
fn fold_one(
    kind: EventKind,
    path: &Option<String>,
    targets: &Keyed<Target>,
    pending: &mut Keyed<Op>,
    orphan_to: &mut Vec<String>,
)
    requires
        kind != EventKind::RenameBoth,
        targets.wf(),
        old(pending).wf(),
    ensures
        final(pending).wf(),
        (Decided { pending: final(pending)@, orphans: spellings(final(orphan_to)@) }) == fold_path(
            kind,
            maybe(*path),
            targets@,
            Decided { pending: old(pending)@, orphans: spellings(old(orphan_to)@) },
        ),
{
    match path {
        None => {},
        Some(k) => {
            if targets.contains(k.as_str()) {
                match kind {
                    EventKind::RenameTo | EventKind::Create | EventKind::Modify => {
                        pending.insert(k.clone(), Op::Changed);
                    },
                    EventKind::RenameFrom => {
                        if !pending.contains(k.as_str()) {
                            pending.insert(k.clone(), Op::Gone);
                        }
                    },
                    EventKind::Remove => {
                        pending.insert(k.clone(), Op::Gone);
                    },
                    _ => {},
                }
            } else if kind == EventKind::RenameTo {
                let ghost before = orphan_to@;
                orphan_to.push(k.clone());
                assert(spellings(orphan_to@) =~= spellings(before).push(k@));
            }
        },
    }
}

/// Whether a row is the only one decided gone.
pub open spec fn only_gone(m: Map<Seq<char>, OpView>, k: Seq<char>) -> bool {
    &&& m.contains_key(k)
    &&& m[k] is Gone
    &&& forall|j: Seq<char>| #[trigger] m.contains_key(j) && m[j] is Gone ==> j == k
}

/// The decisions once the halves of a rename are paired. A watcher may report
/// them separately with nothing to pair them by: exactly one row gone and one
/// unclaimed destination are the same file; anything more ambiguous stays
/// gone.
pub open spec fn paired(m: Map<Seq<char>, OpView>, orphans: Seq<Seq<char>>) -> Map<
    Seq<char>,
    OpView,
> {
    if orphans.len() == 1 && exists|k: Seq<char>| only_gone(m, k) {
        m.insert(choose|k: Seq<char>| only_gone(m, k), OpView::Renamed(orphans[0]))
    } else {
        m
    }
}

/// Pair the halves of a rename.
pub fn pair(pending: &mut Keyed<Op>, orphans: &Vec<String>)
    requires
        old(pending).wf(),
    ensures
        final(pending).wf(),
        final(pending)@ == paired(old(pending)@, spellings(orphans@)),
{
    let ghost m = pending@;
    let ghost order = pending.order();
    let mut first: Option<usize> = None;
    let mut more = false;
    let mut i: usize = 0;
    while i < pending.len()
        invariant
            i <= order.len(),
            pending.order() == order,
            pending@ == m,
            match first {
                None => !more && forall|j: int| 0 <= j < i ==> !(#[trigger] order[j].1 is Gone),
                Some(f) => {
                    &&& f < i
                    &&& order[f as int].1 is Gone
                    &&& forall|j: int| 0 <= j < f ==> !(#[trigger] order[j].1 is Gone)
                    &&& !more ==> forall|j: int| f < j < i ==> !(#[trigger] order[j].1 is Gone)
                    &&& more ==> exists|j: int| f < j < i && #[trigger] order[j].1 is Gone
                },
            },
        decreases order.len() - i,
    {
        match pending.value_at(i) {
            Op::Gone => {
                assert(order[i as int].1 is Gone);
                match first {
                    None => {
                        first = Some(i);
                    },
                    Some(_) => {
                        more = true;
                    },
                }
            },
            _ => {},
        }
        i += 1;
    }
    proof {
        assert forall|k: Seq<char>| only_gone(m, k) implies (first matches Some(f) && order[f as int].0
            == k && !more) by {
            lemma_absent(order, k);
            let j = choose|j: int| 0 <= j < order.len() && #[trigger] order[j].0 == k;
            lemma_lookup(order, j);
            match first {
                None => {},
                Some(f) => {
                    lemma_lookup(order, f as int);
                    if more {
                        let s = choose|s: int| f < s < order.len() && #[trigger] order[s].1 is Gone;
                        lemma_lookup(order, s);
                        assert(order[f as int].0 != order[s].0);
                    }
                },
            }
        }
        match first {
            Some(f) if !more => {
                let k = order[f as int].0;
                lemma_lookup(order, f as int);
                assert forall|j: Seq<char>| #[trigger] m.contains_key(j) && m[j] is Gone implies j
                    == k by {
                    lemma_absent(order, j);
                    let x = choose|x: int| 0 <= x < order.len() && #[trigger] order[x].0 == j;
                    lemma_lookup(order, x);
                }
                assert(only_gone(m, k));
            },
            _ => {},
        }
    }
    match first {
        Some(f) => {
            if !more && orphans.len() == 1 {
                let key = string_of(pending.key_at(f));
                assert(spellings(orphans@)[0] == orphans@[0]@);
                pending.insert(key, Op::Renamed(orphans[0].clone()));
            }
        },
        None => {},
    }
}

fn string_of(s: &str) -> (r: String)
    ensures
        r@ == s@,
{
    s.to_owned()
}

/// Whether a row may be updated again.
pub open spec fn due(last_emit: Map<Seq<char>, u64>, k: Seq<char>, now: u64) -> bool {
    last_emit.contains_key(k) ==> now >= last_emit[k] + MIN_INTERVAL
}

/// The decisions taken up by one settled window: every row that is due, none
/// twice.
pub open spec fn taken_up(
    r: Seq<(Seq<char>, OpView)>,
    pending: Map<Seq<char>, OpView>,
    last_emit: Map<Seq<char>, u64>,
    now: u64,
) -> bool {
    &&& distinct(r)
    &&& forall|i: int|
        0 <= i < r.len() ==> pending.contains_key(#[trigger] r[i].0) && pending[r[i].0] == r[i].1
            && due(last_emit, r[i].0, now)
    &&& forall|k: Seq<char>| #[trigger]
        pending.contains_key(k) && due(last_emit, k, now) ==> exists|i: int|
            0 <= i < r.len() && #[trigger] r[i].0 == k
}

/// The map without these entries' keys.
pub open spec fn without(m: Map<Seq<char>, OpView>, r: Seq<(Seq<char>, OpView)>) -> Map<
    Seq<char>,
    OpView,
>
    decreases r.len(),
{
    if r.len() == 0 {
        m
    } else {
        without(m, r.drop_last()).remove(r.last().0)
    }
}

/// The map with these entries' keys set to a time.
pub open spec fn stamped(m: Map<Seq<char>, u64>, r: Seq<(Seq<char>, OpView)>, now: u64) -> Map<
    Seq<char>,
    u64,
>
    decreases r.len(),
{
    if r.len() == 0 {
        m
    } else {
        stamped(m, r.drop_last(), now).insert(r.last().0, now)
    }
}

/// Decisions by their contents.
pub open spec fn ops_view(v: Seq<(String, Op)>) -> Seq<(Seq<char>, OpView)> {
    v.map_values(|e: (String, Op)| (e.0@, e.1@))
}

/// Where the decisions taken up stand among the pending ones: in order, those
/// before `upto` that are due.
spec fn picked(
    order: Seq<(Seq<char>, OpView)>,
    idx: Seq<int>,
    upto: int,
    last_emit: Map<Seq<char>, u64>,
    now: u64,
) -> bool {
    &&& forall|k: int|
        0 <= k < idx.len() ==> 0 <= #[trigger] idx[k] < upto && due(
            last_emit,
            order[idx[k]].0,
            now,
        )
    &&& forall|a: int, b: int| 0 <= a < b < idx.len() ==> #[trigger] idx[a] < #[trigger] idx[b]
    &&& forall|j: int|
        0 <= j < upto && due(last_emit, #[trigger] order[j].0, now) ==> idx.contains(j)
}

proof fn lemma_picked_push(
    order: Seq<(Seq<char>, OpView)>,
    idx: Seq<int>,
    upto: int,
    last_emit: Map<Seq<char>, u64>,
    now: u64,
)
    requires
        picked(order, idx, upto, last_emit, now),
        0 <= upto < order.len(),
    ensures
        due(last_emit, order[upto].0, now) ==> picked(
            order,
            idx.push(upto),
            upto + 1,
            last_emit,
            now,
        ),
        !due(last_emit, order[upto].0, now) ==> picked(order, idx, upto + 1, last_emit, now),
{
    if due(last_emit, order[upto].0, now) {
        let next = idx.push(upto);
        assert forall|j: int|
            0 <= j < upto + 1 && due(last_emit, #[trigger] order[j].0, now) implies next.contains(
            j,
        ) by {
            if j < upto {
                let k = choose|k: int| 0 <= k < idx.len() && idx[k] == j;
                assert(next[k] == j);
            } else {
                assert(next[idx.len() as int] == j);
            }
        }
    }
}

/// The pending decisions to take up now.
fn take_up(pending: &Keyed<Op>, last_emit: &Keyed<u64>, now: u64) -> (r: Vec<(String, Op)>)
    requires
        pending.wf(),
        last_emit.wf(),
    ensures
        taken_up(ops_view(r@), pending@, last_emit@, now),
{
    let ghost order = pending.order();
    let ghost last = last_emit@;
    let ghost mut idx: Seq<int> = seq![];
    let mut ready: Vec<(String, Op)> = Vec::new();
    let mut i: usize = 0;
    while i < pending.len()
        invariant
            i <= order.len(),
            pending.wf(),
            last_emit.wf(),
            pending.order() == order,
            last_emit@ == last,
            picked(order, idx, i as int, last, now),
            idx.len() == ready@.len(),
            forall|k: int|
                0 <= k < ready@.len() ==> #[trigger] ops_view(ready@)[k] == order[idx[k]],
        decreases order.len() - i,
    {
        let key = string_of(pending.key_at(i));
        let is_due = match last_emit.get(key.as_str()) {
            None => true,
            Some(t) => now >= *t && now - *t >= MIN_INTERVAL,
        };
        proof {
            lemma_picked_push(order, idx, i as int, last, now);
        }
        if is_due {
            let ghost before = ops_view(ready@);
            let op = copy_op(pending.value_at(i));
            ready.push((key, op));
            proof {
                idx = idx.push(i as int);
                assert(ops_view(ready@) =~= before.push(order[i as int]));
            }
        }
        i += 1;
    }
    proof {
        let r = ops_view(ready@);
        assert(distinct(r)) by {
            assert forall|a: int, b: int| 0 <= a < b < r.len() implies #[trigger] r[a].0
                != #[trigger] r[b].0 by {
                assert(idx[a] < idx[b]);
                assert(order[idx[a]].0 != order[idx[b]].0);
            }
        }
        assert forall|k: int| 0 <= k < r.len() implies pending@.contains_key(#[trigger] r[k].0)
            && pending@[r[k].0] == r[k].1 && due(last, r[k].0, now) by {
            lemma_lookup(order, idx[k]);
        }
        assert forall|k: Seq<char>| #[trigger]
            pending@.contains_key(k) && due(last, k, now) implies exists|x: int|
            0 <= x < r.len() && #[trigger] r[x].0 == k by {
            lemma_absent(order, k);
            let j = choose|j: int| 0 <= j < order.len() && #[trigger] order[j].0 == k;
            assert(idx.contains(j));
            let x = choose|x: int| 0 <= x < idx.len() && idx[x] == j;
            assert(r[x].0 == k);
        }
    }
    ready
}

/// What a live watcher knows: the rows on screen, what a window of events
/// decided for them, and when each was last updated.
#[derive(Debug)]
pub struct LiveState {
    targets: Keyed<Target>,
    pending: Keyed<Op>,
    last_emit: Keyed<u64>,
    orphan_to: Vec<String>,
    settle_at: Option<u64>,
}

/// A [`LiveState`] by its contents.
pub struct StateView {
    pub targets: Map<Seq<char>, TargetView>,
    pub pending: Map<Seq<char>, OpView>,
    pub last_emit: Map<Seq<char>, u64>,
    pub orphans: Seq<Seq<char>>,
    pub settle_at: Option<u64>,
}

impl View for LiveState {
    type V = StateView;

    closed spec fn view(&self) -> StateView {
        StateView {
            targets: self.targets@,
            pending: self.pending@,
            last_emit: self.last_emit@,
            orphans: spellings(self.orphan_to@),
            settle_at: self.settle_at,
        }
    }
}

/// A state that watches nothing.
pub open spec fn idle() -> StateView {
    StateView {
        targets: Map::empty(),
        pending: Map::empty(),
        last_emit: Map::empty(),
        orphans: seq![],
        settle_at: None,
    }
}

/// A state after an event. Either queue arms the window: a destination left
/// over would pair with a later departure.
pub open spec fn after_event(
    s: StateView,
    kind: EventKind,
    paths: Seq<Option<Seq<char>>>,
    now: u64,
) -> StateView {
    let d = classified(kind, paths, s.targets, Decided { pending: s.pending, orphans: s.orphans });
    StateView {
        pending: d.pending,
        orphans: d.orphans,
        settle_at: if (d.pending != Map::<Seq<char>, OpView>::empty() || d.orphans.len() > 0)
            && s.settle_at is None {
            Some((now + SETTLE) as u64)
        } else {
            s.settle_at
        },
        ..s
    }
}

/// Whether a flush may hand these decisions out and leave this state. Only a
/// window that has settled hands any out; what is left over arms the next one.
pub open spec fn flushed(
    s: StateView,
    now: u64,
    r: Seq<(Seq<char>, OpView)>,
    after: StateView,
) -> bool {
    match s.settle_at {
        Some(at) if now >= at => {
            let decided = paired(s.pending, s.orphans);
            let rest = without(decided, r);
            &&& taken_up(r, decided, s.last_emit, now)
            &&& after == (StateView {
                targets: s.targets,
                pending: rest,
                last_emit: stamped(s.last_emit, r, now),
                orphans: seq![],
                settle_at: if rest == Map::<Seq<char>, OpView>::empty() {
                    None
                } else {
                    Some((now + SETTLE) as u64)
                },
            })
        },
        _ => r.len() == 0 && after == s,
    }
}

impl LiveState {
    /// The keys of each of its maps are distinct.
    pub closed spec fn wf(&self) -> bool {
        self.targets.wf() && self.pending.wf() && self.last_emit.wf()
    }

    pub fn new() -> (r: LiveState)
        ensures
            r.wf(),
            r@ == idle(),
    {
        let r = LiveState {
            targets: Keyed::new(),
            pending: Keyed::new(),
            last_emit: Keyed::new(),
            orphan_to: Vec::new(),
            settle_at: None,
        };
        assert(r@.orphans =~= seq![]);
        r
    }

    /// Forget every row and every pending update.
    pub fn reset(&mut self)
        ensures
            final(self).wf(),
            final(self)@ == idle(),
    {
        self.targets.clear();
        self.pending.clear();
        self.last_emit.clear();
        self.orphan_to.clear();
        self.settle_at = None;
        assert(self@.orphans =~= seq![]);
    }

    /// How long to wait for a message: nothing means without end.
    pub fn wait(&self, now: u64) -> (r: Option<u64>)
        ensures
            r == (match self@.settle_at {
                None => None,
                Some(at) => Some(
                    if at <= now {
                        0
                    } else if at - now < TICK {
                        (at - now) as u64
                    } else {
                        TICK
                    },
                ),
            }),
    {
        match self.settle_at {
            None => None,
            Some(at) => Some(
                if at <= now {
                    0
                } else if at - now < TICK {
                    at - now
                } else {
                    TICK
                },
            ),
        }
    }

    /// Take in an event of the watcher.
    pub fn on_event(&mut self, event: &LiveEvent, now: u64)
        requires
            old(self).wf(),
            now + SETTLE <= u64::MAX,
        ensures
            final(self).wf(),
            final(self)@ == after_event(
                old(self)@,
                event.kind,
                event_paths(event.paths@),
                now,
            ),
    {
        classify(event, &self.targets, &mut self.pending, &mut self.orphan_to);
        if (!self.pending.is_empty() || self.orphan_to.len() > 0) && self.settle_at.is_none() {
            self.settle_at = Some(now + SETTLE);
        }
    }

    /// Turn a settled window's decisions into the updates to work out now. The
    /// rows that are not due yet wait for another window.
    pub fn flush_settled(&mut self, now: u64) -> (r: Vec<(String, Op)>)
        requires
            old(self).wf(),
            now + SETTLE <= u64::MAX,
        ensures
            final(self).wf(),
            flushed(old(self)@, now, ops_view(r@), final(self)@),
    {
        match self.settle_at {
            None => return Vec::new(),
            Some(at) => {
                if now < at {
                    return Vec::new();
                }
            },
        }
        pair(&mut self.pending, &self.orphan_to);
        self.orphan_to.clear();
        let ghost decided = self.pending@;
        let ghost last = self.last_emit@;
        let ready = take_up(&self.pending, &self.last_emit, now);
        let ghost all = ops_view(ready@);
        let mut n: usize = 0;
        assert(all.take(0) =~= seq![]);
        while n < ready.len()
            invariant
                n <= ready@.len(),
                all == ops_view(ready@),
                self.wf(),
                self.pending@ == without(decided, all.take(n as int)),
                self.last_emit@ == stamped(last, all.take(n as int), now),
                self.targets@ == old(self)@.targets,
                self.orphan_to@.len() == 0,
            decreases ready@.len() - n,
        {
            assert(all.take(n + 1).drop_last() =~= all.take(n as int));
            assert(all.take(n + 1).last() == (ready@[n as int].0@, ready@[n as int].1@));
            self.pending.remove(ready[n].0.as_str());
            self.last_emit.insert(ready[n].0.clone(), now);
            n += 1;
        }
        assert(all.take(all.len() as int) =~= all);
        self.settle_at = if self.pending.is_empty() {
            None
        } else {
            Some(now + SETTLE)
        };
        assert(self@.orphans =~= seq![]);
        ready
    }

    /// Whether no row is watched.
    pub fn is_idle(&self) -> (r: bool)
        requires
            self.wf(),
        ensures
            r == (self@.targets == Map::<Seq<char>, TargetView>::empty()),
    {
        self.targets.is_empty()
    }

    /// The rows watched.
    pub fn targets(&self) -> (r: &Keyed<Target>)
        requires
            self.wf(),
        ensures
            r.wf(),
            r@ == self@.targets,
    {
        &self.targets
    }

    /// How a row's body matched, where it displays one.
    pub fn tier(&self, path: &str) -> (r: Option<ContentTier>)
        requires
            self.wf(),
        ensures
            r == (if self@.targets.contains_key(path@) {
                self@.targets[path@].text
            } else {
                None
            }),
    {
        match self.targets.get(path) {
            Some(t) => t.text,
            None => None,
        }
    }

    /// Watch one more row.
    fn add(&mut self, target: Target)
        requires
            old(self).wf(),
        ensures
            final(self).wf(),
            final(self)@ == (StateView {
                targets: old(self)@.targets.insert(target@.path, target@),
                ..old(self)@
            }),
    {
        let key = target.path.clone();
        self.targets.insert(key, target);
    }

    /// Keep the row's baseline in step with what the frontend was just told,
    /// so a later sweep does not repeat itself.
    pub fn note_emitted(&mut self, update: &LiveUpdate)
        requires
            old(self).wf(),
        ensures
            final(self).wf(),
            final(self)@ == noted(old(self)@, update@),
    {
        match update {
            LiveUpdate::Changed { path, size, mtime, .. } => {
                let next = match self.targets.get(path.as_str()) {
                    Some(t) => {
                        let mut n = copy_target(t);
                        n.size = *size;
                        n.mtime = *mtime;
                        Some(n)
                    },
                    None => None,
                };
                match next {
                    Some(n) => {
                        self.targets.insert(path.clone(), n);
                    },
                    None => {},
                }
            },
            _ => {},
        }
    }

    /// An update found by the sweep goes out: an event right behind it must
    /// not repeat the same answer a moment later.
    pub fn swept(&mut self, update: &LiveUpdate, now: u64)
        requires
            old(self).wf(),
        ensures
            final(self).wf(),
            final(self)@ == noted(
                StateView {
                    last_emit: old(self)@.last_emit.insert(update_path(update@), now),
                    ..old(self)@
                },
                update@,
            ),
    {
        self.last_emit.insert(string_of(update.path()), now);
        self.note_emitted(update);
    }

    /// The update for a decision. `disk` is the size and modified time of the
    /// file at the path, where there is a regular one; `window` what re-cutting
    /// its body gave, which counts only for a row that displays one.
    pub fn apply(
        &mut self,
        path: String,
        op: Op,
        disk: Option<(u64, i64)>,
        window: WindowUpdate,
        sep: Separator,
    ) -> (r: LiveUpdate)
        requires
            old(self).wf(),
        ensures
            final(self).wf(),
            r@ == update_for(old(self)@, path@, op@, disk, window@, sep),
            final(self)@ == noted(old(self)@, r@),
    {
        let update = match op {
            Op::Gone => LiveUpdate::Gone { path },
            Op::Renamed(to) => {
                let name = match path_file_name(to.as_str(), sep) {
                    Some(n) => n,
                    None => String::new(),
                };
                LiveUpdate::Renamed { path, to, name }
            },
            Op::Changed => match disk {
                Some((size, mtime)) => {
                    let tier = self.tier(path.as_str());
                    changed_update(path, tier, size, mtime, window)
                },
                None => LiveUpdate::Gone { path },
            },
        };
        self.note_emitted(&update);
        update
    }
}

/// The update for a decision.
pub open spec fn update_for(
    s: StateView,
    path: Seq<char>,
    op: OpView,
    disk: Option<(u64, i64)>,
    window: WindowView,
    sep: Separator,
) -> UpdateView {
    match op {
        OpView::Gone => UpdateView::Gone { path },
        OpView::Renamed(to) => UpdateView::Renamed {
            path,
            to,
            name: match file_name(to, sep) {
                Some(n) => n,
                None => seq![],
            },
        },
        OpView::Changed => match disk {
            Some((size, mtime)) => UpdateView::Changed {
                path,
                size,
                mtime,
                window: if s.targets.contains_key(path) && s.targets[path].text is Some {
                    window
                } else {
                    WindowView::Unchanged
                },
            },
            None => UpdateView::Gone { path },
        },
    }
}

/// A state once the frontend was told of an update.
pub open spec fn noted(s: StateView, update: UpdateView) -> StateView {
    match update {
        UpdateView::Changed { path, size, mtime, .. } => if s.targets.contains_key(path) {
            StateView {
                targets: s.targets.insert(
                    path,
                    TargetView { size, mtime, ..s.targets[path] },
                ),
                ..s
            }
        } else {
            s
        },
        _ => s,
    }
}

/// The update for a file that is there. A row without body text keeps its
/// window.
pub fn changed_update(
    path: String,
    text: Option<ContentTier>,
    size: u64,
    mtime: i64,
    window: WindowUpdate,
) -> (r: LiveUpdate)
    ensures
        r@ == (UpdateView::Changed {
            path: path@,
            size,
            mtime,
            window: if text is Some {
                window@
            } else {
                WindowView::Unchanged
            },
        }),
{
    let window = match text {
        Some(_) => window,
        None => WindowUpdate::Unchanged,
    };
    LiveUpdate::Changed { path, size, mtime, window }
}

/// What a row's file looks like next to the row.
#[derive(Debug, Clone, Copy, PartialEq, Eq, Structural)]
pub enum Swept {
    Same,
    Changed { size: u64, mtime: i64 },
    Gone,
}

/// What a sweep finds of a row.
pub open spec fn found(target: TargetView, disk: Option<(u64, i64)>) -> Swept {
    match disk {
        None => Swept::Gone,
        Some((size, mtime)) => if size == target.size && mtime == target.mtime {
            Swept::Same
        } else {
            Swept::Changed { size, mtime }
        },
    }
}

/// Compare a row against the disk. `disk` is the size and modified time of the
/// file, where there is a regular one.
pub fn sweep_target(target: &Target, disk: Option<(u64, i64)>) -> (r: Swept)
    ensures
        r == found(target@, disk),
{
    match disk {
        None => Swept::Gone,
        Some((size, mtime)) => {
            if size == target.size && mtime == target.mtime {
                Swept::Same
            } else {
                Swept::Changed { size, mtime }
            }
        },
    }
}

/// What cutting a body against the query gave.
#[derive(Debug)]
pub enum BodyCut {
    /// The exact matcher's window, unmarked where nothing matched.
    Exact(Option<Snippet>),
    Fuzzy(Option<Snippet>),
    /// The term does not fuzz; the row cannot be re-judged.
    Unfuzzable,
}

/// A [`BodyCut`] as the window it leads to.
pub open spec fn cut_window(cut: BodyCut) -> WindowView {
    match cut {
        BodyCut::Exact(Some(s)) => if s@.ranges.len() > 0 {
            WindowView::Cut(s@)
        } else {
            WindowView::NoMatch
        },
        BodyCut::Exact(None) => WindowView::NoMatch,
        BodyCut::Fuzzy(Some(s)) => WindowView::Cut(s@),
        BodyCut::Fuzzy(None) => WindowView::NoMatch,
        BodyCut::Unfuzzable => WindowView::Unchanged,
    }
}

/// Re-cut a row's window from what its file holds now. `armed` is whether
/// there is a query to cut against; `outcome` what the indexer's own
/// extraction gave, nothing where the file could not be read.
pub fn window_from_disk(
    armed: bool,
    size: u64,
    config: &Config,
    outcome: Option<&ContentOutcome>,
    cut: BodyCut,
) -> (r: WindowUpdate)
    ensures
        r@ == (if armed && size <= config.processing.maximum_text_file_size && outcome is Some
            && outcome->Some_0@ is Done {
            cut_window(cut)
        } else {
            WindowView::Unchanged
        }),
{
    // The indexer would not have stored text for a file larger than this.
    if !armed || size > config.processing.maximum_text_file_size {
        return WindowUpdate::Unchanged;
    }
    let body = match outcome {
        Some(o) => outcome_body(o),
        None => None,
    };
    if body.is_none() {
        return WindowUpdate::Unchanged;
    }
    match cut {
        BodyCut::Exact(Some(s)) => {
            if s.ranges.len() > 0 {
                WindowUpdate::Cut(s)
            } else {
                WindowUpdate::NoMatch
            }
        },
        BodyCut::Exact(None) => WindowUpdate::NoMatch,
        BodyCut::Fuzzy(Some(s)) => WindowUpdate::Cut(s),
        BodyCut::Fuzzy(None) => WindowUpdate::NoMatch,
        BodyCut::Unfuzzable => WindowUpdate::Unchanged,
    }
}

/// Whether a directory is among some, by its components.
pub open spec fn listed(dirs: Seq<Seq<char>>, dir: Seq<char>, sep: Separator) -> bool {
    exists|i: int| 0 <= i < dirs.len() && same_dir(#[trigger] dirs[i], dir, sep)
}

/// Whether two spellings are one directory.
pub open spec fn same_dir(a: Seq<char>, b: Seq<char>, sep: Separator) -> bool {
    under(a, b, sep) && under(b, a, sep)
}

/// Pointing the watcher at a new set of rows: each row's directory is watched
/// first, and a row whose directory cannot be is left alone rather than
/// corrected once and silently frozen.
#[derive(Debug)]
pub struct Arming {
    targets: Vec<Target>,
    at: usize,
    dirs: Vec<String>,
    sep: Separator,
}

/// An [`Arming`] by its contents.
pub struct ArmingView {
    pub targets: Seq<TargetView>,
    pub at: int,
    pub dirs: Seq<Seq<char>>,
    pub sep: Separator,
}

impl View for Arming {
    type V = ArmingView;

    closed spec fn view(&self) -> ArmingView {
        ArmingView {
            targets: self.targets@.map_values(|t: Target| t@),
            at: self.at as int,
            dirs: spellings(self.dirs@),
            sep: self.sep,
        }
    }
}

/// How many rows are considered.
pub open spec fn considered(targets: Seq<TargetView>) -> int {
    if targets.len() < MAX_TARGETS {
        targets.len() as int
    } else {
        MAX_TARGETS as int
    }
}

/// Go through the rows to the next directory to watch: where the scan stands,
/// the rows watched by then, and the directory.
pub open spec fn arm_scan(
    targets: Seq<TargetView>,
    at: int,
    dirs: Seq<Seq<char>>,
    shown: Map<Seq<char>, TargetView>,
    sep: Separator,
) -> (int, Map<Seq<char>, TargetView>, Option<Seq<char>>)
    decreases considered(targets) - at,
{
    if at >= considered(targets) {
        (at, shown, None)
    } else {
        let t = targets[at];
        match parent(t.path, sep) {
            None => arm_scan(targets, at + 1, dirs, shown, sep),
            Some(d) => if listed(dirs, d, sep) {
                arm_scan(targets, at + 1, dirs, shown.insert(t.path, t), sep)
            } else if dirs.len() >= MAX_DIRS {
                arm_scan(targets, at + 1, dirs, shown, sep)
            } else {
                (at, shown, Some(d))
            },
        }
    }
}

impl Arming {
    /// No more directories are watched than may be.
    pub open spec fn wf(&self) -> bool {
        &&& self@.dirs.len() <= MAX_DIRS
        &&& 0 <= self@.at <= considered(self@.targets)
    }

    /// Begin with these rows.
    pub fn new(targets: Vec<Target>, sep: Separator) -> (r: Arming)
        ensures
            r.wf(),
            r@ == (ArmingView {
                targets: targets@.map_values(|t: Target| t@),
                at: 0,
                dirs: seq![],
                sep,
            }),
    {
        let r = Arming { targets, at: 0, dirs: Vec::new(), sep };
        assert(r@.dirs =~= seq![]);
        r
    }

    fn watches(&self, dir: &str) -> (r: bool)
        ensures
            r == listed(self@.dirs, dir@, self@.sep),
    {
        let mut i: usize = 0;
        while i < self.dirs.len()
            invariant
                i <= self.dirs@.len(),
                forall|j: int|
                    0 <= j < i ==> !same_dir(#[trigger] spellings(self.dirs@)[j], dir@, self.sep),
            decreases self.dirs@.len() - i,
        {
            assert(spellings(self.dirs@)[i as int] == self.dirs@[i as int]@);
            let known = self.dirs[i].as_str();
            if path_under(known, dir, self.sep) && path_under(dir, known, self.sep) {
                return true;
            }
            i += 1;
        }
        false
    }

    /// The next directory to watch, or nothing where every row was gone
    /// through. Rows whose directory is watched already join `state`.
    pub fn next(&mut self, state: &mut LiveState) -> (r: Option<String>)
        requires
            old(self).wf(),
            old(state).wf(),
        ensures
            final(self).wf(),
            final(state).wf(),
            ({
                let scan = arm_scan(
                    old(self)@.targets,
                    old(self)@.at,
                    old(self)@.dirs,
                    old(state)@.targets,
                    old(self)@.sep,
                );
                &&& final(self)@ == (ArmingView { at: scan.0, ..old(self)@ })
                &&& final(state)@ == (StateView { targets: scan.1, ..old(state)@ })
                &&& maybe(r) == scan.2
            }),
    {
        let ghost rows = self@.targets;
        let ghost dirs = self@.dirs;
        let ghost scan = arm_scan(rows, self@.at, dirs, state@.targets, self.sep);
        let ghost s0 = state@;
        while self.at < self.targets.len() && self.at < MAX_TARGETS
            invariant
                self.wf(),
                state.wf(),
                rows == self@.targets,
                dirs == self@.dirs,
                scan == arm_scan(rows, self.at as int, dirs, state@.targets, self.sep),
                self.sep == old(self).sep,
                state@ == (StateView { targets: state@.targets, ..s0 }),
                self.targets@.len() == rows.len(),
                rows == old(self)@.targets,
                dirs == old(self)@.dirs,
                s0 == old(state)@,
                scan == arm_scan(
                    old(self)@.targets,
                    old(self)@.at,
                    old(self)@.dirs,
                    old(state)@.targets,
                    old(self)@.sep,
                ),
            decreases self.targets@.len() - self.at,
        {
            let target = &self.targets[self.at];
            assert(rows[self.at as int] == target@);
            match path_parent(target.path.as_str(), self.sep) {
                None => {},
                Some(dir) => {
                    if self.watches(dir.as_str()) {
                        let row = copy_target(&self.targets[self.at]);
                        state.add(row);
                    } else if self.dirs.len() < MAX_DIRS {
                        return Some(dir);
                    }
                },
            }
            self.at = self.at + 1;
        }
        None
    }

    /// Whether the directory that [`Arming::next`] gave is watched now. Where
    /// it is, the row it was asked for joins `state`.
    pub fn watched(&mut self, state: &mut LiveState, ok: bool)
        requires
            old(self).wf(),
            old(state).wf(),
            old(self)@.at < considered(old(self)@.targets),
            old(self)@.dirs.len() < MAX_DIRS,
        ensures
            final(self).wf(),
            final(state).wf(),
            ({
                let t = old(self)@.targets[old(self)@.at];
                match parent(t.path, old(self)@.sep) {
                    Some(d) if ok => {
                        &&& final(self)@ == (ArmingView {
                            at: old(self)@.at + 1,
                            dirs: old(self)@.dirs.push(d),
                            ..old(self)@
                        })
                        &&& final(state)@ == (StateView {
                            targets: old(state)@.targets.insert(t.path, t),
                            ..old(state)@
                        })
                    },
                    _ => {
                        &&& final(self)@ == (ArmingView { at: old(self)@.at + 1, ..old(self)@ })
                        &&& final(state)@ == old(state)@
                    },
                }
            }),
    {
        let ghost rows = self@.targets;
        let ghost before = self.dirs@;
        if ok {
            let target = &self.targets[self.at];
            assert(rows[self.at as int] == target@);
            match path_parent(target.path.as_str(), self.sep) {
                Some(dir) => {
                    let row = copy_target(&self.targets[self.at]);
                    state.add(row);
                    self.dirs.push(dir);
                    assert(spellings(self.dirs@) =~= spellings(before).push(dir@));
                },
                None => {},
            }
        }
        self.at = self.at + 1;
    }
}

/// Live results never add rows: after an event, a decision is about a row that
/// had one before or that is on screen.
pub proof fn live_results_never_add_rows(
    kind: EventKind,
    paths: Seq<Option<Seq<char>>>,
    shown: Map<Seq<char>, TargetView>,
    d: Decided,
    k: Seq<char>,
)
    requires
        classified(kind, paths, shown, d).pending.contains_key(k),
    ensures
        d.pending.contains_key(k) || shown.contains_key(k),
    decreases paths.len(),
{
    if kind != EventKind::RenameBoth && paths.len() > 0 {
        let before = fold_paths(kind, paths.drop_last(), shown, d);
        if before.pending.contains_key(k) {
            live_results_never_add_rows(kind, paths.drop_last(), shown, d, k);
        }
    }
}

/// Whether a decision for a row is another one than before, or a new one.
pub open spec fn redecided(
    before: Map<Seq<char>, OpView>,
    after: Map<Seq<char>, OpView>,
    k: Seq<char>,
) -> bool {
    after.contains_key(k) && !(before.contains_key(k) && before[k] == after[k])
}

/// An event decides only about the rows that it names, and where it renames
/// one, it names the new path too. It takes no decision back. The destinations
/// that it adds are paths that it names and that no row on screen has.
pub proof fn an_event_decides_only_what_it_names(
    kind: EventKind,
    paths: Seq<Option<Seq<char>>>,
    shown: Map<Seq<char>, TargetView>,
    d: Decided,
    k: Seq<char>,
)
    ensures
        ({
            let after = classified(kind, paths, shown, d);
            &&& d.pending.contains_key(k) ==> after.pending.contains_key(k)
            &&& redecided(d.pending, after.pending, k) ==> {
                &&& shown.contains_key(k)
                &&& paths.contains(Some(k))
                &&& after.pending[k] matches OpView::Renamed(to) ==> paths.contains(Some(to))
            }
            &&& d.orphans.len() <= after.orphans.len()
            &&& after.orphans.take(d.orphans.len() as int) == d.orphans
            &&& forall|i: int|
                d.orphans.len() <= i < after.orphans.len() ==> paths.contains(
                    Some(#[trigger] after.orphans[i]),
                ) && !shown.contains_key(after.orphans[i])
        }),
    decreases paths.len(),
{
    let after = classified(kind, paths, shown, d);
    assert(d.orphans.take(d.orphans.len() as int) =~= d.orphans);
    if kind == EventKind::RenameBoth {
        if paths.len() >= 2 {
            assert(paths.contains(paths[0]));
            assert(paths.contains(paths[1]));
        }
    } else if paths.len() > 0 {
        let front = paths.drop_last();
        let before = fold_paths(kind, front, shown, d);
        an_event_decides_only_what_it_names(kind, front, shown, d, k);
        assert(paths.contains(paths[paths.len() - 1]));
        assert forall|x: Option<Seq<char>>| front.contains(x) implies paths.contains(x) by {
            let i = choose|i: int| 0 <= i < front.len() && front[i] == x;
            assert(paths[i] == x);
        }
        assert(after.orphans.take(d.orphans.len() as int) =~= before.orphans.take(
            d.orphans.len() as int,
        ));
        assert forall|i: int| d.orphans.len() <= i < after.orphans.len() implies paths.contains(
            Some(#[trigger] after.orphans[i]),
        ) && !shown.contains_key(after.orphans[i]) by {
            if i < before.orphans.len() {
                assert(after.orphans[i] == before.orphans[i]);
            }
        }
    }
}

/// An event whose paths the index cannot spell decides nothing.
pub proof fn an_unspellable_event_decides_nothing(
    kind: EventKind,
    paths: Seq<Option<Seq<char>>>,
    shown: Map<Seq<char>, TargetView>,
    d: Decided,
)
    requires
        forall|i: int| 0 <= i < paths.len() ==> #[trigger] paths[i] is None,
    ensures
        classified(kind, paths, shown, d) == d,
    decreases paths.len(),
{
    if kind != EventKind::RenameBoth && paths.len() > 0 {
        assert(paths.last() == paths[paths.len() - 1]);
        assert forall|i: int| 0 <= i < paths.drop_last().len() implies #[trigger] paths.drop_last()[i] is None by {
            assert(paths.drop_last()[i] == paths[i]);
        }
        an_unspellable_event_decides_nothing(kind, paths.drop_last(), shown, d);
    }
}

/// The decisions after an event with one path.
proof fn lemma_one_path(
    kind: EventKind,
    path: Option<Seq<char>>,
    shown: Map<Seq<char>, TargetView>,
    d: Decided,
)
    requires
        kind != EventKind::RenameBoth,
    ensures
        classified(kind, seq![path], shown, d) == fold_path(kind, path, shown, d),
{
    assert(seq![path].drop_last() =~= seq![]);
    reveal_with_fuel(fold_paths, 2);
}

/// What a row's last event says is what is decided: a row that was created,
/// modified or renamed into place has changed, one that was removed is gone, and
/// one that is the departing half of a rename is gone unless something was
/// decided for it before. This holds wherever among the paths of the event the
/// row stands. An arrival that is no row on screen is kept as a destination.
pub proof fn an_event_decides_for_every_row_it_names(
    kind: EventKind,
    paths: Seq<Option<Seq<char>>>,
    shown: Map<Seq<char>, TargetView>,
    d: Decided,
    k: Seq<char>,
)
    requires
        kind != EventKind::RenameBoth,
        kind != EventKind::Other,
        paths.contains(Some(k)),
    ensures
        ({
            let after = classified(kind, paths, shown, d);
            if shown.contains_key(k) {
                &&& after.pending.contains_key(k)
                &&& kind == EventKind::Create || kind == EventKind::Modify || kind
                    == EventKind::RenameTo ==> after.pending[k] is Changed
                &&& kind == EventKind::Remove ==> after.pending[k] is Gone
                &&& kind == EventKind::RenameFrom ==> if d.pending.contains_key(k) {
                    after.pending[k] == d.pending[k]
                } else {
                    after.pending[k] is Gone
                }
            } else {
                kind == EventKind::RenameTo ==> after.orphans.contains(k)
            }
        }),
    decreases paths.len(),
{
    let front = paths.drop_last();
    let before = fold_paths(kind, front, shown, d);
    let after = classified(kind, paths, shown, d);
    let i = choose|i: int| 0 <= i < paths.len() && paths[i] == Some(k);
    if front.contains(Some(k)) {
        an_event_decides_for_every_row_it_names(kind, front, shown, d, k);
        if before.orphans.contains(k) {
            let j = choose|j: int| 0 <= j < before.orphans.len() && before.orphans[j] == k;
            assert(after.orphans[j] == k);
        }
    } else {
        if i < front.len() {
            assert(front[i] == Some(k));
        }
        lemma_unnamed(kind, front, shown, d, k);
        if !shown.contains_key(k) && kind == EventKind::RenameTo {
            assert(after.orphans[before.orphans.len() as int] == k);
        }
    }
}

/// An event leaves a row alone that it does not name.
proof fn lemma_unnamed(
    kind: EventKind,
    paths: Seq<Option<Seq<char>>>,
    shown: Map<Seq<char>, TargetView>,
    d: Decided,
    k: Seq<char>,
)
    requires
        !paths.contains(Some(k)),
    ensures
        ({
            let after = fold_paths(kind, paths, shown, d);
            &&& after.pending.contains_key(k) == d.pending.contains_key(k)
            &&& d.pending.contains_key(k) ==> after.pending[k] == d.pending[k]
        }),
    decreases paths.len(),
{
    if paths.len() > 0 {
        let front = paths.drop_last();
        assert(paths[paths.len() - 1] == paths.last());
        if front.contains(Some(k)) {
            let i = choose|i: int| 0 <= i < front.len() && front[i] == Some(k);
            assert(paths[i] == Some(k));
        }
        lemma_unnamed(kind, front, shown, d, k);
    }
}

/// A rename with both its ends moves the row at its source, wherever it went: to
/// the destination where that can be spelled, and out of sight where it cannot.
/// Where the source is no row on screen, the row at the destination has changed.
/// Nothing else is decided, and an event that says nothing decides nothing.
pub proof fn a_whole_rename_moves_its_row(
    from: Option<Seq<char>>,
    to: Option<Seq<char>>,
    shown: Map<Seq<char>, TargetView>,
    d: Decided,
    k: Seq<char>,
    paths: Seq<Option<Seq<char>>>,
)
    ensures
        ({
            let after = classified(EventKind::RenameBoth, seq![from, to], shown, d);
            &&& (from matches Some(f) && shown.contains_key(f)) ==> after.pending.contains_key(
                from->Some_0,
            ) && after.pending[from->Some_0] == (match to {
                Some(t) => OpView::Renamed(t),
                None => OpView::Gone,
            })
            &&& !(from matches Some(f) && shown.contains_key(f)) && (to matches Some(t)
                && shown.contains_key(t)) ==> after.pending.contains_key(to->Some_0)
                && after.pending[to->Some_0] is Changed
            &&& after.orphans == d.orphans
            &&& Some(k) != from && Some(k) != to ==> !redecided(d.pending, after.pending, k)
        }),
        classified(EventKind::Other, paths, shown, d) == d,
    decreases paths.len(),
{
    if paths.len() > 0 {
        a_whole_rename_moves_its_row(from, to, shown, d, k, paths.drop_last());
    }
}

/// A rename of a row that is reported by halves and then whole is decided as a
/// rename: the provisional departure does not escape the window.
pub proof fn a_whole_rename_overrides_its_halves(
    from: Seq<char>,
    to: Seq<char>,
    shown: Map<Seq<char>, TargetView>,
    d: Decided,
)
    requires
        shown.contains_key(from),
    ensures
        ({
            let a = classified(EventKind::RenameFrom, seq![Some(from)], shown, d);
            let b = classified(EventKind::RenameTo, seq![Some(to)], shown, a);
            let c = classified(EventKind::RenameBoth, seq![Some(from), Some(to)], shown, b);
            c.pending.contains_key(from) && c.pending[from] == OpView::Renamed(to)
        }),
{
}

/// A temporary file renamed over a row reads as a change of the row, however
/// the halves are reported.
pub proof fn an_atomic_save_reads_as_a_change(
    temporary: Seq<char>,
    row: Seq<char>,
    shown: Map<Seq<char>, TargetView>,
    d: Decided,
)
    requires
        shown.contains_key(row),
        !shown.contains_key(temporary),
    ensures
        ({
            let a = classified(EventKind::RenameFrom, seq![Some(temporary)], shown, d);
            let b = classified(EventKind::RenameTo, seq![Some(row)], shown, a);
            let c = classified(EventKind::RenameBoth, seq![Some(temporary), Some(row)], shown, b);
            &&& b.pending == d.pending.insert(row, OpView::Changed)
            &&& c.pending == b.pending
        }),
{
    lemma_one_path(EventKind::RenameFrom, Some(temporary), shown, d);
    let a = classified(EventKind::RenameFrom, seq![Some(temporary)], shown, d);
    lemma_one_path(EventKind::RenameTo, Some(row), shown, a);
    let b = classified(EventKind::RenameTo, seq![Some(row)], shown, a);
    assert(b.pending.insert(row, OpView::Changed) =~= b.pending);
}

/// A rename reported by halves alone is paired by elimination, where it is the
/// only departure and the only arrival of its window.
pub proof fn split_halves_pair_by_elimination(
    from: Seq<char>,
    to: Seq<char>,
    shown: Map<Seq<char>, TargetView>,
)
    requires
        shown.contains_key(from),
        !shown.contains_key(to),
    ensures
        ({
            let d = Decided { pending: Map::empty(), orphans: seq![] };
            let a = classified(EventKind::RenameFrom, seq![Some(from)], shown, d);
            let b = classified(EventKind::RenameTo, seq![Some(to)], shown, a);
            paired(b.pending, b.orphans) == Map::<Seq<char>, OpView>::empty().insert(
                from,
                OpView::Renamed(to),
            )
        }),
{
    let d = Decided { pending: Map::empty(), orphans: seq![] };
    lemma_one_path(EventKind::RenameFrom, Some(from), shown, d);
    let a = classified(EventKind::RenameFrom, seq![Some(from)], shown, d);
    lemma_one_path(EventKind::RenameTo, Some(to), shown, a);
    let b = classified(EventKind::RenameTo, seq![Some(to)], shown, a);
    assert(only_gone(b.pending, from));
    assert(b.orphans =~= seq![to]);
    assert(paired(b.pending, b.orphans) =~= Map::<Seq<char>, OpView>::empty().insert(
        from,
        OpView::Renamed(to),
    ));
}

/// Pairing concerns the one row that is gone, where there is one arrival that no
/// row claims: that row is renamed to the arrival. Every other decision stays, no
/// row is added or taken away, and without exactly one arrival nothing changes.
pub proof fn only_the_one_departure_is_paired(
    m: Map<Seq<char>, OpView>,
    orphans: Seq<Seq<char>>,
    k: Seq<char>,
)
    ensures
        paired(m, orphans).dom() == m.dom(),
        m.contains_key(k) && m[k] !is Gone ==> paired(m, orphans)[k] == m[k],
        orphans.len() != 1 ==> paired(m, orphans) == m,
        orphans.len() == 1 && m.contains_key(k) && m[k] is Gone && (forall|j: Seq<char>|
            j != k && #[trigger] m.contains_key(j) ==> m[j] !is Gone) ==> paired(m, orphans)[k]
            == OpView::Renamed(orphans[0]),
{
    if orphans.len() == 1 && exists|j: Seq<char>| only_gone(m, j) {
        let j = choose|j: Seq<char>| only_gone(m, j);
        assert(paired(m, orphans).dom() =~= m.dom());
        if m.contains_key(k) && m[k] is Gone {
            assert(j == k);
        }
    } else if orphans.len() == 1 && m.contains_key(k) && m[k] is Gone && (forall|j: Seq<char>|
        j != k && #[trigger] m.contains_key(j) ==> m[j] !is Gone) {
        assert(only_gone(m, k));
    }
}

/// Two rows gone in one window are never paired with an arrival: guessing
/// wrong would rename a row to someone else's file.
pub proof fn an_ambiguous_window_pairs_nothing(
    m: Map<Seq<char>, OpView>,
    a: Seq<char>,
    b: Seq<char>,
    orphans: Seq<Seq<char>>,
)
    requires
        a != b,
        m.contains_key(a),
        m[a] is Gone,
        m.contains_key(b),
        m[b] is Gone,
    ensures
        paired(m, orphans) == m,
{
    assert forall|k: Seq<char>| !only_gone(m, k) by {
        if only_gone(m, k) {
            assert(a == k);
            assert(b == k);
        }
    }
}

/// A sweep says nothing about a row only where the row agrees with the disk in
/// both its size and its modified time. Where the file is there and either
/// differs, the answer carries the size and the modified time found on disk, and
/// where it is not there the row is gone.
pub proof fn a_sweep_is_silent_only_where_row_and_disk_agree(
    target: TargetView,
    size: u64,
    mtime: i64,
)
    ensures
        found(target, Some((size, mtime))) is Same <==> target.size == size && target.mtime
            == mtime,
        target.size != size || target.mtime != mtime ==> found(target, Some((size, mtime)))
            == (Swept::Changed { size, mtime }),
        found(target, None) is Gone,
        found(target, Some((size, mtime))) !is Gone,
{
}

/// An update is about the row that was decided on, and says what the disk says.
/// Where a decision of a change is applied, the row comes to agree with the disk:
/// a sweep against the same file finds nothing more. A window is re-cut for a row
/// that displays one, and no other row is touched.
pub proof fn an_applied_change_agrees_with_the_disk(
    s: StateView,
    path: Seq<char>,
    op: OpView,
    disk: Option<(u64, i64)>,
    window: WindowView,
    sep: Separator,
    other: Seq<char>,
)
    requires
        s.targets.contains_key(path),
        other != path,
    ensures
        ({
            let u = update_for(s, path, op, disk, window, sep);
            let t = noted(s, u).targets;
            &&& update_path(u) == path
            &&& t.dom() == s.targets.dom()
            &&& s.targets.contains_key(other) ==> t[other] == s.targets[other]
            &&& t[path].path == s.targets[path].path
            &&& t[path].text == s.targets[path].text
            &&& op is Changed && disk is Some ==> u is Changed && found(t[path], disk) is Same
            &&& u is Gone <==> op is Gone || (op is Changed && disk is None)
            &&& u matches UpdateView::Changed { window: w, .. } ==> w == (if s.targets[path].text is Some {
                window
            } else {
                WindowView::Unchanged
            })
            &&& op matches OpView::Renamed(to) ==> (u matches UpdateView::Renamed {
                to: at,
                name,
                ..
            } && at == to && file_name(to, sep) == (if file_name(to, sep) is Some {
                Some(name)
            } else {
                None
            }))
        }),
{
    let u = update_for(s, path, op, disk, window, sep);
    assert(noted(s, u).targets.dom() =~= s.targets.dom());
}

/// A row shows a cut only where the matcher found something in the body, and
/// loses its cut only where the matcher looked and found nothing; a body that
/// cannot be judged leaves the row as it is.
pub proof fn a_cut_is_shown_only_for_a_match(cut: BodyCut, s: Snippet)
    ensures
        cut == BodyCut::Exact(Some(s)) ==> cut_window(cut) == (if s@.ranges.len() == 0 {
            WindowView::NoMatch
        } else {
            WindowView::Cut(s@)
        }),
        cut == BodyCut::Fuzzy(Some(s)) ==> cut_window(cut) == WindowView::Cut(s@),
        cut_window(cut) is Unchanged <==> cut is Unfuzzable,
        cut == BodyCut::Exact(None) || cut == BodyCut::Fuzzy(None) ==> cut_window(cut) is NoMatch,
{
}

/// An event that leaves anything to decide arms the window, to settle 150
/// milliseconds after it where none was armed; the rows on screen stay.
pub proof fn an_event_arms_its_window(
    s: StateView,
    kind: EventKind,
    paths: Seq<Option<Seq<char>>>,
    now: u64,
)
    requires
        now + SETTLE <= u64::MAX,
    ensures
        ({
            let t = after_event(s, kind, paths, now);
            &&& t.targets == s.targets
            &&& t.pending.dom().len() > 0 || t.orphans.len() > 0 ==> t.settle_at is Some
            &&& s.settle_at is None && t.settle_at is Some ==> t.settle_at->Some_0 == now + 150
            &&& s.settle_at is Some ==> t.settle_at == s.settle_at
        }),
{
    let t = after_event(s, kind, paths, now);
    if t.pending == Map::<Seq<char>, OpView>::empty() {
        assert(t.pending.dom() =~= Set::<Seq<char>>::empty());
    }
}

/// A flush hands out nothing before its window has settled, and no row twice
/// within 750 milliseconds. A row it hands out is stamped with the time and no
/// longer pending; a row it does not hand out keeps its decision and its stamp.
/// What is left over arms another window. The rows on screen stay.
pub proof fn a_flush_paces_each_row(
    s: StateView,
    now: u64,
    r: Seq<(Seq<char>, OpView)>,
    after: StateView,
    k: Seq<char>,
)
    requires
        now + SETTLE <= u64::MAX,
        flushed(s, now, r, after),
    ensures
        after.targets == s.targets,
        s.settle_at is None || now < s.settle_at->Some_0 ==> r.len() == 0 && after == s,
        answers(r, k) ==> {
            &&& s.settle_at is Some
            &&& now >= s.settle_at->Some_0
            &&& s.last_emit.contains_key(k) ==> now >= s.last_emit[k] + 750
            &&& after.last_emit.contains_key(k)
            &&& after.last_emit[k] == now
            &&& !after.pending.contains_key(k)
        },
        !answers(r, k) ==> {
            &&& after.last_emit.contains_key(k) == s.last_emit.contains_key(k)
            &&& s.last_emit.contains_key(k) ==> after.last_emit[k] == s.last_emit[k]
            &&& s.pending.contains_key(k) ==> after.pending.contains_key(k)
        },
        after.pending.contains_key(k) ==> after.settle_at is Some || after == s,
{
    match s.settle_at {
        Some(at) if now >= at => {
            let decided = paired(s.pending, s.orphans);
            lemma_without(decided, r, k);
            only_the_one_departure_is_paired(s.pending, s.orphans, k);
            assert(decided.contains_key(k) == s.pending.contains_key(k)) by {
                assert(decided.dom().contains(k) == s.pending.dom().contains(k));
            }
            if answers(r, k) {
                lemma_stamped_in(s.last_emit, r, now, k);
                let i = choose|i: int| 0 <= i < r.len() && #[trigger] r[i].0 == k;
                assert(due(s.last_emit, r[i].0, now));
            } else {
                lemma_stamped(s.last_emit, r, now, k);
            }
        },
        _ => {},
    }
}

proof fn lemma_stamped_in(
    m: Map<Seq<char>, u64>,
    r: Seq<(Seq<char>, OpView)>,
    now: u64,
    k: Seq<char>,
)
    requires
        answers(r, k),
    ensures
        stamped(m, r, now).contains_key(k),
        stamped(m, r, now)[k] == now,
    decreases r.len(),
{
    let i = choose|i: int| 0 <= i < r.len() && #[trigger] r[i].0 == k;
    if r.last().0 != k {
        let front = r.drop_last();
        assert(front[i].0 == k);
        lemma_stamped_in(m, front, now, k);
    }
}

/// A scan for the next directory watches exactly the rows whose directory is
/// watched: each such row that it passes joins, and no other. It passes a row
/// whose directory is not watched only where no further directory may be. It
/// stops at the first row whose directory is to be watched, and considers no more
/// than 256 rows and 64 directories.
pub proof fn a_scan_watches_the_rows_of_watched_directories(
    targets: Seq<TargetView>,
    at: int,
    dirs: Seq<Seq<char>>,
    shown: Map<Seq<char>, TargetView>,
    sep: Separator,
    k: Seq<char>,
)
    requires
        0 <= at,
    ensures
        ({
            let (end, rows, dir) = arm_scan(targets, at, dirs, shown, sep);
            &&& at <= end
            &&& shown.contains_key(k) ==> rows.contains_key(k)
            &&& rows.contains_key(k) && !shown.contains_key(k) ==> exists|i: int|
                {
                    &&& at <= i < end
                    &&& i < targets.len()
                    &&& (#[trigger] targets[i]).path == k
                    &&& parent(k, sep) is Some
                    &&& listed(dirs, parent(k, sep)->Some_0, sep)
                }
            &&& forall|i: int|
                at <= i < end && i < targets.len() ==> {
                    let home = parent((#[trigger] targets[i]).path, sep);
                    &&& i < 256
                    &&& home is Some && listed(dirs, home->Some_0, sep) ==> rows.contains_key(
                        targets[i].path,
                    )
                    &&& home is Some && !listed(dirs, home->Some_0, sep) ==> dirs.len() >= 64
                }
            &&& match dir {
                Some(d) => {
                    &&& end < targets.len()
                    &&& end < 256
                    &&& dirs.len() < 64
                    &&& parent(targets[end].path, sep) == Some(d)
                    &&& !listed(dirs, d, sep)
                },
                None => end >= targets.len() || end >= 256,
            }
        }),
    decreases considered(targets) - at,
{
    if at < considered(targets) {
        let t = targets[at];
        match parent(t.path, sep) {
            None => {
                a_scan_watches_the_rows_of_watched_directories(
                    targets,
                    at + 1,
                    dirs,
                    shown,
                    sep,
                    k,
                );
            },
            Some(d) => if listed(dirs, d, sep) {
                let next = shown.insert(t.path, t);
                a_scan_watches_the_rows_of_watched_directories(targets, at + 1, dirs, next, sep, k);
                a_scan_watches_the_rows_of_watched_directories(
                    targets,
                    at + 1,
                    dirs,
                    next,
                    sep,
                    t.path,
                );
                if !shown.contains_key(k) && t.path == k {
                    assert(targets[at].path == k);
                }
            } else if dirs.len() >= MAX_DIRS {
                a_scan_watches_the_rows_of_watched_directories(
                    targets,
                    at + 1,
                    dirs,
                    shown,
                    sep,
                    k,
                );
            },
        }
    }
}

/// What the frontend was told of a row, a sweep does not tell again: as long as
/// the file stays so, it finds nothing.
pub proof fn a_sweep_does_not_repeat_itself(
    s: StateView,
    path: Seq<char>,
    size: u64,
    mtime: i64,
    window: WindowView,
)
    requires
        s.targets.contains_key(path),
    ensures
        ({
            let t = noted(s, UpdateView::Changed { path, size, mtime, window }).targets;
            &&& t.contains_key(path)
            &&& t[path].path == s.targets[path].path
            &&& t[path].text == s.targets[path].text
            &&& found(t[path], Some((size, mtime))) == Swept::Same
        }),
{
}

proof fn lemma_without(m: Map<Seq<char>, OpView>, r: Seq<(Seq<char>, OpView)>, k: Seq<char>)
    ensures
        without(m, r).contains_key(k) <==> m.contains_key(k) && !exists|i: int|
            0 <= i < r.len() && #[trigger] r[i].0 == k,
        without(m, r).contains_key(k) ==> without(m, r)[k] == m[k],
    decreases r.len(),
{
    if r.len() > 0 {
        let before = r.drop_last();
        lemma_without(m, before, k);
        if k == r.last().0 {
            assert(r[r.len() - 1].0 == k);
        } else if exists|i: int| 0 <= i < r.len() && #[trigger] r[i].0 == k {
            let i = choose|i: int| 0 <= i < r.len() && #[trigger] r[i].0 == k;
            assert(before[i].0 == k);
        } else {
            assert(forall|i: int| 0 <= i < before.len() ==> #[trigger] before[i].0 == r[i].0);
        }
    }
}

/// No decision is lost: a settled window hands a decision out or keeps it for
/// the next one, unchanged.
pub proof fn no_decision_is_lost(
    r: Seq<(Seq<char>, OpView)>,
    pending: Map<Seq<char>, OpView>,
    last_emit: Map<Seq<char>, u64>,
    now: u64,
    k: Seq<char>,
)
    requires
        taken_up(r, pending, last_emit, now),
        pending.contains_key(k),
    ensures
        (exists|i: int| 0 <= i < r.len() && #[trigger] r[i] == (k, pending[k])) || (without(
            pending,
            r,
        ).contains_key(k) && without(pending, r)[k] == pending[k]),
{
    lemma_without(pending, r, k);
    if exists|i: int| 0 <= i < r.len() && #[trigger] r[i].0 == k {
        let i = choose|i: int| 0 <= i < r.len() && #[trigger] r[i].0 == k;
        assert(r[i] == (k, pending[k]));
    }
}

/// A row that is due is answered by the first window that settles, however many
/// rows the window holds.
pub proof fn a_settled_row_is_answered(
    r: Seq<(Seq<char>, OpView)>,
    pending: Map<Seq<char>, OpView>,
    last_emit: Map<Seq<char>, u64>,
    now: u64,
    k: Seq<char>,
)
    requires
        taken_up(r, pending, last_emit, now),
        pending.contains_key(k),
        due(last_emit, k, now),
    ensures
        exists|i: int| 0 <= i < r.len() && #[trigger] r[i] == (k, pending[k]),
{
    let i = choose|i: int| 0 <= i < r.len() && #[trigger] r[i].0 == k;
    assert(r[i] == (k, pending[k]));
}

/// Whether what is pending for a row stays so from one state to another: a
/// decision for it, the window that is armed, and when it was last updated.
pub open spec fn waits_on(from: StateView, to: StateView, k: Seq<char>) -> bool {
    &&& from.pending.contains_key(k) ==> to.pending.contains_key(k)
    &&& from.settle_at is Some ==> to.settle_at == from.settle_at
    &&& to.last_emit == from.last_emit
}

/// What comes between two flushes puts no row off: neither an event nor an
/// update that goes out.
pub proof fn nothing_puts_a_row_off(
    s: StateView,
    kind: EventKind,
    paths: Seq<Option<Seq<char>>>,
    now: u64,
    update: UpdateView,
    k: Seq<char>,
)
    ensures
        waits_on(s, after_event(s, kind, paths, now), k),
        waits_on(s, noted(s, update), k),
{
    an_event_decides_only_what_it_names(
        kind,
        paths,
        s.targets,
        Decided { pending: s.pending, orphans: s.orphans },
        k,
    );
}

proof fn lemma_stamped(
    m: Map<Seq<char>, u64>,
    r: Seq<(Seq<char>, OpView)>,
    now: u64,
    k: Seq<char>,
)
    requires
        !exists|i: int| 0 <= i < r.len() && #[trigger] r[i].0 == k,
    ensures
        stamped(m, r, now).contains_key(k) == m.contains_key(k),
        stamped(m, r, now)[k] == m[k],
    decreases r.len(),
{
    if r.len() > 0 {
        let front = r.drop_last();
        assert(r[r.len() - 1].0 != k);
        assert forall|i: int| 0 <= i < front.len() implies #[trigger] front[i].0 != k by {
            assert(front[i] == r[i]);
        }
        lemma_stamped(m, front, now, k);
    }
}

/// Whether these decisions are about a row, among others.
pub open spec fn answers(r: Seq<(Seq<char>, OpView)>, k: Seq<char>) -> bool {
    exists|i: int| 0 <= i < r.len() && #[trigger] r[i].0 == k
}

/// Whether a row waits for a window that is armed to settle soon enough.
spec fn waiting(s: StateView, t: int, k: Seq<char>) -> bool {
    &&& s.pending.contains_key(k)
    &&& s.settle_at is Some
    &&& s.settle_at->Some_0 < t + MIN_INTERVAL + SETTLE
    &&& s.last_emit.contains_key(k) ==> s.last_emit[k] <= t
}

/// A flush answers the row, or leaves it waiting; it answers it once the row is
/// due and the window has settled.
proof fn lemma_flush(
    s: StateView,
    now: u64,
    r: Seq<(Seq<char>, OpView)>,
    after: StateView,
    t: int,
    k: Seq<char>,
)
    requires
        now + SETTLE <= u64::MAX,
        flushed(s, now, r, after),
        waiting(s, t, k),
    ensures
        answers(r, k) || waiting(after, t, k),
        now >= t + MIN_INTERVAL + SETTLE ==> answers(r, k),
{
    if now >= s.settle_at->Some_0 {
        let decided = paired(s.pending, s.orphans);
        assert(decided.contains_key(k));
        if now >= t + MIN_INTERVAL {
            a_settled_row_is_answered(r, decided, s.last_emit, now, k);
            let i = choose|i: int| 0 <= i < r.len() && #[trigger] r[i] == (k, decided[k]);
            assert(r[i].0 == k);
        } else if !answers(r, k) {
            lemma_without(decided, r, k);
            lemma_stamped(s.last_emit, r, now, k);
        }
    }
}

/// The rows on screen follow their files within a second. Say a row got a
/// decision at the time `t`, and the state is flushed every tick from there on,
/// whatever comes between. Then one of the flushes in the second that follows
/// hands a decision for the row out, however many rows got one, and although a
/// row that was just updated has to wait.
pub proof fn a_row_is_answered_within_a_second(
    t: int,
    k: Seq<char>,
    times: Seq<u64>,
    before: Seq<StateView>,
    handed_out: Seq<Seq<(Seq<char>, OpView)>>,
    after: Seq<StateView>,
)
    requires
        times.len() > 0,
        before.len() == times.len(),
        handed_out.len() == times.len(),
        after.len() == times.len(),
        before[0].pending.contains_key(k),
        before[0].settle_at is Some,
        before[0].settle_at->Some_0 <= t + SETTLE,
        before[0].last_emit.contains_key(k) ==> before[0].last_emit[k] <= t,
        times[0] <= t + TICK,
        forall|i: int|
            0 < i < times.len() ==> times[i - 1] <= #[trigger] times[i] <= times[i - 1] + TICK,
        times.last() >= t + 1000 - TICK,
        times.last() + SETTLE <= u64::MAX,
        forall|i: int|
            0 <= i < times.len() ==> flushed(
                #[trigger] before[i],
                times[i],
                handed_out[i],
                after[i],
            ),
        forall|i: int|
            0 < i < times.len() ==> waits_on(after[i - 1], #[trigger] before[i], k),
    ensures
        exists|j: int|
            0 <= j < times.len() && times[j] <= t + 1000 && answers(#[trigger] handed_out[j], k),
{
    lemma_answered_from(t, k, times, before, handed_out, after, 0);
}

/// Flush times do not decrease.
proof fn lemma_in_order(times: Seq<u64>, i: int, j: int)
    requires
        0 <= i <= j < times.len(),
        forall|i: int| 0 < i < times.len() ==> times[i - 1] <= #[trigger] times[i],
    ensures
        times[i] <= times[j],
    decreases j - i,
{
    if i < j {
        lemma_in_order(times, i, j - 1);
    }
}

/// The row is answered by the flushes from `i` on, where it still waits.
proof fn lemma_answered_from(
    t: int,
    k: Seq<char>,
    times: Seq<u64>,
    before: Seq<StateView>,
    handed_out: Seq<Seq<(Seq<char>, OpView)>>,
    after: Seq<StateView>,
    i: int,
)
    requires
        0 <= i < times.len(),
        before.len() == times.len(),
        handed_out.len() == times.len(),
        after.len() == times.len(),
        waiting(before[i], t, k),
        times[i] <= t + 1000 - TICK,
        forall|i: int|
            0 < i < times.len() ==> times[i - 1] <= #[trigger] times[i] <= times[i - 1] + TICK,
        times.last() >= t + 1000 - TICK,
        times.last() + SETTLE <= u64::MAX,
        forall|i: int|
            0 <= i < times.len() ==> flushed(
                #[trigger] before[i],
                times[i],
                handed_out[i],
                after[i],
            ),
        forall|i: int|
            0 < i < times.len() ==> waits_on(after[i - 1], #[trigger] before[i], k),
    ensures
        exists|j: int|
            0 <= j < times.len() && times[j] <= t + 1000 && answers(#[trigger] handed_out[j], k),
    decreases times.len() - i,
{
    lemma_in_order(times, i, times.len() - 1);
    lemma_flush(before[i], times[i], handed_out[i], after[i], t, k);
    if answers(handed_out[i], k) {
        assert(times[i] <= t + 1000);
    } else {
        assert(times[i] < t + MIN_INTERVAL + SETTLE);
        assert(i + 1 < times.len());
        assert(times[i + 1] <= times[i] + TICK);
        assert(waits_on(after[i], before[i + 1], k));
        lemma_answered_from(t, k, times, before, handed_out, after, i + 1);
    }
}

/// Two spellings are one directory exactly where they have the same components.
pub proof fn a_directory_is_its_components(a: Seq<char>, b: Seq<char>, sep: Separator)
    ensures
        same_dir(a, b, sep) <==> crate::parts::components(a, sep) == crate::parts::components(
            b,
            sep,
        ),
        same_dir(a, b, sep) <==> same_dir(b, a, sep),
{
    let x = crate::parts::components(a, sep);
    let y = crate::parts::components(b, sep);
    assert(x.take(x.len() as int) =~= x);
    assert(y.take(y.len() as int) =~= y);
}

/// A directory is listed exactly where one of the spellings is of it, whichever.
pub proof fn any_spelling_lists_a_directory(
    dirs: Seq<Seq<char>>,
    other: Seq<char>,
    dir: Seq<char>,
    sep: Separator,
)
    ensures
        !listed(seq![], dir, sep),
        listed(dirs.push(other), dir, sep) <==> listed(dirs, dir, sep) || same_dir(
            other,
            dir,
            sep,
        ),
{
    let more = dirs.push(other);
    if listed(dirs, dir, sep) {
        let i = choose|i: int| 0 <= i < dirs.len() && same_dir(#[trigger] dirs[i], dir, sep);
        assert(more[i] == dirs[i]);
    }
    if same_dir(other, dir, sep) {
        assert(more[dirs.len() as int] == other);
    }
    if listed(more, dir, sep) {
        let i = choose|i: int| 0 <= i < more.len() && same_dir(#[trigger] more[i], dir, sep);
        if i < dirs.len() {
            assert(dirs[i] == more[i]);
        }
    }
}

/// A row is due again a whole interval after its last update, and not before; one
/// that was never updated is due at once.
pub proof fn a_row_is_due_after_an_interval(
    last: Map<Seq<char>, u64>,
    k: Seq<char>,
    at: u64,
    now: u64,
)
    ensures
        due(last.insert(k, at), k, now) <==> now - at >= MIN_INTERVAL,
        due(last.remove(k), k, now),
{
}

} // verus!
