//! The stored-config fingerprint: recording what an index was built under, and
//! validating a later configuration against it.
//!
//! The record is a table from setting to value; reading and writing it happens
//! outside this crate.
use super::progress::ReconcileProgress;
use super::status::{ConfigChange, IndexingService};
use crate::config::Config;
use crate::keyed::Keyed;
use crate::text::{
    decimal, decimal_string, maybe, push_decimal, push_str, same, sort_texts, sorted, texts,
};
use vstd::prelude::*;

verus! {

/// Lines joined by newlines.
pub open spec fn lines(v: Seq<Seq<char>>) -> Seq<char>
    decreases v.len(),
{
    if v.len() == 0 {
        seq![]
    } else if v.len() == 1 {
        v[0]
    } else {
        lines(v.drop_last()) + "\n"@ + v.last()
    }
}

fn join_lines(v: &Vec<String>) -> (r: String)
    ensures
        r@ == lines(texts(v@)),
{
    let ghost all = texts(v@);
    let mut r = String::new();
    let mut i: usize = 0;
    assert(all.take(0) =~= seq![]);
    while i < v.len()
        invariant
            i <= v@.len(),
            all == texts(v@),
            r@ == lines(all.take(i as int)),
        decreases v@.len() - i,
    {
        let ghost so_far = r@;
        proof {
            let t = all.take(i + 1);
            assert(t.drop_last() =~= all.take(i as int));
            assert(t.last() == v@[i as int]@);
        }
        if i > 0 {
            push_str(&mut r, "\n");
        }
        push_str(&mut r, v[i].as_str());
        proof {
            if i == 0 {
                assert(so_far =~= seq![]);
                assert(r@ =~= v@[0]@);
            }
        }
        i += 1;
    }
    assert(all.take(all.len() as int) =~= all);
    r
}

/// A list's record: its values in order, one per line.
pub open spec fn list_record(v: Seq<Seq<char>>) -> Seq<char> {
    lines(sorted(v))
}

fn sorted_joined(v: &Vec<String>) -> (r: String)
    ensures
        r@ == list_record(texts(v@)),
{
    join_lines(&sort_texts(v))
}

/// Reordering a list is no change of its record.
pub proof fn a_list_is_recorded_without_its_order(a: Seq<Seq<char>>, b: Seq<Seq<char>>)
    requires
        a.to_multiset() == b.to_multiset(),
    ensures
        list_record(a) == list_record(b),
{
    crate::text::sorting_forgets_the_order(a, b);
}

pub open spec fn bool_text(b: bool) -> Seq<char> {
    if b {
        "true"@
    } else {
        "false"@
    }
}

fn bool_string(b: bool) -> (r: String)
    ensures
        r@ == bool_text(b),
{
    if b {
        "true".to_owned()
    } else {
        "false".to_owned()
    }
}

/// One recorded setting: its key and its value.
pub type EntryView = (Seq<char>, Seq<char>);

/// The settings an index is built under, with their current values. List
/// values are in order; the roots arrive canonicalized.
pub open spec fn entries(config: Config, roots: Seq<Seq<char>>) -> Seq<EntryView> {
    seq![
        ("hash_length"@, decimal(config.processing.hash_length as nat)),
        ("hash_algorithm"@, "size+head"@),
        ("indexing_path"@, list_record(roots)),
        ("tokenize"@, config.processing.tokenize@),
        ("include_hidden"@, bool_text(config.indexing.include_hidden)),
        ("follow_symlinks"@, bool_text(config.indexing.follow_symlinks)),
        ("ignore_patterns"@, list_record(texts(config.indexing.ignore_patterns@))),
        ("content_extensions"@, list_record(texts(config.indexing.content_extensions@))),
        ("store_text_for_snippets"@, bool_text(config.processing.store_text_for_snippets)),
    ]
}

/// Settings by their contents.
pub open spec fn entries_view(v: Seq<(String, String)>) -> Seq<EntryView> {
    v.map_values(|e: (String, String)| (e.0@, e.1@))
}

/// The settings an index is built under, paired with their current values. One
/// list drives the record, the comparison and the reconstruction, so they
/// cannot drift.
pub fn config_validation_entries(config: &Config, roots: &Vec<String>) -> (r: Vec<
    (String, String),
>)
    ensures
        entries_view(r@) == entries(*config, texts(roots@)),
{
    let mut r: Vec<(String, String)> = Vec::new();
    r.push(("hash_length".to_owned(), decimal_string(config.processing.hash_length as u64)));
    // To be changed whenever the digest's input changes, so that existing
    // indexes are offered a rebuild instead of silently mixing hash schemes.
    r.push(("hash_algorithm".to_owned(), "size+head".to_owned()));
    r.push(("indexing_path".to_owned(), sorted_joined(roots)));
    r.push(("tokenize".to_owned(), config.processing.tokenize.clone()));
    r.push(("include_hidden".to_owned(), bool_string(config.indexing.include_hidden)));
    // Decides whether link targets are in the index at all.
    r.push(("follow_symlinks".to_owned(), bool_string(config.indexing.follow_symlinks)));
    r.push(("ignore_patterns".to_owned(), sorted_joined(&config.indexing.ignore_patterns)));
    r.push(("content_extensions".to_owned(), sorted_joined(&config.indexing.content_extensions)));
    r.push(
        (
            "store_text_for_snippets".to_owned(),
            bool_string(config.processing.store_text_for_snippets),
        ),
    );
    assert(entries_view(r@) =~= entries(*config, texts(roots@)));
    r
}

/// Whether a difference in a setting cannot be reconciled: the tokenizer is
/// part of the table definition, and a hash written under another length or
/// algorithm cannot be compared with a new one.
pub open spec fn needs_rebuild(key: Seq<char>) -> bool {
    key == "hash_length"@ || key == "hash_algorithm"@ || key == "tokenize"@
}

fn is_rebuild_key(key: &str) -> (r: bool)
    ensures
        r == needs_rebuild(key@),
{
    same(key, "hash_length") || same(key, "hash_algorithm") || same(key, "tokenize")
}

/// A [`ConfigChange`] by its contents.
pub struct ChangeView {
    pub key: Seq<char>,
    pub stored: Seq<char>,
    pub current: Seq<char>,
}

impl View for ConfigChange {
    type V = ChangeView;

    open spec fn view(&self) -> ChangeView {
        ChangeView { key: self.key@, stored: self.stored@, current: self.current@ }
    }
}

/// The settings whose record differs and cannot be reconciled. One without a
/// record, of an older index, never counts as changed.
pub open spec fn changes(e: Seq<EntryView>, stored: Map<Seq<char>, Seq<char>>) -> Seq<ChangeView>
    decreases e.len(),
{
    if e.len() == 0 {
        seq![]
    } else {
        let front = changes(e.drop_last(), stored);
        let (key, current) = e.last();
        if needs_rebuild(key) && stored.contains_key(key) && stored[key] != current {
            front.push(ChangeView { key, stored: stored[key], current })
        } else {
            front
        }
    }
}

/// The changes by their contents.
pub open spec fn changes_view(v: Seq<ConfigChange>) -> Seq<ChangeView> {
    v.map_values(|c: ConfigChange| c@)
}

/// The settings the index was built under that no longer match and cannot be
/// reconciled: the list a rebuild prompt shows. `None` when there are none.
pub fn validate_config(stored: &Keyed<String>, config: &Config, roots: &Vec<String>) -> (r: Option<
    Vec<ConfigChange>,
>)
    requires
        stored.wf(),
    ensures
        ({
            let c = changes(entries(*config, texts(roots@)), stored@);
            match r {
                Some(v) => c.len() > 0 && changes_view(v@) == c,
                None => c.len() == 0,
            }
        }),
{
    let all = config_validation_entries(config, roots);
    let ghost e = entries_view(all@);
    let mut found: Vec<ConfigChange> = Vec::new();
    let mut i: usize = 0;
    assert(e.take(0) =~= seq![]);
    assert(changes_view(found@) =~= seq![]);
    while i < all.len()
        invariant
            i <= all@.len(),
            stored.wf(),
            e == entries_view(all@),
            changes_view(found@) == changes(e.take(i as int), stored@),
        decreases all@.len() - i,
    {
        proof {
            let t = e.take(i + 1);
            assert(t.drop_last() =~= e.take(i as int));
            assert(t.last() == (all@[i as int].0@, all@[i as int].1@));
        }
        let key = all[i].0.as_str();
        if is_rebuild_key(key) {
            match stored.get(key) {
                Some(s) => {
                    if !same(s.as_str(), all[i].1.as_str()) {
                        let ghost before = changes_view(found@);
                        let change = ConfigChange {
                            key: all[i].0.clone(),
                            stored: s.clone(),
                            current: all[i].1.clone(),
                        };
                        found.push(change);
                        assert(changes_view(found@) =~= before.push(change@));
                    }
                },
                None => {},
            }
        }
        i += 1;
    }
    assert(e.take(e.len() as int) =~= e);
    assert(changes_view(found@).len() == found@.len());
    if found.len() == 0 {
        None
    } else {
        Some(found)
    }
}

impl IndexingService {
    /// Whether the configuration asks for a rebuild. There is nothing to validate
    /// where the index is missing or cannot be read.
    pub fn check_config_validation(
        &self,
        stored: Option<&Keyed<String>>,
        config: &Config,
        roots: &Vec<String>,
    ) -> (r: Option<Vec<ConfigChange>>)
        requires
            stored is Some ==> stored->Some_0.wf(),
        ensures
            match (stored, r) {
                (None, None) => true,
                (None, Some(_)) => false,
                (Some(s), Some(v)) => changes(entries(*config, texts(roots@)), s@).len() > 0
                    && changes_view(v@) == changes(entries(*config, texts(roots@)), s@),
                (Some(s), None) => changes(entries(*config, texts(roots@)), s@).len() == 0,
            },
    {
        match stored {
            Some(s) => validate_config(s, config, roots),
            None => None,
        }
    }
}

/// The settings a scan can satisfy.
pub open spec fn reconcilable(e: Seq<EntryView>) -> Seq<EntryView>
    decreases e.len(),
{
    if e.len() == 0 {
        seq![]
    } else if needs_rebuild(e.last().0) {
        reconcilable(e.drop_last())
    } else {
        reconcilable(e.drop_last()).push(e.last())
    }
}

/// The settings to record once a reconciliation has brought the index into
/// line with them: all but the ones that a scan cannot satisfy, for recording
/// those would clear a rebuild prompt that was declined.
pub fn stamp_reconciled(config: &Config, roots: &Vec<String>) -> (r: Vec<(String, String)>)
    ensures
        entries_view(r@) == reconcilable(entries(*config, texts(roots@))),
{
    let all = config_validation_entries(config, roots);
    let ghost e = entries_view(all@);
    let mut r: Vec<(String, String)> = Vec::new();
    let mut i: usize = 0;
    assert(e.take(0) =~= seq![]);
    assert(entries_view(r@) =~= seq![]);
    while i < all.len()
        invariant
            i <= all@.len(),
            e == entries_view(all@),
            entries_view(r@) == reconcilable(e.take(i as int)),
        decreases all@.len() - i,
    {
        proof {
            let t = e.take(i + 1);
            assert(t.drop_last() =~= e.take(i as int));
            assert(t.last() == (all@[i as int].0@, all@[i as int].1@));
        }
        if !is_rebuild_key(all[i].0.as_str()) {
            let ghost before = entries_view(r@);
            let entry = (all[i].0.clone(), all[i].1.clone());
            r.push(entry);
            assert(entries_view(r@) =~= before.push((entry.0@, entry.1@)));
        }
        i += 1;
    }
    assert(e.take(e.len() as int) =~= e);
    r
}

/// A record once these settings are stamped on it.
pub open spec fn stamped(m: Map<Seq<char>, Seq<char>>, e: Seq<EntryView>) -> Map<
    Seq<char>,
    Seq<char>,
>
    decreases e.len(),
{
    if e.len() == 0 {
        m
    } else {
        stamped(m, e.drop_last()).insert(e.last().0, e.last().1)
    }
}

/// A setting that was not stamped keeps its record.
proof fn lemma_stamped_other(m: Map<Seq<char>, Seq<char>>, e: Seq<EntryView>, key: Seq<char>)
    requires
        forall|i: int| 0 <= i < e.len() ==> (#[trigger] e[i]).0 != key,
    ensures
        stamped(m, e).contains_key(key) == m.contains_key(key),
        stamped(m, e).contains_key(key) ==> stamped(m, e)[key] == m[key],
    decreases e.len(),
{
    if e.len() > 0 {
        assert(e.last() == e[e.len() - 1]);
        assert forall|i: int| 0 <= i < e.drop_last().len() implies (#[trigger] e.drop_last()[i]).0
            != key by {
            assert(e.drop_last()[i] == e[i]);
        }
        lemma_stamped_other(m, e.drop_last(), key);
    }
}

/// The last stamp of a setting is what its record says.
proof fn lemma_stamped_last(m: Map<Seq<char>, Seq<char>>, e: Seq<EntryView>, at: int)
    requires
        0 <= at < e.len(),
        forall|i: int| at < i < e.len() ==> (#[trigger] e[i]).0 != e[at].0,
    ensures
        stamped(m, e).contains_key(e[at].0),
        stamped(m, e)[e[at].0] == e[at].1,
    decreases e.len(),
{
    if at < e.len() - 1 {
        assert(e[e.len() - 1].0 != e[at].0);
        let front = e.drop_last();
        assert(front[at] == e[at]);
        assert forall|i: int| at < i < front.len() implies (#[trigger] front[i]).0 != front[at].0 by {
            assert(front[i] == e[i]);
        }
        lemma_stamped_last(m, front, at);
    }
}

/// No change is found where every record of a setting that needs a rebuild is
/// the current value.
proof fn lemma_no_changes(e: Seq<EntryView>, stored: Map<Seq<char>, Seq<char>>)
    requires
        forall|i: int|
            0 <= i < e.len() && needs_rebuild((#[trigger] e[i]).0) && stored.contains_key(e[i].0)
                ==> stored[e[i].0] == e[i].1,
    ensures
        changes(e, stored) == Seq::<ChangeView>::empty(),
    decreases e.len(),
{
    if e.len() > 0 {
        let front = e.drop_last();
        assert(e.last() == e[e.len() - 1]);
        assert forall|i: int|
            0 <= i < front.len() && needs_rebuild((#[trigger] front[i]).0) && stored.contains_key(
                front[i].0,
            ) implies stored[front[i].0] == front[i].1 by {
            assert(front[i] == e[i]);
        }
        lemma_no_changes(front, stored);
    }
}

/// What is found depends on the records of the settings that need a rebuild.
proof fn lemma_same_changes(
    e: Seq<EntryView>,
    a: Map<Seq<char>, Seq<char>>,
    b: Map<Seq<char>, Seq<char>>,
)
    requires
        forall|k: Seq<char>| #[trigger] needs_rebuild(k) ==> a.contains_key(k) == b.contains_key(k)
            && (a.contains_key(k) ==> a[k] == b[k]),
    ensures
        changes(e, a) == changes(e, b),
    decreases e.len(),
{
    if e.len() > 0 {
        lemma_same_changes(e.drop_last(), a, b);
        assert(needs_rebuild(e.last().0) == needs_rebuild(e.last().0));
    }
}

/// The keys are distinct.
proof fn lemma_keys(config: Config, roots: Seq<Seq<char>>)
    ensures
        forall|i: int, j: int|
            0 <= i < j < 9 ==> (#[trigger] entries(config, roots)[i]).0 != (
            #[trigger] entries(config, roots)[j]).0,
{
    reveal_strlit("hash_length");
    reveal_strlit("hash_algorithm");
    reveal_strlit("indexing_path");
    reveal_strlit("tokenize");
    reveal_strlit("include_hidden");
    reveal_strlit("follow_symlinks");
    reveal_strlit("ignore_patterns");
    reveal_strlit("content_extensions");
    reveal_strlit("store_text_for_snippets");
    let e = entries(config, roots);
    assert("hash_algorithm"@[0] != "include_hidden"@[0]);
    assert("follow_symlinks"@[0] != "ignore_patterns"@[0]);
    assert forall|i: int, j: int| 0 <= i < j < 9 implies (#[trigger] e[i]).0 != (#[trigger] e[j]).0 by {
        assert(e[0].0.len() == 11);
        assert(e[1].0.len() == 14);
        assert(e[2].0.len() == 13);
        assert(e[3].0.len() == 8);
        assert(e[4].0.len() == 14);
        assert(e[5].0.len() == 15);
        assert(e[6].0.len() == 15);
        assert(e[7].0.len() == 18);
        assert(e[8].0.len() == 23);
    }
}

/// An index stamped with a configuration asks for no rebuild under it.
pub proof fn a_stamped_index_validates(
    m: Map<Seq<char>, Seq<char>>,
    config: Config,
    roots: Seq<Seq<char>>,
)
    ensures
        changes(entries(config, roots), stamped(m, entries(config, roots)))
            == Seq::<ChangeView>::empty(),
{
    let e = entries(config, roots);
    lemma_keys(config, roots);
    assert forall|i: int| 0 <= i < e.len() implies stamped(m, e)[(#[trigger] e[i]).0] == e[i].1 by {
        assert forall|j: int| i < j < e.len() implies (#[trigger] e[j]).0 != e[i].0 by {}
        lemma_stamped_last(m, e, i);
    }
    lemma_no_changes(e, stamped(m, e));
}

/// A reconciliation's stamp clears no rebuild prompt: what asked for a rebuild
/// before it still does.
pub proof fn a_reconciliation_keeps_the_rebuild_prompt(
    m: Map<Seq<char>, Seq<char>>,
    config: Config,
    roots: Seq<Seq<char>>,
)
    ensures
        changes(
            entries(config, roots),
            stamped(m, reconcilable(entries(config, roots))),
        ) == changes(entries(config, roots), m),
{
    let e = entries(config, roots);
    let r = reconcilable(e);
    lemma_reconcilable(e);
    assert forall|k: Seq<char>| #[trigger] needs_rebuild(k) implies stamped(m, r).contains_key(k)
        == m.contains_key(k) && (stamped(m, r).contains_key(k) ==> stamped(m, r)[k] == m[k]) by {
        lemma_stamped_other(m, r, k);
    }
    lemma_same_changes(e, stamped(m, r), m);
}

proof fn lemma_reconcilable(e: Seq<EntryView>)
    ensures
        forall|i: int|
            0 <= i < reconcilable(e).len() ==> !needs_rebuild((#[trigger] reconcilable(e)[i]).0),
    decreases e.len(),
{
    if e.len() > 0 {
        lemma_reconcilable(e.drop_last());
        let front = reconcilable(e.drop_last());
        assert forall|i: int| 0 <= i < reconcilable(e).len() implies !needs_rebuild(
            (#[trigger] reconcilable(e)[i]).0,
        ) by {
            if i < front.len() {
                assert(reconcilable(e)[i] == front[i]);
            }
        }
    }
}

/// What a reconciliation does next.
#[derive(Debug)]
pub enum ReconcileStep {
    /// Advance by one slice, then publish how far it got.
    Slice,
    /// It was cut short, and nothing may be recorded as reconciled. The line
    /// to log.
    Interrupted(String),
    /// It is finished, with the line to log where anything changed.
    Finished(Option<String>),
    Failed(String),
}

/// The line for a reconciliation that was cut short.
pub open spec fn interrupted_line(examined: nat) -> Seq<char> {
    "configuration reconcile interrupted after "@ + decimal(examined)
        + " index entries; the next run starts it again"@
}

fn interrupted(examined: usize) -> (r: String)
    ensures
        r@ == interrupted_line(examined as nat),
{
    let mut line = "configuration reconcile interrupted after ".to_owned();
    push_decimal(&mut line, examined as u64);
    push_str(&mut line, " index entries; the next run starts it again");
    line
}

/// The line for a reconciliation that changed something.
pub open spec fn finished_line(p: ReconcileProgress) -> Option<Seq<char>> {
    if p.deleted > 0 || p.recontented > 0 {
        Some(
            "configuration changed since the last run: "@ + decimal(p.deleted as nat)
                + " index entries removed, "@ + decimal(p.recontented as nat)
                + " re-examined for text extraction"@,
        )
    } else {
        None
    }
}

fn finished(p: ReconcileProgress) -> (r: Option<String>)
    ensures
        maybe(r) == finished_line(p),
{
    if p.deleted > 0 || p.recontented > 0 {
        let mut line = "configuration changed since the last run: ".to_owned();
        push_decimal(&mut line, p.deleted as u64);
        push_str(&mut line, " index entries removed, ");
        push_decimal(&mut line, p.recontented as u64);
        push_str(&mut line, " re-examined for text extraction");
        Some(line)
    } else {
        None
    }
}

/// What to do before a slice. A finished reconciliation is finished whatever
/// the stop flag says.
pub fn reconcile_next(done: bool, stop: bool, progress: ReconcileProgress) -> (r: ReconcileStep)
    ensures
        match r {
            ReconcileStep::Slice => !done && !stop,
            ReconcileStep::Interrupted(line) => !done && stop && line@ == interrupted_line(
                progress.examined as nat,
            ),
            ReconcileStep::Finished(line) => done && maybe(line) == finished_line(progress),
            ReconcileStep::Failed(_) => false,
        },
{
    if done {
        ReconcileStep::Finished(finished(progress))
    } else if stop {
        ReconcileStep::Interrupted(interrupted(progress.examined))
    } else {
        ReconcileStep::Slice
    }
}

/// What to do after a slice, by what it gave: nothing where it went well. An
/// interrupted statement fails like any other, so the flag is asked, not the
/// message: a stopped run is not an error.
pub fn reconcile_outcome(
    outcome: Result<(), String>,
    stop: bool,
    progress: ReconcileProgress,
) -> (r: Option<ReconcileStep>)
    ensures
        match (r, outcome) {
            (None, Ok(())) => true,
            (Some(ReconcileStep::Interrupted(line)), Err(_)) => stop && line@ == interrupted_line(
                progress.examined as nat,
            ),
            (Some(ReconcileStep::Failed(e)), Err(x)) => !stop && e@ == x@,
            _ => false,
        },
{
    match outcome {
        Ok(()) => None,
        Err(e) => {
            if stop {
                Some(ReconcileStep::Interrupted(interrupted(progress.examined)))
            } else {
                Some(ReconcileStep::Failed(e))
            }
        },
    }
}

/// Whether no text of a list holds a line break.
pub open spec fn unbroken(v: Seq<Seq<char>>) -> bool {
    forall|i: int, j: int|
        #![trigger v[i][j]]
        0 <= i < v.len() && 0 <= j < v[i].len() ==> v[i][j] != '\n'
}

/// Two lists of unbroken texts that are joined to the same lines are the same.
pub proof fn joined_lines_tell_lists_apart(a: Seq<Seq<char>>, b: Seq<Seq<char>>)
    requires
        unbroken(a),
        unbroken(b),
        a.len() > 0,
        b.len() > 0,
        lines(a) == lines(b),
    ensures
        a == b,
    decreases a.len(),
{
    reveal_strlit("\n");
    let s = lines(a);
    let x = a.last();
    let y = b.last();
    assert forall|j: int| 0 <= j < x.len() implies x[j] != '\n' by {
        assert(a[a.len() - 1][j] != '\n');
    }
    assert forall|j: int| 0 <= j < y.len() implies y[j] != '\n' by {
        assert(b[b.len() - 1][j] != '\n');
    }
    if a.len() > 1 {
        assert(s[s.len() - x.len() - 1] == '\n');
        assert(s.skip(s.len() - x.len()) =~= x);
    } else {
        assert(s == x);
    }
    if b.len() > 1 {
        assert(s[s.len() - y.len() - 1] == '\n');
        assert(s.skip(s.len() - y.len()) =~= y);
    } else {
        assert(s == y);
    }
    if x.len() < y.len() && a.len() > 1 {
        assert(s[s.len() - x.len() - 1] == y[y.len() - x.len() - 1]);
    }
    if y.len() < x.len() && b.len() > 1 {
        assert(s[s.len() - y.len() - 1] == x[x.len() - y.len() - 1]);
    }
    assert(x.len() == y.len());
    assert(x == y);
    if a.len() > 1 {
        assert(b.len() > 1);
        let fa = a.drop_last();
        let fb = b.drop_last();
        assert(lines(fa) =~= s.take(s.len() - x.len() - 1));
        assert(lines(fb) =~= s.take(s.len() - x.len() - 1));
        assert forall|i: int, j: int|
            #![trigger fa[i][j]]
            0 <= i < fa.len() && 0 <= j < fa[i].len() implies fa[i][j] != '\n' by {
            assert(a[i][j] != '\n');
        }
        assert forall|i: int, j: int|
            #![trigger fb[i][j]]
            0 <= i < fb.len() && 0 <= j < fb[i].len() implies fb[i][j] != '\n' by {
            assert(b[i][j] != '\n');
        }
        joined_lines_tell_lists_apart(fa, fb);
        assert(a =~= fa.push(x));
        assert(b =~= fb.push(y));
    } else {
        assert(b.len() == 1);
        assert(a =~= seq![x]);
        assert(b =~= seq![y]);
    }
}

proof fn lemma_sorted_unbroken(v: Seq<Seq<char>>)
    requires
        unbroken(v),
    ensures
        unbroken(sorted(v)),
{
    crate::text::sorting_keeps_every_text(v);
    v.to_multiset_ensures();
    sorted(v).to_multiset_ensures();
    assert forall|i: int, j: int|
        #![trigger sorted(v)[i][j]]
        0 <= i < sorted(v).len() && 0 <= j < sorted(v)[i].len() implies sorted(v)[i][j]
        != '\n' by {
        let x = sorted(v)[i];
        assert(sorted(v).contains(x));
        assert(sorted(v).to_multiset().count(x) > 0);
        assert(v.contains(x));
        let k = choose|k: int| 0 <= k < v.len() && v[k] == x;
        assert(v[k][j] != '\n');
    }
}

/// Two lists have one record only where they hold the same texts, each as often.
pub proof fn a_record_tells_lists_apart(a: Seq<Seq<char>>, b: Seq<Seq<char>>)
    requires
        unbroken(a),
        unbroken(b),
        a.len() > 0,
        b.len() > 0,
        list_record(a) == list_record(b),
    ensures
        a.to_multiset() == b.to_multiset(),
{
    crate::text::sorting_keeps_every_text(a);
    crate::text::sorting_keeps_every_text(b);
    lemma_sorted_unbroken(a);
    lemma_sorted_unbroken(b);
    joined_lines_tell_lists_apart(sorted(a), sorted(b));
}

/// The record of an index says, under each setting's name, what the setting was.
pub proof fn a_record_says_its_settings(
    m: Map<Seq<char>, Seq<char>>,
    config: Config,
    roots: Seq<Seq<char>>,
)
    ensures
        ({
            let s = stamped(m, entries(config, roots));
            &&& s.contains_key("hash_length"@) && s["hash_length"@] == decimal(
                config.processing.hash_length as nat,
            )
            &&& s.contains_key("hash_algorithm"@) && s["hash_algorithm"@] == "size+head"@
            &&& s.contains_key("indexing_path"@) && s["indexing_path"@] == list_record(roots)
            &&& s.contains_key("tokenize"@) && s["tokenize"@] == config.processing.tokenize@
            &&& s.contains_key("include_hidden"@) && (s["include_hidden"@] == "true"@
                <==> config.indexing.include_hidden) && (s["include_hidden"@] == "false"@
                <==> !config.indexing.include_hidden)
            &&& s.contains_key("follow_symlinks"@) && (s["follow_symlinks"@] == "true"@
                <==> config.indexing.follow_symlinks) && (s["follow_symlinks"@] == "false"@
                <==> !config.indexing.follow_symlinks)
            &&& s.contains_key("ignore_patterns"@) && s["ignore_patterns"@] == list_record(
                texts(config.indexing.ignore_patterns@),
            )
            &&& s.contains_key("content_extensions"@) && s["content_extensions"@] == list_record(
                texts(config.indexing.content_extensions@),
            )
            &&& s.contains_key("store_text_for_snippets"@) && (s["store_text_for_snippets"@]
                == "true"@ <==> config.processing.store_text_for_snippets) && (
            s["store_text_for_snippets"@] == "false"@
                <==> !config.processing.store_text_for_snippets)
        }),
{
    let e = entries(config, roots);
    lemma_keys(config, roots);
    lemma_bool_texts();
    lemma_stamped_last(m, e, 0);
    lemma_stamped_last(m, e, 1);
    lemma_stamped_last(m, e, 2);
    lemma_stamped_last(m, e, 3);
    lemma_stamped_last(m, e, 4);
    lemma_stamped_last(m, e, 5);
    lemma_stamped_last(m, e, 6);
    lemma_stamped_last(m, e, 7);
    lemma_stamped_last(m, e, 8);
}

proof fn lemma_bool_texts()
    ensures
        "true"@ != "false"@,
{
    reveal_strlit("true");
    reveal_strlit("false");
    assert("true"@.len() != "false"@.len());
}

/// A setting that needs a rebuild and whose record differs is found.
proof fn lemma_a_change_is_found(e: Seq<EntryView>, stored: Map<Seq<char>, Seq<char>>, at: int)
    requires
        0 <= at < e.len(),
        needs_rebuild(e[at].0),
        stored.contains_key(e[at].0),
        stored[e[at].0] != e[at].1,
    ensures
        changes(e, stored).len() > 0,
    decreases e.len(),
{
    if at < e.len() - 1 {
        assert(e.drop_last()[at] == e[at]);
        lemma_a_change_is_found(e.drop_last(), stored, at);
    }
}

/// An index built under one configuration asks for a rebuild under another exactly
/// where the two hash a different length or split words differently. Every other
/// setting, the roots among them, is brought into line without one.
pub proof fn a_rebuild_is_for_hashes_and_words(
    m: Map<Seq<char>, Seq<char>>,
    built: Config,
    was: Seq<Seq<char>>,
    now: Config,
    roots: Seq<Seq<char>>,
)
    ensures
        changes(entries(now, roots), stamped(m, entries(built, was))).len() == 0 <==> (
        built.processing.hash_length == now.processing.hash_length
            && built.processing.tokenize@ == now.processing.tokenize@),
{
    let e = entries(built, was);
    let f = entries(now, roots);
    let s = stamped(m, e);
    lemma_keys(built, was);
    lemma_stamped_last(m, e, 0);
    lemma_stamped_last(m, e, 1);
    lemma_stamped_last(m, e, 3);
    crate::text::a_number_reads_back(built.processing.hash_length as nat);
    crate::text::a_number_reads_back(now.processing.hash_length as nat);
    assert(f[0].0 == e[0].0 && f[1].0 == e[1].0 && f[3].0 == e[3].0);
    if built.processing.hash_length != now.processing.hash_length {
        lemma_a_change_is_found(f, s, 0);
    } else if built.processing.tokenize@ != now.processing.tokenize@ {
        lemma_a_change_is_found(f, s, 3);
    } else {
        assert forall|i: int|
            0 <= i < f.len() && needs_rebuild((#[trigger] f[i]).0) && s.contains_key(
                f[i].0,
            ) implies s[f[i].0] == f[i].1 by {
            assert(f[i].0 == e[i].0);
            assert(e[0].0 != e[i].0 || i == 0);
            assert(e[1].0 != e[i].0 || i == 1);
            assert(e[3].0 != e[i].0 || i == 3);
        }
        lemma_no_changes(f, s);
    }
}

/// Every change that is shown is of a setting that has a record, and shows both.
pub proof fn a_change_shows_both_values(
    e: Seq<EntryView>,
    stored: Map<Seq<char>, Seq<char>>,
    i: int,
)
    requires
        0 <= i < changes(e, stored).len(),
    ensures
        ({
            let c = changes(e, stored)[i];
            &&& stored.contains_key(c.key)
            &&& c.stored == stored[c.key]
            &&& c.stored != c.current
            &&& e.contains((c.key, c.current))
        }),
    decreases e.len(),
{
    let front = e.drop_last();
    let d = changes(front, stored);
    if i < d.len() {
        a_change_shows_both_values(front, stored, i);
        let c = d[i];
        assert(changes(e, stored)[i] == c);
        let j = choose|j: int| 0 <= j < front.len() && front[j] == (c.key, c.current);
        assert(e[j] == (c.key, c.current));
    } else {
        assert(e[e.len() - 1] == e.last());
    }
}

/// What a reconciliation records is every setting that a scan can satisfy, and what
/// needs a rebuild keeps its record.
pub proof fn a_reconciliation_records_the_rest(
    m: Map<Seq<char>, Seq<char>>,
    config: Config,
    roots: Seq<Seq<char>>,
    key: Seq<char>,
)
    ensures
        ({
            let r = stamped(m, reconcilable(entries(config, roots)));
            let full = stamped(m, entries(config, roots));
            if key == "hash_length"@ || key == "hash_algorithm"@ || key == "tokenize"@ {
                r.contains_key(key) == m.contains_key(key) && (m.contains_key(key) ==> r[key]
                    == m[key])
            } else {
                r.contains_key(key) == full.contains_key(key) && (r.contains_key(key) ==> r[key]
                    == full[key])
            }
        }),
{
    let e = entries(config, roots);
    lemma_keys(config, roots);
    lemma_reconcilable(e);
    if key == "hash_length"@ || key == "hash_algorithm"@ || key == "tokenize"@ {
        lemma_stamped_other(m, reconcilable(e), key);
    } else {
        lemma_stamped_rest(m, e, key);
    }
}

proof fn lemma_stamped_rest(m: Map<Seq<char>, Seq<char>>, e: Seq<EntryView>, key: Seq<char>)
    requires
        !needs_rebuild(key),
    ensures
        stamped(m, reconcilable(e)).contains_key(key) == stamped(m, e).contains_key(key),
        stamped(m, e).contains_key(key) ==> stamped(m, reconcilable(e))[key] == stamped(m, e)[key],
    decreases e.len(),
{
    if e.len() > 0 {
        lemma_stamped_rest(m, e.drop_last(), key);
        let front = reconcilable(e.drop_last());
        assert(front.push(e.last()).drop_last() =~= front);
    }
}

/// A reconciliation that changed nothing says nothing.
pub proof fn only_a_change_is_told(p: ReconcileProgress)
    ensures
        finished_line(p) is None <==> p.deleted == 0 && p.recontented == 0,
{
}

} // verus!
