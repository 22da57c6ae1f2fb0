use quicksearch_core::config::{Config, IndexingConfig, PathsConfig, ProcessingConfig};
use quicksearch_core::keyed::Keyed;
use quicksearch_core::live::{
    classify, pair, sweep_target, window_from_disk, Arming, BodyCut, ContentTier, EventKind,
    LiveEvent, LiveState, LiveUpdate, Op, Snippet, Swept, Target, WindowUpdate, MAX_DIRS,
    MAX_TARGETS, MIN_INTERVAL, SETTLE, TICK,
};
use quicksearch_core::paths::Separator;
use quicksearch_core::records::ContentOutcome;

fn target(path: &str) -> Target {
    Target {
        path: path.to_string(),
        text: Some(ContentTier::Exact),
        size: 0,
        mtime: 0,
    }
}

fn targets(paths: &[&str]) -> Keyed<Target> {
    let mut t = Keyed::new();
    for p in paths {
        t.insert(p.to_string(), target(p));
    }
    t
}

fn event(kind: EventKind, paths: &[&str]) -> LiveEvent {
    LiveEvent {
        kind,
        paths: paths.iter().map(|p| Some(p.to_string())).collect(),
    }
}

/// An event whose paths cannot be spelled.
fn unspelled(kind: EventKind, first: Option<&str>) -> LiveEvent {
    let mut paths: Vec<Option<String>> = first.iter().map(|p| Some(p.to_string())).collect();
    paths.push(None);
    LiveEvent { kind, paths }
}

fn window(targets: &Keyed<Target>, events: Vec<LiveEvent>) -> Keyed<Op> {
    let mut pending = Keyed::new();
    let mut orphan_to = Vec::new();
    for event in &events {
        classify(event, targets, &mut pending, &mut orphan_to);
    }
    pair(&mut pending, &orphan_to);
    pending
}

#[test]
fn an_atomic_save_reads_as_a_content_change() {
    let t = targets(&["/docs/report.txt"]);
    let decided = window(
        &t,
        vec![
            event(EventKind::RenameFrom, &["/docs/.report.txt.swp"]),
            event(EventKind::RenameTo, &["/docs/report.txt"]),
            event(
                EventKind::RenameBoth,
                &["/docs/.report.txt.swp", "/docs/report.txt"],
            ),
        ],
    );
    assert_eq!(decided.get("/docs/report.txt"), Some(&Op::Changed));
    assert_eq!(decided.len(), 1, "nothing else was decided: {decided:?}");
}

#[test]
fn a_linux_rename_pairs_without_leaking_a_gone() {
    let t = targets(&["/docs/old.txt"]);
    let decided = window(
        &t,
        vec![
            event(EventKind::RenameFrom, &["/docs/old.txt"]),
            event(EventKind::RenameTo, &["/docs/new.txt"]),
            event(EventKind::RenameBoth, &["/docs/old.txt", "/docs/new.txt"]),
        ],
    );
    assert_eq!(
        decided.get("/docs/old.txt"),
        Some(&Op::Renamed("/docs/new.txt".to_string()))
    );
    assert_eq!(decided.len(), 1, "a provisional Gone escaped: {decided:?}");
}

#[test]
fn a_windows_rename_pairs_by_elimination() {
    let t = targets(&["/docs/old.txt"]);
    let decided = window(
        &t,
        vec![
            event(EventKind::RenameFrom, &["/docs/old.txt"]),
            event(EventKind::RenameTo, &["/docs/new.txt"]),
        ],
    );
    assert_eq!(
        decided.get("/docs/old.txt"),
        Some(&Op::Renamed("/docs/new.txt".to_string()))
    );
}

#[test]
fn an_ambiguous_windows_window_reports_gone_rather_than_guessing() {
    let t = targets(&["/docs/a.txt", "/docs/b.txt"]);
    let decided = window(
        &t,
        vec![
            event(EventKind::RenameFrom, &["/docs/a.txt"]),
            event(EventKind::RenameFrom, &["/docs/b.txt"]),
            event(EventKind::RenameTo, &["/docs/x.txt"]),
            event(EventKind::RenameTo, &["/docs/y.txt"]),
        ],
    );
    assert_eq!(decided.get("/docs/a.txt"), Some(&Op::Gone));
    assert_eq!(decided.get("/docs/b.txt"), Some(&Op::Gone));
}

#[test]
fn events_for_an_unrepresentable_path_never_touch_its_lossy_twin() {
    let t = targets(&["/docs/report\u{FFFD}.txt"]);
    let decided = window(
        &t,
        vec![
            unspelled(EventKind::Remove, None),
            unspelled(EventKind::Create, None),
            unspelled(EventKind::Modify, None),
        ],
    );
    assert!(
        decided.is_empty(),
        "the displayed row must be untouched: {decided:?}"
    );
}

#[test]
fn a_rename_to_an_unrepresentable_name_reports_gone() {
    let t = targets(&["/docs/a.txt"]);
    let decided = window(
        &t,
        vec![unspelled(EventKind::RenameBoth, Some("/docs/a.txt"))],
    );
    assert_eq!(decided.get("/docs/a.txt"), Some(&Op::Gone));
}

#[test]
fn a_split_rename_is_not_paired_with_an_unrepresentable_arrival() {
    let t = targets(&["/docs/a.txt"]);
    let decided = window(
        &t,
        vec![
            event(EventKind::RenameFrom, &["/docs/a.txt"]),
            unspelled(EventKind::RenameTo, None),
        ],
    );
    assert_eq!(decided.get("/docs/a.txt"), Some(&Op::Gone));
}

#[test]
fn events_for_paths_that_are_not_shown_decide_nothing() {
    let t = targets(&["/docs/shown.txt"]);
    let decided = window(
        &t,
        vec![
            event(EventKind::Create, &["/docs/other.txt"]),
            event(EventKind::Modify, &["/docs/another.txt"]),
            event(EventKind::Remove, &["/docs/third.txt"]),
            event(EventKind::Other, &["/docs/shown.txt"]),
        ],
    );
    assert!(decided.is_empty(), "{decided:?}");
}

#[test]
fn a_delete_marks_the_row_and_a_recreate_clears_it() {
    let t = targets(&["/docs/report.txt"]);
    let gone = window(&t, vec![event(EventKind::Remove, &["/docs/report.txt"])]);
    assert_eq!(gone.get("/docs/report.txt"), Some(&Op::Gone));

    let back = window(&t, vec![event(EventKind::Create, &["/docs/report.txt"])]);
    assert_eq!(back.get("/docs/report.txt"), Some(&Op::Changed));
}

#[test]
fn repeated_writes_in_one_window_coalesce() {
    let t = targets(&["/docs/log.txt"]);
    let decided = window(
        &t,
        vec![
            event(EventKind::Modify, &["/docs/log.txt"]),
            event(EventKind::Modify, &["/docs/log.txt"]),
            event(EventKind::Modify, &["/docs/log.txt"]),
        ],
    );
    assert_eq!(decided.len(), 1);
    assert_eq!(decided.get("/docs/log.txt"), Some(&Op::Changed));
}

#[test]
fn re_arming_drops_the_previous_targets() {
    let t = targets(&["/docs/new.txt"]);
    let decided = window(&t, vec![event(EventKind::Modify, &["/docs/old.txt"])]);
    assert!(decided.is_empty(), "{decided:?}");
}

/// A state watching these rows, every directory accepted.
fn armed(paths: &[&str]) -> LiveState {
    let mut state = LiveState::new();
    let mut arming = Arming::new(paths.iter().map(|p| target(p)).collect(), Separator::Slash);
    while arming.next(&mut state).is_some() {
        arming.watched(&mut state, true);
    }
    state
}

#[test]
fn a_window_settles_before_it_updates() {
    let mut state = armed(&["/d/a.txt"]);
    assert_eq!(state.wait(0), None);
    state.on_event(&event(EventKind::Modify, &["/d/a.txt"]), 1000);
    assert_eq!(state.wait(1000), Some(TICK));
    assert_eq!(state.wait(1000 + SETTLE - 10), Some(10));
    assert!(state.flush_settled(1000 + SETTLE - 1).is_empty());
    let ready = state.flush_settled(1000 + SETTLE);
    assert_eq!(ready, vec![("/d/a.txt".to_string(), Op::Changed)]);
    assert_eq!(state.wait(2000), None, "nothing is left to settle");
}

#[test]
fn a_row_is_not_updated_twice_in_a_moment() {
    let mut state = armed(&["/d/a.txt"]);
    state.on_event(&event(EventKind::Modify, &["/d/a.txt"]), 0);
    assert_eq!(state.flush_settled(SETTLE).len(), 1);
    state.on_event(&event(EventKind::Modify, &["/d/a.txt"]), SETTLE);
    assert!(state.flush_settled(2 * SETTLE).is_empty());
    assert!(state.wait(2 * SETTLE).is_some(), "the decision waits for another window");
    assert_eq!(state.flush_settled(SETTLE + MIN_INTERVAL).len(), 1);
}

#[test]
fn one_window_works_off_every_row() {
    let paths: Vec<String> = (0..MAX_TARGETS).map(|i| format!("/d/{i}.txt")).collect();
    let refs: Vec<&str> = paths.iter().map(String::as_str).collect();
    let mut state = armed(&refs);
    state.on_event(&event(EventKind::Modify, &refs), 0);
    assert_eq!(state.flush_settled(SETTLE).len(), MAX_TARGETS);
    assert_eq!(state.wait(SETTLE), None, "nothing is left to settle");
}

#[test]
fn a_leftover_arrival_does_not_pair_later() {
    let mut state = armed(&["/d/a.txt"]);
    state.on_event(&event(EventKind::RenameTo, &["/d/stranger.txt"]), 0);
    assert!(state.wait(0).is_some(), "an arrival alone arms the window");
    assert!(state.flush_settled(SETTLE).is_empty());
    state.on_event(&event(EventKind::RenameFrom, &["/d/a.txt"]), 1000);
    let ready = state.flush_settled(1000 + SETTLE);
    assert_eq!(ready, vec![("/d/a.txt".to_string(), Op::Gone)]);
}

#[test]
fn a_missing_directory_does_not_stop_the_others() {
    let mut state = LiveState::new();
    let mut arming = Arming::new(
        vec![target("/nowhere/ghost.txt"), target("/here/a.txt")],
        Separator::Slash,
    );
    let mut asked = Vec::new();
    while let Some(dir) = arming.next(&mut state) {
        let ok = dir == "/here";
        asked.push(dir);
        arming.watched(&mut state, ok);
    }
    assert_eq!(asked, vec!["/nowhere", "/here"]);
    assert!(!state.is_idle());
    assert_eq!(state.targets().len(), 1);
    assert!(state.targets().contains("/here/a.txt"));
}

#[test]
fn arming_shares_directories_and_is_bounded() {
    let rows: Vec<Target> = (0..MAX_TARGETS + 10)
        .map(|i| target(&format!("/dir{}/f{i}.txt", i % (MAX_DIRS + 5))))
        .collect();
    let mut state = LiveState::new();
    let mut arming = Arming::new(rows, Separator::Slash);
    let mut dirs = 0;
    while arming.next(&mut state).is_some() {
        arming.watched(&mut state, true);
        dirs += 1;
    }
    assert_eq!(dirs, MAX_DIRS);
    assert!(state.targets().len() <= MAX_TARGETS);
    assert!(!state.targets().contains(&format!("/dir{}/f{}.txt", MAX_DIRS, MAX_DIRS)));
    assert!(armed(&["/"]).is_idle(), "a root has no directory to watch");
}

#[test]
fn a_reset_forgets_everything() {
    let mut state = armed(&["/d/a.txt"]);
    state.on_event(&event(EventKind::Modify, &["/d/a.txt"]), 0);
    state.reset();
    assert!(state.is_idle());
    assert_eq!(state.wait(0), None);
}

#[test]
fn updates_follow_the_file_on_disk() {
    let mut state = armed(&["/d/a.txt"]);
    assert_eq!(state.tier("/d/a.txt"), Some(ContentTier::Exact));
    let changed = state.apply(
        "/d/a.txt".to_string(),
        Op::Changed,
        Some((12, 34)),
        WindowUpdate::NoMatch,
        Separator::Slash,
    );
    assert_eq!(
        changed,
        LiveUpdate::Changed {
            path: "/d/a.txt".to_string(),
            size: 12,
            mtime: 34,
            window: WindowUpdate::NoMatch,
        }
    );
    assert_eq!(changed.path(), "/d/a.txt");
    // The baseline moved with it, so a sweep finds nothing to say.
    let row = state.targets().get("/d/a.txt").unwrap();
    assert_eq!(sweep_target(row, Some((12, 34))), Swept::Same);

    let gone = state.apply("/d/a.txt".to_string(), Op::Changed, None, WindowUpdate::Unchanged, Separator::Slash);
    assert_eq!(gone, LiveUpdate::Gone { path: "/d/a.txt".to_string() });
    let renamed = state.apply(
        "/d/a.txt".to_string(),
        Op::Renamed("/d/sub/b.txt".to_string()),
        None,
        WindowUpdate::Unchanged,
        Separator::Slash,
    );
    assert_eq!(
        renamed,
        LiveUpdate::Renamed {
            path: "/d/a.txt".to_string(),
            to: "/d/sub/b.txt".to_string(),
            name: "b.txt".to_string(),
        }
    );
    let unknown = state.apply(
        "/d/other".to_string(),
        Op::Changed,
        Some((1, 1)),
        WindowUpdate::NoMatch,
        Separator::Slash,
    );
    assert!(
        matches!(unknown, LiveUpdate::Changed { window: WindowUpdate::Unchanged, .. }),
        "a row without body text keeps its window"
    );
}

#[test]
fn arming_says_nothing_about_a_row_that_already_agrees_with_the_disk() {
    let row = Target { size: 5, mtime: 9, ..target("/d/a.txt") };
    assert_eq!(sweep_target(&row, Some((5, 9))), Swept::Same);
    assert_eq!(
        sweep_target(&row, Some((6, 9))),
        Swept::Changed { size: 6, mtime: 9 }
    );
    assert_eq!(sweep_target(&row, None), Swept::Gone);
}

#[test]
fn a_sweep_is_not_repeated_by_an_event_behind_it() {
    let mut state = armed(&["/d/a.txt"]);
    let update = LiveUpdate::Gone { path: "/d/a.txt".to_string() };
    state.swept(&update, 0);
    state.on_event(&event(EventKind::Remove, &["/d/a.txt"]), 1);
    assert!(state.flush_settled(1 + SETTLE).is_empty());
}

fn config() -> Config {
    Config {
        processing: ProcessingConfig {
            maximum_text_size: 1024,
            maximum_text_file_size: 16,
            hash_length: 8,
            batch_size: 1,
            fts_update_batch_size: 1,
            store_text_for_snippets: false,
            tokenize: "trigram".to_string(),
            writer_turn_slice_ms: 1,
            maximum_wal_size: 0,
        },
        indexing: IndexingConfig {
            include_hidden: false,
            follow_symlinks: false,
            ignore_patterns: Vec::new(),
            content_extensions: Vec::new(),
            root_workers: Vec::new(),
        },
        paths: PathsConfig {
            indexing_paths: Vec::new(),
            database_path: String::new(),
        },
    }
}

#[test]
fn a_window_is_cut_only_from_text_that_was_read() {
    let c = config();
    let body = ContentOutcome::Done { text: "hello".to_string() };
    let marked = Snippet { window: "hello".to_string(), ranges: vec![(0, 5)] };
    let unmarked = Snippet { window: "hello".to_string(), ranges: Vec::new() };
    assert_eq!(
        window_from_disk(true, 5, &c, Some(&body), BodyCut::Exact(Some(marked.clone()))),
        WindowUpdate::Cut(marked.clone())
    );
    assert_eq!(
        window_from_disk(true, 5, &c, Some(&body), BodyCut::Exact(Some(unmarked.clone()))),
        WindowUpdate::NoMatch
    );
    assert_eq!(
        window_from_disk(true, 5, &c, Some(&body), BodyCut::Fuzzy(Some(unmarked.clone()))),
        WindowUpdate::Cut(unmarked)
    );
    assert_eq!(
        window_from_disk(true, 5, &c, Some(&body), BodyCut::Fuzzy(None)),
        WindowUpdate::NoMatch
    );
    assert_eq!(
        window_from_disk(true, 5, &c, Some(&body), BodyCut::Unfuzzable),
        WindowUpdate::Unchanged
    );
    for (armed, size, outcome) in [
        (false, 5, Some(&body)),
        (true, 17, Some(&body)),
        (true, 5, None),
        (true, 5, Some(&ContentOutcome::NotApplicable)),
    ] {
        assert_eq!(
            window_from_disk(armed, size, &c, outcome, BodyCut::Exact(Some(marked.clone()))),
            WindowUpdate::Unchanged
        );
    }
}

#[test]
fn an_event_decides_only_what_it_names() {
    let shown = targets(&["/d/a.txt", "/d/b.txt"]);
    let mut pending = Keyed::new();
    let mut orphans = Vec::new();
    classify(&event(EventKind::Remove, &["/d/b.txt"]), &shown, &mut pending, &mut orphans);
    classify(
        &event(EventKind::RenameBoth, &["/d/a.txt", "/d/new.txt"]),
        &shown,
        &mut pending,
        &mut orphans,
    );
    assert_eq!(pending.get("/d/a.txt"), Some(&Op::Renamed("/d/new.txt".to_string())));
    assert_eq!(pending.get("/d/b.txt"), Some(&Op::Gone), "another row keeps its decision");
    assert_eq!(pending.get("/d/new.txt"), None, "a new path is no row");
    classify(
        &event(EventKind::RenameTo, &["/d/b.txt", "/d/other.txt"]),
        &shown,
        &mut pending,
        &mut orphans,
    );
    assert_eq!(orphans, vec!["/d/other.txt"], "a row on screen is no unclaimed destination");
}

#[test]
fn a_row_is_answered_within_a_second() {
    for last in [0, 100, 149, 150, 300, 740, 750] {
        let mut state = armed(&["/d/a.txt"]);
        state.on_event(&event(EventKind::Modify, &["/d/a.txt"]), 0);
        assert_eq!(state.flush_settled(SETTLE).len(), 1);
        let t = SETTLE + last;
        state.on_event(&event(EventKind::Modify, &["/d/a.txt"]), t);
        let mut now = t;
        let mut answered = None;
        while now <= t + 1000 && answered.is_none() {
            if !state.flush_settled(now).is_empty() {
                answered = Some(now);
            }
            now += TICK;
        }
        let at = answered.expect("no answer within the second");
        assert!(at >= SETTLE + MIN_INTERVAL, "not twice in a moment");
    }
}

#[test]
fn every_row_is_answered_within_a_second() {
    let paths: Vec<String> = (0..MAX_TARGETS).map(|i| format!("/d/{i}.txt")).collect();
    let refs: Vec<&str> = paths.iter().map(String::as_str).collect();
    let mut state = armed(&refs);
    let t = 30;
    state.on_event(&event(EventKind::Modify, &refs), t);
    let mut answered = Vec::new();
    let mut now = t + TICK - 1;
    while now <= t + 1000 {
        for (path, _) in state.flush_settled(now) {
            answered.push(path);
        }
        now += TICK;
    }
    answered.sort();
    let mut all = paths.clone();
    all.sort();
    assert_eq!(answered, all, "each row once, and all of them");
}

#[test]
fn further_events_do_not_put_a_row_off() {
    let mut state = armed(&["/d/a.txt", "/d/b.txt"]);
    state.on_event(&event(EventKind::Modify, &["/d/a.txt"]), 0);
    let mut at = None;
    for tick in 1..=20 {
        let now = tick * TICK;
        state.on_event(&event(EventKind::Modify, &["/d/a.txt", "/d/b.txt"]), now);
        let ready = state.flush_settled(now);
        if at.is_none() && ready.iter().any(|(path, _)| path == "/d/a.txt") {
            at = Some(now);
        }
    }
    assert_eq!(at, Some(SETTLE));
}

#[test]
fn rows_of_one_windows_directory_share_its_watch() {
    let mut state = LiveState::new();
    let rows = vec![target(r"C:\docs\a.txt"), target(r"c:/docs/b.txt"), target(r"C:\other\c.txt")];
    let mut arming = Arming::new(rows, Separator::Backslash);
    let mut asked = Vec::new();
    while let Some(dir) = arming.next(&mut state) {
        asked.push(dir);
        arming.watched(&mut state, true);
    }
    assert_eq!(asked, vec![r"C:\docs", r"C:\other"]);
    let renamed = state.apply(
        r"C:\docs\a.txt".to_string(),
        Op::Renamed(r"C:\docs\new.txt".to_string()),
        None,
        WindowUpdate::Unchanged,
        Separator::Backslash,
    );
    assert!(matches!(renamed, LiveUpdate::Renamed { name, .. } if name == "new.txt"));
}
