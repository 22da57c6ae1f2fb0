use quicksearch_core::batch::{ExtractScope, Stored};
use quicksearch_core::config::{
    Config, IndexingConfig, PathsConfig, ProcessingConfig, MINIMUM_WAL_SIZE,
};
use quicksearch_core::indexing::config_check::{
    config_validation_entries, reconcile_next, reconcile_outcome,
    stamp_reconciled, validate_config, ReconcileStep,
};
use quicksearch_core::indexing::pipeline::{
    build_pipeline, resolved_root_workers, sweep_unvisited_parents, unreadable_warning,
    ExtractStep, ExtractedRow, FinishPlan, Landing, RootPipeline, RowEvent, RunCx, SeenDirs, WalkEvent,
    WalkFile, WalkStep, WalkTurn,
};
use quicksearch_core::indexing::progress::{
    overall_progress, MaintenanceStep, OverallProgress, ReconcileProgress, RootPhase, RootProgress,
};
use quicksearch_core::indexing::status::{
    AbortStep, IndexingService, IndexingStatus, PrepStep, StopStep, SUSPEND_POLL_MS, WAIT_MS,
};
use quicksearch_core::indexing::writer::{
    check_disk, configured_cap, next_run_step, phase_summary, report_run_warnings, run_roots,
    wal_cap_for_free, wal_cap_for_volume, RunStep, Writer, WriterStep,
};
use quicksearch_core::keyed::Keyed;
use quicksearch_core::paths::{Separator, UnreadableDirs};
use quicksearch_core::records::{ContentOutcome, FileIndexAction, FileType, OwnedNewFile};

fn config() -> Config {
    Config {
        processing: ProcessingConfig {
            maximum_text_size: 256 * 1024,
            maximum_text_file_size: 2 * 1024 * 1024,
            hash_length: 8 * 1024,
            batch_size: 2,
            fts_update_batch_size: 500,
            store_text_for_snippets: true,
            tokenize: "trigram".to_string(),
            writer_turn_slice_ms: 50,
            maximum_wal_size: 512 * 1024 * 1024,
        },
        indexing: IndexingConfig {
            include_hidden: false,
            follow_symlinks: false,
            ignore_patterns: Vec::new(),
            content_extensions: Vec::new(),
            root_workers: Vec::new(),
        },
        paths: PathsConfig {
            indexing_paths: Vec::new(),
            database_path: String::new(),
        },
    }
}

fn progress(phase: RootPhase, walked: usize, walk_total: Option<usize>) -> RootProgress {
    RootProgress {
        root: "/r".to_string(),
        phase,
        walked,
        walk_total,
        extracted: 0,
        extract_total: None,
        current_file: None,
        active_workers: 0,
        total_workers: 0,
    }
}

/// Completed share, clamped to 1.
fn fraction(o: &OverallProgress) -> Option<f64> {
    match o.total {
        Some(total) if total > 0 => Some((o.processed as f64 / total as f64).min(1.0)),
        _ => None,
    }
}

#[test]
fn a_walking_root_falls_back_to_the_find_estimate() {
    let p = progress(RootPhase::Walking, 100, Some(1000));
    assert_eq!(p.walk_denominator(), Some(1000));
}

#[test]
fn a_walking_root_without_a_count_yet_has_no_denominator() {
    let p = progress(RootPhase::Walking, 100, None);
    assert_eq!(p.walk_denominator(), None);
}

#[test]
fn an_overtaken_estimate_is_raised_to_the_walked_count() {
    let p = progress(RootPhase::Walking, 1500, Some(1000));
    assert_eq!(p.walk_denominator(), Some(1500));
}

#[test]
fn a_root_past_its_walk_uses_the_exact_count() {
    for phase in [RootPhase::Extracting, RootPhase::Done] {
        assert_eq!(
            progress(phase, 261_088, Some(6_677_062)).walk_denominator(),
            Some(261_088),
            "{phase:?} must not keep the estimate"
        );
        assert_eq!(
            progress(phase, 261_088, None).walk_denominator(),
            Some(261_088),
            "{phase:?} needs no estimate to have landed"
        );
    }
}

#[test]
fn the_walk_denominator_prefers_the_best_available_count() {
    for (label, phase, walked, estimate, want) in [
        ("estimate", RootPhase::Walking, 100, Some(1000), Some(1000)),
        ("no count yet", RootPhase::Walking, 100, None, None),
        ("overtaken", RootPhase::Walking, 1500, Some(1000), Some(1500)),
        (
            "exact",
            RootPhase::Extracting,
            261_088,
            Some(6_677_062),
            Some(261_088),
        ),
        (
            "exact, no estimate",
            RootPhase::Extracting,
            261_088,
            None,
            Some(261_088),
        ),
        (
            "done",
            RootPhase::Done,
            261_088,
            Some(6_677_062),
            Some(261_088),
        ),
        ("done, no estimate", RootPhase::Done, 261_088, None, Some(261_088)),
    ] {
        assert_eq!(
            progress(phase, walked, estimate).walk_denominator(),
            want,
            "{label}"
        );
    }
}

fn both_halves() {
    let mut walking = progress(RootPhase::Walking, 100, Some(1000));
    let mut extracting = progress(RootPhase::Extracting, 500, Some(9999));
    extracting.extracted = 200;
    extracting.extract_total = Some(400);
    walking.extracted = 0;

    let o = overall_progress(&[walking, extracting]);
    assert_eq!(o.processed, 100 + 500 + 200);
    // 1000 (estimate) + 500 (exact) + 400 (extraction scope).
    assert_eq!(o.total, Some(1900));
}

#[test]
fn indexing_overall_progress_sums_both_halves_of_every_root() {
    both_halves();
}

#[test]
fn tests_overall_progress_sums_both_halves_of_every_root() {
    both_halves();
}

#[test]
fn an_uncounted_extraction_contributes_only_its_walk() {
    let mut counting = progress(RootPhase::Extracting, 500, None);
    counting.extracted = 7;
    counting.extract_total = None;
    let o = overall_progress(&[counting]);
    assert_eq!(o.processed, 500);
    assert_eq!(o.total, Some(500));
}

fn one_uncounted() {
    let known = progress(RootPhase::Done, 10, Some(10));
    let unknown = progress(RootPhase::Walking, 5, None);
    let o = overall_progress(&[known, unknown]);
    assert_eq!(o.processed, 15);
    assert_eq!(o.total, None);
    assert_eq!(fraction(&o), None);
}

#[test]
fn indexing_one_uncounted_walking_root_leaves_the_whole_total_unknown() {
    one_uncounted();
}

#[test]
fn tests_one_uncounted_walking_root_leaves_the_whole_total_unknown() {
    one_uncounted();
}

fn past_the_walks() {
    let roots = [
        progress(RootPhase::Done, 10, None),
        progress(RootPhase::Extracting, 5, None),
    ];
    assert_eq!(overall_progress(&roots).total, Some(15));
}

#[test]
fn indexing_a_run_past_its_walks_needs_no_estimate_at_all() {
    past_the_walks();
}

#[test]
fn tests_a_run_past_its_walks_needs_no_estimate_at_all() {
    past_the_walks();
}

fn finished_run() {
    let roots: Vec<RootProgress> = [
        (261_088usize, 238_929usize),
        (45_202, 10_339),
        (2_000_000, 2_574_506),
        (300_000, 221_641),
        (1_508_061, 839_941),
    ]
    .iter()
    .map(|&(walked, extracted)| {
        let mut p = progress(RootPhase::Done, walked, Some(walked * 2));
        p.extracted = extracted;
        p.extract_total = Some(extracted);
        p
    })
    .collect();

    let o = overall_progress(&roots);
    assert_eq!(o.processed, 4_114_351 + 3_885_356);
    assert_eq!(o.total, Some(o.processed), "the estimate must be gone");
    assert_eq!(fraction(&o), Some(1.0));
}

#[test]
fn indexing_a_finished_run_reaches_exactly_one_hundred_percent() {
    finished_run();
}

#[test]
fn tests_a_finished_run_reaches_exactly_one_hundred_percent() {
    finished_run();
}

#[test]
fn overall_progress_edge_cases() {
    let o = overall_progress(&[]);
    assert_eq!(o.processed, 0);
    assert_eq!(o.total, Some(0));

    let o = overall_progress(&[progress(RootPhase::Done, 0, None)]);
    assert_eq!(o.total, Some(0));
    assert_eq!(fraction(&o), None, "no division by zero");

    let mut p = progress(RootPhase::Done, 10, None);
    p.extracted = 100;
    p.extract_total = Some(0);
    let o = overall_progress(&[p]);
    assert_eq!(o.processed, 110);
    assert_eq!(o.total, Some(10));
    assert_eq!(fraction(&o), Some(1.0), "the bar stops at full");
}

#[test]
fn a_run_with_nothing_to_do_has_no_fraction_to_show() {
    let o = overall_progress(&[progress(RootPhase::Done, 0, None)]);
    assert_eq!(o.total, Some(0));
    assert_eq!(fraction(&o), None, "no division by zero");
}

#[test]
fn the_fraction_never_exceeds_one() {
    let mut p = progress(RootPhase::Done, 10, None);
    p.extracted = 100;
    p.extract_total = Some(0);
    let o = overall_progress(&[p]);
    assert_eq!(o.processed, 110);
    assert_eq!(o.total, Some(10));
    assert_eq!(fraction(&o), Some(1.0));
}

#[test]
fn a_run_with_no_roots_is_complete_rather_than_unknown() {
    let o = overall_progress(&[]);
    assert_eq!(o.processed, 0);
    assert_eq!(o.total, Some(0));
}

#[test]
fn the_wal_cap_is_bounded_by_the_volume() {
    let configured: u64 = 512 * 1024 * 1024;
    for (label, cfg, free, want) in [
        ("roomy", configured, 500 * 1024 * 1024 * 1024, configured),
        (
            "just enough",
            configured,
            128 * 1024 * 1024 + configured * 4,
            configured,
        ),
        ("tight", configured, 1024 * 1024 * 1024, 224 * 1024 * 1024),
        ("disabled, tight", 0, 1024 * 1024 * 1024, 224 * 1024 * 1024),
        ("full", configured, 0, MINIMUM_WAL_SIZE),
        ("nearly full", configured, 1024, MINIMUM_WAL_SIZE),
        ("at the floor", configured, 127 * 1024 * 1024, MINIMUM_WAL_SIZE),
    ] {
        assert_eq!(wal_cap_for_free(cfg, free), want, "{label}");
    }
    assert!(
        wal_cap_for_free(0, 500 * 1024 * 1024 * 1024) > 100 * 1024 * 1024 * 1024,
        "disabled checkpoints on a roomy disk are effectively never"
    );
}

#[test]
fn a_lowered_cap_is_announced() {
    let gib = 1024 * 1024 * 1024;
    assert_eq!(wal_cap_for_volume(7, None), (7, None));
    assert_eq!(
        wal_cap_for_volume(512 * 1024 * 1024, Some(gib)),
        (
            224 * 1024 * 1024,
            Some(
                "1024 MiB free where the index lives: forcing a WAL checkpoint every 224 MiB instead of 512 MiB"
                    .to_string()
            )
        )
    );
    let (_, line) = wal_cap_for_volume(0, Some(gib));
    assert!(line.unwrap().ends_with("instead of never"));
    assert_eq!(configured_cap(0), 0);
    assert_eq!(configured_cap(1), MINIMUM_WAL_SIZE);
    assert_eq!(configured_cap(u64::MAX), u64::MAX);
}

#[test]
fn a_full_disk_ends_the_run() {
    assert_eq!(check_disk(None, "/db"), Ok(()));
    assert_eq!(check_disk(Some(128 * 1024 * 1024), "/db"), Ok(()));
    let e = check_disk(Some(127 * 1024 * 1024), "/db").unwrap_err();
    assert!(
        e.starts_with("Stopped: only 127 MiB free where the index lives (/db). Indexing needs room"),
        "{e}"
    );
    assert!(e.ends_with("run again \u{2014} what is already indexed is kept."), "{e}");
}

fn running(maintenance: Option<MaintenanceStep>) -> IndexingService {
    let mut s = IndexingService::new();
    s.publish_status(5, vec![progress(RootPhase::Walking, 100, None)]);
    s.set_maintenance(maintenance);
    s
}

#[test]
fn an_upkeep_step_is_published_for_exactly_as_long_as_it_runs() {
    let mut s = running(None);
    s.set_maintenance(Some(MaintenanceStep::Checkpoint));
    match s.get_status() {
        IndexingStatus::Running { roots, maintenance, .. } => {
            assert_eq!(*maintenance, Some(MaintenanceStep::Checkpoint));
            assert_eq!(roots.len(), 1, "the published snapshot was replaced");
            assert_eq!(roots[0].walked, 100, "the counters were rewritten");
        }
        other => panic!("the run went missing: {other:?}"),
    }
    s.set_maintenance(None);
    match s.get_status() {
        IndexingStatus::Running { roots, maintenance, .. } => {
            assert_eq!(*maintenance, None, "the step outlived its work");
            assert_eq!(roots[0].walked, 100, "the roots went missing on the way out");
        }
        other => panic!("the run went missing: {other:?}"),
    }
}

#[test]
fn an_upkeep_step_never_clobbers_a_stop() {
    let mut s = running(None);
    assert!(s.request_stop());
    s.set_maintenance(Some(MaintenanceStep::MergingText));
    assert!(matches!(s.get_status(), IndexingStatus::Stopping));
    s.set_maintenance(None);
    assert!(matches!(s.get_status(), IndexingStatus::Stopping));
    s.publish_status(5, Vec::new());
    s.set_prep_step(PrepStep::Starting);
    assert!(matches!(s.get_status(), IndexingStatus::Stopping));
}

#[test]
fn a_status_publish_clears_the_step() {
    let mut s = running(Some(MaintenanceStep::RootCounts));
    s.publish_status(5, Vec::new());
    match s.get_status() {
        IndexingStatus::Running { maintenance, .. } => assert_eq!(*maintenance, None),
        other => panic!("the run went missing: {other:?}"),
    }
}

#[test]
fn a_suspended_run_waits_and_a_stop_comes_through() {
    let mut s = running(None);
    assert!(!s.is_suspended());
    assert_eq!(s.should_abort(false), AbortStep::Proceed);
    s.suspend();
    assert!(s.is_suspended());
    assert_eq!(s.should_abort(false), AbortStep::Sleep(SUSPEND_POLL_MS));
    assert_eq!(s.should_abort(true), AbortStep::Abort);
    assert!(s.is_active(), "a suspension ended the run");
    s.publish_status(5, Vec::new());
    assert!(s.is_suspended(), "a snapshot resumed the run");
    s.resume();
    assert_eq!(s.should_abort(false), AbortStep::Proceed);
    assert_eq!(s.should_abort(true), AbortStep::Abort);
}

#[test]
fn a_shutdown_waits_like_a_stop() {
    let mut s = running(None);
    assert_eq!(s.graceful_shutdown().next(s.get_status()), StopStep::Sleep(WAIT_MS));
    assert!(s.request_stop());
    assert_eq!(s.graceful_shutdown().next(s.get_status()), StopStep::Release);
}

#[test]
fn a_timing_line_groups_its_count() {
    assert_eq!(
        phase_summary(12345, "files", "41.2", Some("300")),
        "12,345 files in 41.2s (300/s)"
    );
    assert_eq!(phase_summary(999, "files", "0.000", None), "999 files in 0.000s");
    assert_eq!(phase_summary(1000, "x", "1.0", None), "1,000 x in 1.0s");
    assert_eq!(phase_summary(1_002_003, "x", "1.0", None), "1,002,003 x in 1.0s");
    assert_eq!(phase_summary(0, "x", "1.0", Some("0")), "0 x in 1.0s (0/s)");
}

#[test]
fn one_run_is_claimed_at_a_time() {
    let mut s = IndexingService::default();
    let paths = vec!["/r".to_string()];
    assert!(!s.is_active());
    assert_eq!(
        s.start_indexing(&Vec::new(), 1),
        Err("start_indexing requires at least one path".to_string())
    );
    assert_eq!(s.start_indexing(&paths, 1), Ok(()));
    assert!(s.is_active());
    assert_eq!(s.run_start(99), 1);
    assert_eq!(
        s.start_indexing(&paths, 2),
        Err("indexing is already running".to_string())
    );
    s.set_prep_step(PrepStep::OpeningIndex);
    assert!(matches!(
        s.get_status(),
        IndexingStatus::Preparing { start_time: 1, step: PrepStep::OpeningIndex }
    ));
    assert!(s.request_stop());
    assert!(!s.request_stop(), "a stop is told once");
    assert_eq!(s.run_start(99), 99);
    assert!(s.run_ended(Ok(())));
    assert!(matches!(s.get_status(), IndexingStatus::Optimizing));
    assert!(s.is_active());
    s.optimized();
    assert!(!s.is_active());
    assert_eq!(s.start_indexing(&paths, 3), Ok(()));
    assert!(!s.run_ended(Err("disk".to_string())));
    assert!(matches!(s.get_status(), IndexingStatus::Error(e) if e == "disk"));
    assert!(!s.is_active());
    s.report_error("outside".to_string());
    assert!(matches!(s.get_status(), IndexingStatus::Error(e) if e == "outside"));
    assert_eq!(
        s.start_failed("closed"),
        "Failed to send start command: closed"
    );
    assert!(matches!(s.get_status(), IndexingStatus::Idle));
}

#[test]
fn a_stop_is_waited_for_but_not_for_ever() {
    let mut w = IndexingService::new().stop_indexing();
    for _ in 0..50 {
        assert_eq!(w.next(&IndexingStatus::Optimizing), StopStep::Sleep(100));
    }
    assert_eq!(w.next(&IndexingStatus::Optimizing), StopStep::Release);
    assert_eq!(
        IndexingService::new().stop_indexing().next(&IndexingStatus::Stopping),
        StopStep::Release
    );
    assert_eq!(
        IndexingService::new().stop_indexing().next(&IndexingStatus::Error("x".to_string())),
        StopStep::AlreadyStopped
    );
    assert_eq!(IndexingService::new().stop_indexing().until_idle(&IndexingStatus::Idle), None);
    assert_eq!(
        IndexingService::new().stop_indexing().until_idle(&IndexingStatus::Stopping),
        Some(100)
    );
    assert_eq!(
        IndexingService::new().delete_index_for_rebuild("/db"),
        vec!["/db", "/db-wal", "/db-shm", "/db-journal"]
    );
}

fn stored(entries: &[(String, String)]) -> Keyed<String> {
    let mut k = Keyed::new();
    for (key, value) in entries {
        k.insert(key.clone(), value.clone());
    }
    k
}

#[test]
fn the_fingerprint_lists_every_setting() {
    let mut c = config();
    c.indexing.ignore_patterns = vec!["b".to_string(), "a".to_string()];
    let e = config_validation_entries(&c, &vec!["/z".to_string(), "/y".to_string()]);
    let keys: Vec<&str> = e.iter().map(|(k, _)| k.as_str()).collect();
    assert_eq!(
        keys,
        vec![
            "hash_length",
            "hash_algorithm",
            "indexing_path",
            "tokenize",
            "include_hidden",
            "follow_symlinks",
            "ignore_patterns",
            "content_extensions",
            "store_text_for_snippets",
        ]
    );
    let values: Vec<&str> = e.iter().map(|(_, v)| v.as_str()).collect();
    assert_eq!(
        values,
        vec!["8192", "size+head", "/y\n/z", "trigram", "false", "false", "a\nb", "", "true"]
    );
}

#[test]
fn a_stamped_index_asks_for_no_rebuild() {
    let c = config();
    let roots = vec!["/r".to_string()];
    let built = stored(&config_validation_entries(&c, &roots));
    assert!(validate_config(&built, &c, &roots).is_none());

    let mut changed = c.clone();
    changed.processing.tokenize = "unicode61".to_string();
    changed.indexing.include_hidden = true;
    let changes = validate_config(&built, &changed, &roots).unwrap();
    assert_eq!(changes.len(), 1, "a reconcilable setting is no reason: {changes:?}");
    assert_eq!(
        (
            changes[0].key.as_str(),
            changes[0].stored.as_str(),
            changes[0].current.as_str()
        ),
        ("tokenize", "trigram", "unicode61")
    );
    // A reconciliation's stamp does not clear the prompt.
    let mut reconciled = built;
    for (k, v) in stamp_reconciled(&changed, &roots) {
        reconciled.insert(k, v);
    }
    assert_eq!(
        validate_config(&reconciled, &changed, &roots).map(|v| v.len()),
        Some(1)
    );
    assert_eq!(reconciled.get("include_hidden").map(String::as_str), Some("true"));
    assert!(validate_config(&Keyed::new(), &changed, &roots).is_none(), "no record, no change");
    assert!(IndexingService::new().check_config_validation(None, &changed, &roots).is_none());
    assert_eq!(stamp_reconciled(&c, &roots).len(), 6);
}

#[test]
fn tests_an_interrupted_reconcile_records_nothing() {
    let p = ReconcileProgress {
        examined: 12,
        total: Some(40),
        deleted: 3,
        recontented: 1,
    };
    assert!(matches!(reconcile_next(false, false, p), ReconcileStep::Slice));
    let cut = reconcile_next(false, true, p);
    assert!(
        matches!(cut, ReconcileStep::Interrupted(ref l)
            if l == "configuration reconcile interrupted after 12 index entries; the next run starts it again")
    );
    let done = reconcile_next(true, true, p);
    assert!(
        matches!(done, ReconcileStep::Finished(Some(ref l))
            if l == "configuration changed since the last run: 3 index entries removed, 1 re-examined for text extraction")
    );
    assert!(matches!(
        reconcile_next(true, false, ReconcileProgress::default()),
        ReconcileStep::Finished(None)
    ));
    assert!(reconcile_outcome(Ok(()), true, p).is_none());
    assert!(matches!(
        reconcile_outcome(Err("interrupted".to_string()), true, p),
        Some(ReconcileStep::Interrupted(_))
    ));
    assert!(matches!(
        reconcile_outcome(Err("corrupt".to_string()), false, p),
        Some(ReconcileStep::Failed(ref e)) if e == "corrupt"
    ));
    assert_eq!(next_run_step(RunStep::Reconcile, false, false), RunStep::Finished);
    assert_eq!(next_run_step(RunStep::Reconcile, true, false), RunStep::Stamp);
}

#[test]
fn a_stopped_run_records_no_completion() {
    let mut step = RunStep::OpenIndex;
    let mut steps = Vec::new();
    while step != RunStep::Finished {
        steps.push(step);
        step = next_run_step(step, true, true);
    }
    assert_eq!(steps.last(), Some(&RunStep::CheckpointRun));
    assert!(!steps.contains(&RunStep::StampCompleted));
    assert!(!steps.contains(&RunStep::RootCounts));
    let mut step = RunStep::Loop;
    let mut tail = Vec::new();
    while step != RunStep::Finished {
        tail.push(step);
        step = next_run_step(step, true, false);
    }
    assert_eq!(
        tail,
        vec![
            RunStep::Loop,
            RunStep::DropReaders,
            RunStep::CheckpointRun,
            RunStep::MergeText,
            RunStep::StampCompleted,
            RunStep::RootCounts,
            RunStep::CheckpointTail,
        ]
    );
}

#[test]
fn overrides_follow_the_root_that_is_walked() {
    let mut c = config();
    c.paths.indexing_paths = vec!["/link/".to_string(), "/plain".to_string()];
    c.indexing.root_workers = vec![
        ("/link/".to_string(), 24),
        ("/gone".to_string(), 32),
    ];
    let resolved = vec!["/real".to_string(), "/plain".to_string()];
    let workers = resolved_root_workers(&c, &resolved);
    assert_eq!(workers.get("/real"), Some(&24));
    assert_eq!(workers.len(), 1, "absent means automatic, unindexed is dropped");
}

#[test]
fn a_pool_is_neither_empty_nor_huge() {
    assert_eq!(build_pipeline("/r", None, Some(24), 4).workers, 24);
    assert_eq!(build_pipeline("/r", None, Some(0), 4).workers, 4);
    assert_eq!(build_pipeline("/r", None, None, 0).workers, 1);
    assert_eq!(build_pipeline("/r", None, Some(1000), 4).workers, 64);
    assert_eq!(build_pipeline("/r", None, None, 4).count_total, 0);
    assert_eq!(build_pipeline("/r", Some(0), None, 4).count_total, 1);
    assert_eq!(build_pipeline("/r", Some(9), None, 4).count_total, 9);
}

#[test]
fn tests_worker_counts_follow_the_phase() {
    let mut p = build_pipeline("/r", None, Some(3), 1);
    assert_eq!(
        p.worker_counts((1, 3), Some((0, 2))).1,
        3,
        "walking: the walk's own pool"
    );
    p.phase = RootPhase::Extracting;
    assert_eq!(
        p.worker_counts((1, 3), Some((0, 2))).1,
        2,
        "extracting: the content pool"
    );
    p.phase = RootPhase::Done;
    assert_eq!(
        p.worker_counts((1, 3), Some((0, 2))),
        (0, 0),
        "a finished root runs nothing"
    );
}

fn row(name: &str) -> OwnedNewFile {
    OwnedNewFile {
        name: name.to_string(),
        parent: "/r/".to_string(),
        size: 1,
        mtime: 1,
        mime: None,
        ftype: FileType { bits: 0 },
        hash: None,
        inline_text: None,
        needs_content: false,
    }
}

fn file(name: &str, action: FileIndexAction, record: bool, aliased: bool) -> WalkEvent {
    WalkEvent::File(WalkFile {
        path: format!("/r/{name}"),
        action,
        record: if record { Some(row(name)) } else { None },
        aliased,
    })
}

#[test]
fn a_batch_lands_as_soon_as_it_is_full() {
    let mut cx = RunCx::new(&config());
    assert_eq!(cx.quantum(), 2);
    assert_eq!(cx.slice(), 50);
    let mut p = build_pipeline("/r", None, None, 1);
    let insert = FileIndexAction::Insert;
    let update = FileIndexAction::Update;
    assert_eq!(p.walk_event(&mut cx, file("a", insert, true, false)), Landing::Nothing);
    assert_eq!(p.walk_event(&mut cx, file("b", update, true, false)), Landing::Nothing);
    assert_eq!(
        p.walk_event(&mut cx, file("c", FileIndexAction::Skip, false, false)),
        Landing::Nothing
    );
    assert_eq!(p.walk_event(&mut cx, file("d", insert, true, false)), Landing::Inserts);
    assert_eq!(p.pending_inserts.len(), 2);
    p.landed(Landing::Inserts);
    assert!(p.pending_inserts.is_empty());
    assert_eq!(p.walk_event(&mut cx, file("e", update, true, false)), Landing::Updates);
    p.landed(Landing::Updates);
    assert!(p.pending_updates.is_empty());
    assert_eq!(p.walked, 5);
    assert_eq!(p.current_file, None, "sampled, not every file");
    for i in 5..64 {
        p.walk_event(&mut cx, file(&format!("f{i}"), insert, false, false));
    }
    assert_eq!(p.current_file.as_deref(), Some("/r/f63"));
}

#[test]
fn a_linked_path_is_spared_the_cleanup() {
    let mut cx = RunCx::new(&config());
    let mut p = build_pipeline("/r", None, None, 1);
    p.walk_event(
        &mut cx,
        WalkEvent::Stale(vec!["/r/gone".to_string(), "/r/linked".to_string()]),
    );
    p.walk_event(&mut cx, file("linked", FileIndexAction::Skip, false, true));
    cx.sweep_dir(&vec!["/r/old/x".to_string(), "/r/linked".to_string()]);
    assert!(cx.may_clean(false));
    assert!(!cx.may_clean(true), "a stopped run deletes nothing");
    assert_eq!(cx.stale_paths(), vec!["/r/gone", "/r/old/x"]);
    assert!(cx.stale_paths().is_empty(), "the list is emptied");
}

#[test]
fn an_unreadable_directory_is_not_swept() {
    let parents = vec![
        "/r/".to_string(),
        "/r/locked/deep/".to_string(),
        "/r/gone/".to_string(),
    ];
    let mut seen = SeenDirs::new();
    seen.insert("/r/".to_string());
    let mut unreadable = UnreadableDirs::default();
    unreadable.record("/r/locked".to_string());
    assert_eq!(
        sweep_unvisited_parents(&parents, &seen, &unreadable, Separator::Slash),
        vec!["/r/gone/"]
    );
    assert_eq!(unreadable_warning(0), None);
    assert!(unreadable_warning(1).unwrap().starts_with("1 directory could not be read; "));
    assert!(unreadable_warning(2).unwrap().starts_with("2 directories could not be read; "));
}

#[test]
fn tests_a_stopped_run_keeps_the_walk_count_unrecorded() {
    let mut cx = RunCx::new(&config());
    let mut p = build_pipeline("/r", None, None, 1);
    assert_eq!(p.finish_walk(&mut cx, true, true, false), FinishPlan::Done);
    assert_eq!(p.phase, RootPhase::Done);
    assert!(cx.may_clean(false));
}

#[test]
fn tests_an_unreadable_directory_keeps_the_walk_count_unrecorded() {
    let mut cx = RunCx::new(&config());
    let mut p = build_pipeline("/r", None, None, 1);
    assert_eq!(
        p.finish_walk(&mut cx, true, false, true),
        FinishPlan::Extract { record_count: false }
    );
    let mut p = build_pipeline("/r", None, None, 1);
    assert_eq!(
        p.finish_walk(&mut cx, true, false, false),
        FinishPlan::Extract { record_count: true }
    );
    assert_eq!(p.phase, RootPhase::Extracting);
}

#[test]
fn a_walk_that_ended_early_blocks_the_cleanup() {
    let mut cx = RunCx::new(&config());
    let mut p = build_pipeline("/r", None, None, 1);
    assert_eq!(p.finish_walk(&mut cx, false, false, false), FinishPlan::Done);
    assert!(!p.walk_clean);
    assert!(!cx.may_clean(false));
    assert_eq!(
        p.walk_warning(),
        "a walk worker for /r terminated abnormally; skipping stale cleanup"
    );
    assert_eq!(
        p.content_warning(),
        "a content worker for /r terminated abnormally"
    );
}

#[test]
fn a_count_lands_unless_it_was_cancelled() {
    let mut p = build_pipeline("/r", None, None, 1);
    assert_eq!(p.count_landed(Ok(0)), None);
    assert_eq!(p.count_total, 1);
    assert_eq!(p.count_landed(Err("count cancelled".to_string())), None);
    assert_eq!(
        p.count_landed(Err("find: gone".to_string())).as_deref(),
        Some("count for /r: find: gone")
    );
}

fn extracted(i: i64) -> ExtractedRow {
    ExtractedRow {
        file_id: i,
        path: format!("/r/f{i}.txt"),
        outcome: ContentOutcome::Done { text: format!("sphinx of black quartz {i}") },
    }
}

/// One turn under a zero slice: every store consumes one row.
fn zero_slice_turn(p: &mut RootPipeline) -> bool {
    let counts = Some(ExtractScope { pending: 0, already_done: 0 });
    let mut turn = p.begin_extracting(counts);
    loop {
        match p.extract_next(&turn) {
            ExtractStep::Take => p.took(&mut turn, RowEvent::Finished),
            ExtractStep::Store => {
                p.stored(&mut turn, Stored { consumed: 1, written: 1 }, true)
            }
            ExtractStep::End => {
                p.end_extracting(&turn, counts);
                return turn.progressed();
            }
        }
    }
}

#[test]
fn an_extracting_turn_lands_its_leftovers_one_slice_at_a_time() {
    let mut p = build_pipeline("/r", None, None, 1);
    p.phase = RootPhase::Extracting;
    p.ready = (0..5).map(extracted).collect();
    let mut turns = 0;
    while p.phase == RootPhase::Extracting {
        turns += 1;
        assert!(turns < 200, "the root never finished: {} written", p.written);
        let before = p.written;
        assert!(zero_slice_turn(&mut p));
        assert!(
            p.written - before <= 1,
            "a zero slice wrote {} rows in one turn",
            p.written - before
        );
        assert!(
            p.phase != RootPhase::Done || p.ready.is_empty(),
            "Done with {} rows still to write",
            p.ready.len()
        );
    }
    assert_eq!(p.written, 5);
    assert!(p.ready.is_empty());
    assert!(turns >= 5, "five rows cannot land in {turns} zero-slice turns");
    assert_eq!(p.current_file.as_deref(), Some("/r/f4.txt"));
    let shown = p.snapshot((0, 0), None, None);
    assert_eq!(shown.extracted, 5);
    assert_eq!(shown.extract_total, Some(0));
    assert_eq!(shown.walk_total, None);
}

#[test]
fn a_turn_tops_up_before_it_stores() {
    let mut p = build_pipeline("/r", None, None, 1);
    p.phase = RootPhase::Extracting;
    let mut turn = p.begin_extracting(None);
    for i in 0..64 {
        assert_eq!(p.extract_next(&turn), ExtractStep::Take);
        p.took(&mut turn, RowEvent::Row(extracted(i)));
    }
    assert_eq!(p.extract_next(&turn), ExtractStep::Store);
    p.stored(&mut turn, Stored { consumed: 64, written: 63 }, false);
    assert_eq!(p.extract_next(&turn), ExtractStep::Take);
    p.took(&mut turn, RowEvent::Empty);
    assert_eq!(p.extract_next(&turn), ExtractStep::End);
    assert!(!p.end_extracting(&turn, None));
    assert_eq!(p.phase, RootPhase::Extracting);
    assert_eq!(p.written, 63);
}

#[test]
fn a_walk_turn_takes_whole_quanta() {
    let mut t = WalkTurn::new(2);
    assert_eq!(t.next(2, true), WalkStep::Take, "the clock counts between quanta");
    t.took();
    assert_eq!(t.next(2, true), WalkStep::Take);
    t.took();
    assert_eq!(t.next(2, true), WalkStep::End(true));
    assert_eq!(t.next(2, false), WalkStep::Take);
    t.drained();
    assert_eq!(t.next(2, false), WalkStep::End(true));
    let mut idle = WalkTurn::new(2);
    idle.drained();
    assert_eq!(idle.next(2, false), WalkStep::End(false));
    let mut over = WalkTurn::new(2);
    over.finished();
    assert_eq!(over.next(2, false), WalkStep::End(true));
}

const W: RootPhase = RootPhase::Walking;
const X: RootPhase = RootPhase::Extracting;
const D: RootPhase = RootPhase::Done;

#[test]
fn a_round_serves_every_walk_then_one_extraction() {
    let mut w = Writer::new(0);
    let phases = vec![W, X, W, X];
    assert_eq!(w.next(&phases, false, 0), WriterStep::ServeWalk(0));
    w.served(true);
    assert_eq!(w.next(&phases, false, 0), WriterStep::ServeWalk(2));
    w.served(false);
    assert_eq!(w.next(&phases, false, 0), WriterStep::Publish);
    assert_eq!(w.next(&phases, false, 0), WriterStep::ServeExtract(1));
    w.served(false);
    assert_eq!(w.next(&phases, false, 0), WriterStep::Publish);
    // The next round starts its rotation one root further on.
    assert_eq!(w.next(&phases, false, 0), WriterStep::ServeWalk(2));
    assert_eq!(w.next(&phases, false, 0), WriterStep::ServeWalk(0));
}

#[test]
fn deletions_wait_for_the_last_walk() {
    let mut w = Writer::new(0);
    let walking = vec![W];
    w.next(&walking, false, 0);
    let done = vec![D];
    assert_eq!(w.next(&done, false, 0), WriterStep::Publish);
    assert_eq!(w.next(&done, false, 0), WriterStep::CleanupStale);
    assert_eq!(w.next(&done, false, 0), WriterStep::Publish);
    assert_eq!(w.next(&done, false, 0), WriterStep::Ended { aborted: false });
}

#[test]
fn a_stop_as_the_last_root_finishes_is_an_abort() {
    let mut w = Writer::new(0);
    let done = vec![D];
    w.next(&done, false, 0);
    w.next(&done, false, 0);
    w.next(&done, false, 0);
    assert_eq!(w.next(&done, true, 0), WriterStep::Ended { aborted: true });
    assert_eq!(
        Writer::new(0).next(&vec![W], true, 0),
        WriterStep::Ended { aborted: true }
    );
}

#[test]
fn a_round_without_progress_waits() {
    let mut w = Writer::new(0);
    let phases = vec![X, W];
    w.next(&phases, false, 0);
    w.next(&phases, false, 0);
    w.next(&phases, false, 0);
    w.next(&phases, false, 0);
    assert_eq!(w.next(&phases, false, 0), WriterStep::Park(1));
    let mut w = Writer::new(0);
    let phases = vec![X];
    w.next(&phases, false, 0);
    w.next(&phases, false, 0);
    w.next(&phases, false, 0);
    w.next(&phases, false, 0);
    // The cleanup was progress, so another round follows at once.
    assert_eq!(w.next(&phases, false, 0), WriterStep::Publish);
    assert_eq!(w.next(&phases, false, 0), WriterStep::ServeExtract(0));
    assert_eq!(w.next(&phases, false, 0), WriterStep::Publish);
    assert_eq!(w.next(&phases, false, 0), WriterStep::Sleep);
}

#[test]
fn a_grown_log_is_checkpointed() {
    let mut w = Writer::new(100);
    let phases = vec![W];
    w.next(&phases, false, 0);
    w.served(true);
    w.next(&phases, false, 0);
    assert_eq!(w.next(&phases, false, 0), WriterStep::Publish);
    assert_eq!(w.next(&phases, false, 100), WriterStep::Checkpoint);
    w.checkpointed(30);
    assert_eq!(w.checkpoint_at, 130);
    assert_eq!(w.next(&phases, false, 30), WriterStep::ServeWalk(0));
}

#[test]
fn roots_collapse_to_one_walk_each() {
    assert_eq!(
        run_roots(&Vec::new()),
        Err("run_indexing: no paths provided".to_string())
    );
    let paths: Vec<String> = ["/b", "/a", "/b", "/c"].iter().map(|s| s.to_string()).collect();
    assert_eq!(run_roots(&paths).unwrap(), vec!["/b", "/a", "/c"]);
}

#[test]
fn unhashed_files_are_summed_up() {
    assert_eq!(report_run_warnings(0, 0), None);
    assert_eq!(
        report_run_warnings(1, 0).as_deref(),
        Some("1 file could not be read to hash")
    );
    assert_eq!(
        report_run_warnings(25, 5).as_deref(),
        Some("25 files could not be read to hash (5 similar warnings not shown)")
    );
}

#[test]
fn the_order_of_the_roots_does_not_matter() {
    let make = |order: [usize; 3]| {
        let roots = [
            progress(RootPhase::Done, 10, Some(12)),
            progress(RootPhase::Walking, 5, Some(40)),
            progress(RootPhase::Extracting, 7, None),
        ];
        let picked: Vec<RootProgress> = order.iter().map(|i| roots[*i].clone()).collect();
        let o = overall_progress(&picked);
        (o.processed, o.total)
    };
    let first = make([0, 1, 2]);
    assert_eq!(first.1, Some(10 + 40 + 7));
    for order in [[0, 2, 1], [1, 0, 2], [1, 2, 0], [2, 0, 1], [2, 1, 0]] {
        assert_eq!(make(order), first);
    }
}

#[test]
fn a_run_that_extracted_everything_is_complete() {
    let mut extracting = progress(RootPhase::Extracting, 500, Some(900));
    extracting.extracted = 40;
    extracting.extract_total = Some(40);
    let o = overall_progress(&[progress(RootPhase::Done, 3, Some(9)), extracting]);
    assert_eq!(o.total, Some(543));
    assert_eq!(o.processed, 543);
}

#[test]
fn an_unreadable_windows_directory_is_not_swept() {
    let parents = vec![
        r"C:\r\".to_string(),
        r"C:\r\locked\deep\".to_string(),
        r"C:\r\gone\".to_string(),
    ];
    let mut seen = SeenDirs::new();
    seen.insert(r"C:\r\".to_string());
    let mut unreadable = UnreadableDirs::default();
    unreadable.record(r"C:\r\locked".to_string());
    assert_eq!(
        sweep_unvisited_parents(&parents, &seen, &unreadable, Separator::Backslash),
        vec![r"C:\r\gone\"]
    );
}

#[test]
fn a_walk_that_ends_below_a_quantum_still_lands() {
    let mut cx = RunCx::new(&config());
    let mut p = build_pipeline("/r", None, None, 1);
    let (insert, update) = (FileIndexAction::Insert, FileIndexAction::Update);
    assert_eq!(p.walk_event(&mut cx, file("a", insert, true, false)), Landing::Nothing);
    assert_eq!(p.walk_event(&mut cx, file("b", update, true, false)), Landing::Nothing);
    let mut landed = Vec::new();
    loop {
        match p.last_landing() {
            Landing::Nothing => break,
            landing => {
                landed.push((landing, p.pending_updates.len(), p.pending_inserts.len()));
                p.landed(landing);
            }
        }
    }
    assert_eq!(landed, vec![(Landing::Updates, 1, 1), (Landing::Inserts, 0, 1)]);
    assert_eq!(
        p.finish_walk(&mut cx, true, false, false),
        FinishPlan::Extract { record_count: true }
    );
}
