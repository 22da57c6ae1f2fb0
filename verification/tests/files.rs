use quicksearch_core::batch::{
    self, cleanup_stale_index_entries, compress_warning, count_extract_scope, extract_one_batch,
    max_text_file_size, process_batch_inserts, process_batch_updates, row_content,
    store_extracted, update_warning, wants_body, BatchStep, Bodies, CleanupStep, ExtractCursor,
    RowContent, StoreStep, Stored,
};
use quicksearch_core::config::{Config, IndexingConfig, PathsConfig, ProcessingConfig};
use quicksearch_core::counting::{
    count_tree_entries_fast, find_args, parse_wc_l_stdout, poll_pipeline, read_record, BulkCount,
    BulkStep, CountStep, PollStep, Polled, RecordStep,
};
use quicksearch_core::extract::{Parsed, Registry, Scratch, SourceFile};
use quicksearch_core::fts::{self, FtsSetting};
use quicksearch_core::incremental::{
    apply_fs_event, content_plan, remove_paths, removal, upsert_file, upsert_path, Applied,
    Budget, ContentPlan, DirUpsert, EntryStep, FsEvent, PathFacts, RowPlan, UpsertPlan,
};
use quicksearch_core::log::Throttle;
use quicksearch_core::parts::{
    parent_str, path_components, path_extension, path_file_name, path_join, path_parent,
};
use quicksearch_core::paths::{
    db_key_for_missing_path, dir_to_db_parent, filtered_dirs, filtered_walk, index_file_set, normalize_root_string,
    path_to_db_string, split_db_path, walk_filter, warn_if_unrepresentable, MissingStep,
    Separator, UnreadableDirs, WalkEntry,
};
use quicksearch_core::records::{
    classify_by_mtime, classify_for_indexing, content_extractable, decide_content, get_file_hash,
    hash_failure, hash_failure_counts, head_length, outcome_body, prepare_file_record,
    reset_run_warnings, safe_truncate, ContentOutcome, DirRows, FileIndexAction, FileStat,
    FileType, OwnedNewFile, Prepared, Sniffed, HASH_FAILURE_LIMIT,
};
use std::path::{Path, MAIN_SEPARATOR};

fn sep_of_platform() -> Separator {
    Separator::of(MAIN_SEPARATOR)
}

fn config() -> Config {
    Config {
        processing: ProcessingConfig {
            maximum_text_size: 256 * 1024,
            maximum_text_file_size: 2 * 1024 * 1024,
            hash_length: 8 * 1024,
            batch_size: 500,
            fts_update_batch_size: 500,
            store_text_for_snippets: true,
            tokenize: "trigram".to_string(),
            writer_turn_slice_ms: 50,
            maximum_wal_size: 512 * 1024 * 1024,
        },
        indexing: IndexingConfig {
            include_hidden: false,
            follow_symlinks: false,
            ignore_patterns: Vec::new(),
            content_extensions: Vec::new(),
            root_workers: Vec::new(),
        },
        paths: PathsConfig {
            indexing_paths: Vec::new(),
            database_path: String::new(),
        },
    }
}

fn known(name: &str, mtime: u64) -> DirRows {
    let mut rows = DirRows::new();
    rows.insert(name.to_string(), mtime);
    rows
}

#[test]
fn file_handling_classify_uses_mtime_against_the_existing_index() {
    let existing = known("/a/known.txt", 100);
    assert_eq!(
        classify_for_indexing("/a/new.txt", 100, &existing),
        FileIndexAction::Insert,
        "a path absent from the index is new"
    );
    assert_eq!(
        classify_for_indexing("/a/known.txt", 100, &existing),
        FileIndexAction::Skip,
        "same mtime means nothing to do"
    );
    assert_eq!(
        classify_for_indexing("/a/known.txt", 101, &existing),
        FileIndexAction::Update,
        "a changed mtime means re-read"
    );
}

#[test]
fn tests_classify_uses_mtime_against_the_existing_index() {
    let rows = known("known.txt", 100);
    assert_eq!(
        classify_for_indexing("new.txt", 100, &rows),
        FileIndexAction::Insert,
        "a name absent from the directory's rows is new"
    );
    assert_eq!(
        classify_for_indexing("known.txt", 100, &rows),
        FileIndexAction::Skip,
        "same mtime means nothing to do"
    );
    assert_eq!(
        classify_for_indexing("known.txt", 101, &rows),
        FileIndexAction::Update,
        "a changed mtime means re-read"
    );
}

#[test]
fn classify_by_mtime_matches_the_name_keyed_path() {
    assert_eq!(classify_by_mtime(None, 100), FileIndexAction::Insert);
    assert_eq!(classify_by_mtime(Some(100), 100), FileIndexAction::Skip);
    assert_eq!(classify_by_mtime(Some(99), 100), FileIndexAction::Update);
}

#[test]
fn file_handling_db_path_strips_windows_prefixes() {
    assert_eq!(path_to_db_string("/plain/unix/path"), "/plain/unix/path");
    assert_eq!(path_to_db_string(r"\\?\C:\docs\a.txt"), r"C:\docs\a.txt");
    assert_eq!(
        path_to_db_string(r"\\?\UNC\server\share\a.txt"),
        r"\\server\share\a.txt"
    );
    assert_eq!(
        path_to_db_string(r"\\?\Volume{9f8a}\data\a.txt"),
        r"\\?\Volume{9f8a}\data\a.txt"
    );
}

#[test]
fn tests_db_path_strips_windows_prefixes() {
    for (raw, stored) in [
        ("/plain/unix/path", "/plain/unix/path"),
        (r"\\?\C:\docs\a.txt", r"C:\docs\a.txt"),
        (r"\\?\UNC\server\share\a.txt", r"\\server\share\a.txt"),
        (
            r"\\?\Volume{9f8a}\data\a.txt",
            r"\\?\Volume{9f8a}\data\a.txt",
        ),
    ] {
        assert_eq!(path_to_db_string(raw), stored);
        assert_eq!(path_to_db_string(stored), stored, "a stored spelling is stable");
    }
}

#[test]
fn extract_cursor_brackets_paths_under_its_root() {
    let sep = MAIN_SEPARATOR;
    let root = format!("/Users{sep}me");
    let c = ExtractCursor::for_root(&root, sep_of_platform());
    let inside = format!("{root}{sep}docs{sep}a.txt");
    assert!(
        inside.as_str() >= c.lo.as_str() && inside.as_str() < c.hi.as_str(),
        "{inside:?} must fall inside [{:?}, {:?})",
        c.lo,
        c.hi
    );
    assert!(root.as_str() < c.lo.as_str());
    let sibling = format!("/Users{sep}mexico{sep}a.txt");
    assert!(
        !(sibling.as_str() >= c.lo.as_str() && sibling.as_str() < c.hi.as_str()),
        "{sibling:?} is a sibling of {root:?}, not a child"
    );
    for spelled in [format!("{root}/"), format!("{root}\\")] {
        let c2 = ExtractCursor::for_root(&spelled, sep_of_platform());
        assert_eq!((&c2.lo, &c2.hi), (&c.lo, &c.hi), "spelled {spelled:?}");
    }
    assert_eq!(c.last_id, 0);
}

fn unreadable_by_component() {
    let mut u = UnreadableDirs::default();
    assert!(u.is_empty());
    assert!(!u.covers("/a/b/c.txt", Separator::Slash), "an empty set covers nothing");

    u.record("/a/b".to_string());
    assert!(u.covers("/a/b/c.txt", Separator::Slash));
    assert!(u.covers("/a/b", Separator::Slash));
    assert!(!u.covers("/a/bc/d.txt", Separator::Slash));
    assert!(!u.covers("/a/other.txt", Separator::Slash));
    assert_eq!(u.paths(), vec!["/a/b".to_string()]);
}

#[test]
fn file_handling_unreadable_dirs_match_by_component_not_string_prefix() {
    unreadable_by_component();
}

#[test]
fn tests_unreadable_dirs_match_by_component_not_string_prefix() {
    unreadable_by_component();
}

#[test]
fn the_stored_spelling_of_an_unrepresentable_path_is_another_files_key() {
    let bad: &[u8] = b"/docs/report\xff.txt";
    let shown = String::from_utf8_lossy(bad).into_owned();
    let twin = "/docs/report\u{FFFD}.txt";

    assert!(warn_if_unrepresentable(std::str::from_utf8(bad).ok(), &shown).is_some());
    assert!(
        warn_if_unrepresentable(Some(twin), twin).is_none(),
        "the twin is an ordinary name and must pass"
    );
    assert_eq!(
        path_to_db_string(&shown),
        path_to_db_string(twin),
        "two different files, one stored key"
    );
    assert_eq!(
        path_to_db_string(&format!("{shown}/child.txt")),
        path_to_db_string(&format!("{twin}/child.txt"))
    );
    let child: &[u8] = b"/docs/report\xff.txt/child.txt";
    let child_shown = String::from_utf8_lossy(child).into_owned();
    let line = warn_if_unrepresentable(std::str::from_utf8(child).ok(), &child_shown).unwrap();
    assert!(line.contains(&child_shown), "{line}");
}

/// The key of a path where only these directories still resolve.
fn key_for_missing(path: &str, resolves: &[(&str, &str)]) -> String {
    let (mut search, mut step) = db_key_for_missing_path(path, sep_of_platform());
    loop {
        match step {
            MissingStep::Key(k) => return k,
            MissingStep::Try(p) => {
                let found = resolves.iter().find(|(d, _)| *d == p).map(|(_, r)| *r);
                step = search.advance(found);
            }
        }
    }
}

#[test]
fn tests_db_key_for_an_entirely_missing_path_falls_back_to_the_raw_spelling() {
    let nowhere = "relative-thing-that-does-not-exist.txt";
    assert_eq!(key_for_missing(nowhere, &[]), path_to_db_string(nowhere));
}

#[test]
fn file_handling_db_key_for_an_entirely_missing_path_falls_back_to_the_raw_spelling() {
    assert_eq!(key_for_missing("/a/b/c", &[]), "/a/b/c");
}

#[test]
fn tests_db_key_for_a_vanished_path_canonicalizes_what_remains() {
    assert_eq!(
        key_for_missing("/link/sub/gone/deeper.txt", &[("/link/sub", "/real/sub")]),
        "/real/sub/gone/deeper.txt",
        "existing prefix resolved, missing tail kept"
    );
    let odd = key_for_missing("/root/sub/./gone.txt", &[("/root/sub", "/root/sub")]);
    assert!(!odd.contains("/./"), "unexpected `.` component in {odd}");
}

#[test]
fn a_split_path_concatenates_back_into_itself() {
    let root = Path::new("/");
    let cases = [
        root.join("a.txt"),
        root.join("home").join("me").join("x.md"),
        root.join("dir with spaces").join("y"),
        root.join("weird.name").join("z.tar.gz"),
    ];
    for path in cases {
        let s = path_to_db_string(path.to_str().unwrap());
        let (parent, name) = split_db_path(&s, sep_of_platform()).expect("a file's path");
        assert_eq!(
            format!("{parent}{name}"),
            s,
            "{s:?} must round-trip through its (parent, name) key"
        );
        assert_eq!(
            name,
            path.file_name().unwrap().to_str().unwrap(),
            "the name half is the file name"
        );
        assert_eq!(
            parent,
            dir_to_db_parent(path.parent().unwrap().to_str().unwrap(), sep_of_platform()),
            "the parent half is what `dir_to_db_parent` would store"
        );
        assert!(
            parent.ends_with(MAIN_SEPARATOR),
            "a stored parent always ends in a separator: {parent:?}"
        );
        assert!(
            !name.contains(MAIN_SEPARATOR),
            "a stored name never contains one: {name:?}"
        );
    }
}

#[test]
fn a_root_directory_does_not_get_a_doubled_separator() {
    let parent = dir_to_db_parent("/", sep_of_platform());
    assert_eq!(parent, path_to_db_string("/"));
    assert!(!parent.ends_with(&format!("{MAIN_SEPARATOR}{MAIN_SEPARATOR}")));
    assert_eq!(format!("{parent}a.txt"), path_to_db_string("/a.txt"));
}

#[test]
fn a_string_that_cannot_be_a_files_path_has_no_key() {
    assert_eq!(split_db_path("bare-name.txt", sep_of_platform()), None, "no separator at all");
    assert_eq!(
        split_db_path(&format!("{MAIN_SEPARATOR}dir{MAIN_SEPARATOR}"), sep_of_platform()),
        None,
        "trailing separator: names a directory, not a file"
    );
    assert_eq!(split_db_path("", sep_of_platform()), None);
}

#[test]
fn a_backslash_is_just_a_character_on_unix() {
    let (parent, name) = split_db_path(r"/home/me/back\slash.txt", Separator::Slash).expect("a file's path");
    assert_eq!(parent, "/home/me/");
    assert_eq!(name, r"back\slash.txt");
    assert_eq!(dir_to_db_parent(r"/tmp/weird\", Separator::Slash), r"/tmp/weird\/");
}

#[test]
fn a_root_is_spelled_as_it_resolves() {
    assert_eq!(
        normalize_root_string("/link/", Some(r"\\?\C:\docs")),
        r"C:\docs"
    );
    assert_eq!(normalize_root_string("/gone/", None), "/gone/");
}

#[test]
fn the_index_and_its_sidecars_are_one_set() {
    let set = index_file_set("/db/index.sqlite", None, Separator::Slash);
    assert!(set.contains(&"/db/index.sqlite".to_string()), "{set:?}");
    assert!(set.contains(&"/db/index.sqlite-wal".to_string()), "{set:?}");
    assert_eq!(set.len(), 5);
}

fn entry(depth: usize) -> WalkEntry {
    WalkEntry {
        depth,
        hidden: false,
        ignored_name: false,
        ignored_path: false,
        is_symlink: false,
        is_dir: false,
    }
}

#[test]
fn tests_filtered_walk_prunes_hidden_and_ignored() {
    let hidden = WalkEntry { hidden: true, ..entry(1) };
    let by_name = WalkEntry { ignored_name: true, ..entry(1) };
    let by_path = WalkEntry { ignored_path: true, ..entry(1) };
    assert!(filtered_walk(&entry(1), false, false));
    assert!(!filtered_walk(&hidden, false, false));
    assert!(filtered_walk(&hidden, false, true), "include_hidden brings dotfiles back");
    for e in [by_name, by_path] {
        assert!(!filtered_walk(&e, false, true), "but ignores still apply");
        assert!(!walk_filter(&e, true));
    }
}

#[test]
fn tests_filtered_walk_hidden_root_still_walked() {
    let root = WalkEntry { hidden: true, is_dir: true, ..entry(0) };
    assert!(walk_filter(&root, false));
    assert!(filtered_dirs(&root, false, false));
}

#[test]
fn tests_filtered_dirs_and_filtered_walk_do_not_overlap() {
    for is_dir in [false, true] {
        let e = WalkEntry { is_dir, ..entry(1) };
        assert_eq!(filtered_walk(&e, false, false), !is_dir);
        assert_eq!(filtered_dirs(&e, false, false), is_dir);
    }
}

#[test]
fn a_symlink_inside_a_root_is_skipped_when_following_is_off() {
    let link = WalkEntry { is_symlink: true, ..entry(1) };
    assert!(!filtered_walk(&link, false, false));
    assert!(filtered_walk(&link, true, false));
    let dir_link = WalkEntry { is_dir: true, ..link };
    assert!(!filtered_dirs(&dir_link, false, false));
    assert!(filtered_dirs(&dir_link, true, false));
}

fn identity(body: &[u8], hash_length: usize) -> [u8; 32] {
    let n = head_length(body.len() as u64, hash_length);
    get_file_hash(body.len() as u64, &body[..n])
}

#[test]
fn tests_hash_covers_size_and_head_only() {
    let a = [b"HEAD".as_slice(), &[0u8; 64], b"AAAA"].concat();
    let b = [b"HEAD".as_slice(), &[0u8; 64], b"BBBB"].concat();
    let c = [b"DIFF".as_slice(), &[0u8; 64], b"AAAA"].concat();
    assert_eq!(identity(&a, 8), identity(&b, 8), "tail differences are invisible by design");
    assert_ne!(identity(&a, 8), identity(&c, 8), "head differences are caught");
    assert_ne!(identity(&a, 8), identity(b"HEAD", 8));
    assert_eq!(head_length(72, 8), 8, "exactly hash_length bytes");
    assert_eq!(head_length(4, 8), 4, "a short file hashes whole");
}

#[test]
fn the_hash_is_sha256_of_size_and_head() {
    // sha256 of eight zero bytes: an empty file's size and no head.
    let expected = "af5570f5a1810b7af78caf4bc70a660f0df51e42baf91d4de5b2328de0e83dfc";
    let got: String = get_file_hash(0, b"").iter().map(|b| format!("{b:02x}")).collect();
    assert_eq!(got, expected);
}

#[test]
fn truncation_backs_up_to_a_character_boundary() {
    for (text, max, want) in [
        ("héllo", 2, "h"),
        ("héllo", 3, "hé"),
        ("héllo", 100, "héllo"),
        ("héllo", 0, ""),
        ("é", 1, ""),
    ] {
        let mut s = text.to_string();
        safe_truncate(&mut s, max);
        assert_eq!(s, want, "{text} at {max}");
    }
}

fn stat(size: u64) -> FileStat {
    FileStat { is_file: true, size, mtime: Some(7), dehydrated: false }
}

fn sniffed(mime: Option<&str>) -> Sniffed {
    Sniffed {
        mime: mime.map(str::to_string),
        ftype: FileType { bits: 4 },
        content_allowed: true,
    }
}

fn prepare(stat: &FileStat, body: &[u8], mime: Option<&str>, config: &Config) -> Prepared {
    prepare_file_record(
        "/dir/notes.txt",
        stat,
        Ok(body.to_vec()),
        None,
        sniffed(mime),
        Separator::Slash,
        config,
        &Registry::default_set(),
    )
}

fn record(p: Prepared) -> OwnedNewFile {
    match p {
        Prepared::Record(r) => r,
        other => panic!("expected a record, got {other:?}"),
    }
}

#[test]
fn prepare_file_record_marks_only_claimable_files() {
    let config = config();
    let needs = |mime: Option<&str>| record(prepare(&stat(4), b"body", mime, &config)).needs_content;
    assert!(needs(Some("text/plain")), "plaintext is claimed");
    assert!(needs(Some("audio/mpeg")), "audio tags are content too");
    assert!(!needs(Some("video/mp4")), "no extractor claims video");
    assert!(!needs(None), "binary content: no MIME, no extractor");

    let mut small_cap = config.clone();
    small_cap.processing.maximum_text_file_size = 1024;
    assert!(!record(prepare(&stat(4096), b"x", Some("text/plain"), &small_cap)).needs_content);
    assert!(record(prepare(&stat(4096), b"x", Some("text/plain"), &config)).needs_content);

    let mut narrowed = sniffed(Some("text/plain"));
    narrowed.content_allowed = false;
    let r = prepare_file_record(
        "/dir/notes.txt",
        &stat(4),
        Ok(b"body".to_vec()),
        None,
        narrowed,
        Separator::Slash,
        &config,
        &Registry::default_set(),
    );
    assert!(!record(r).needs_content);
}

#[test]
fn a_small_text_file_is_finished_by_the_walk() {
    let config = config();
    let r = record(prepare(&stat(4), b"body", Some("text/plain"), &config));
    assert_eq!(r.inline_text.as_deref(), Some("body"));
    assert_eq!(r.path(), "/dir/notes.txt");
    assert_eq!((r.parent.as_str(), r.name.as_str()), ("/dir/", "notes.txt"));
    assert_eq!((r.size, r.mtime), (4, 7));
    assert_eq!(r.hash, Some(get_file_hash(4, b"body")));
    let row = r.as_new_file();
    assert_eq!(row.mime, Some("text/plain"));
    assert_eq!(row.hash, Some(&get_file_hash(4, b"body")[..]));
    assert!(row.needs_content);
    assert_eq!(row.ftype, FileType { bits: 4 });

    // Past the head, or reporting size 0, the file is left to the content pass.
    let big = record(prepare(&stat(9000), b"body", Some("text/plain"), &config));
    assert_eq!(big.inline_text, None);
    assert!(big.needs_content);
    let empty = record(prepare(&stat(0), b"", Some("text/plain"), &config));
    assert_eq!(empty.inline_text, None);
    assert!(empty.needs_content);

    let mut short = config.clone();
    short.processing.maximum_text_size = 2;
    let r = record(prepare(&stat(4), b"body", Some("text/plain"), &short));
    assert_eq!(r.inline_text.as_deref(), Some("bo"));
    assert_eq!(record(prepare(&stat(4), b"body", None, &config)).ftype, FileType { bits: 0 });
}

#[test]
fn a_placeholder_is_indexed_from_its_metadata_alone() {
    let config = config();
    let away = FileStat { dehydrated: true, ..stat(4) };
    let r = prepare_file_record(
        "/dir/notes.txt",
        &away,
        Err("not read".to_string()),
        None,
        sniffed(Some("text/plain")),
        Separator::Slash,
        &config,
        &Registry::default_set(),
    );
    let r = record(r);
    assert_eq!(r.hash, None);
    assert!(!r.needs_content);
    assert_eq!(r.inline_text, None);
}

#[test]
fn what_is_no_readable_regular_file_gets_no_record() {
    let config = config();
    let dir = FileStat { is_file: false, ..stat(4) };
    assert!(matches!(prepare(&dir, b"body", None, &config), Prepared::Skipped));
    let undated = FileStat { mtime: None, ..stat(4) };
    assert!(matches!(prepare(&undated, b"body", None, &config), Prepared::Skipped));
    let bare = prepare_file_record(
        "no-separator",
        &stat(4),
        Ok(b"body".to_vec()),
        None,
        sniffed(None),
        Separator::Slash,
        &config,
        &Registry::default_set(),
    );
    assert!(matches!(bare, Prepared::Skipped));
    let locked = prepare_file_record(
        "/dir/locked",
        &stat(4),
        Err("denied".to_string()),
        None,
        sniffed(None),
        Separator::Slash,
        &config,
        &Registry::default_set(),
    );
    assert!(matches!(locked, Prepared::Unhashed(ref e) if e == "denied"));
}

#[test]
fn hash_failures_speak_twenty_times_a_run() {
    let mut failures = Throttle::new(HASH_FAILURE_LIMIT);
    for i in 0..23 {
        let line = hash_failure(&mut failures, "/a", "denied");
        if i < 20 {
            assert_eq!(
                line.as_deref(),
                Some("Skipping file (cannot hash) /a: denied")
            );
        } else {
            assert_eq!(line, None);
        }
    }
    assert_eq!(hash_failure_counts(&failures), (23, 3));
    reset_run_warnings(&mut failures);
    assert_eq!(hash_failure_counts(&failures), (0, 0));
}

#[test]
fn content_extractable_is_decide_contents_not_applicable() {
    let config = config();
    let registry = Registry::default_set();
    let scratch = Scratch::new(&config);
    let legacy: &[u8] = b"Le caf\xe9 pr\xe8s de la fen\xeatre est agr\xe9able en \xe9t\xe9.";
    let plain: &[u8] = b"plain bytes with no magic";
    let cases: [(&str, Option<&str>, &[u8]); 10] = [
        ("notes.txt", Some("text/plain"), plain),
        ("data.json", Some("application/json"), plain),
        ("schema.sql", Some("application/x-sql"), plain),
        ("song.mp3", Some("audio/mpeg"), plain),
        ("photo.jpg", Some("image/jpeg"), plain),
        ("movie.mp4", Some("video/mp4"), plain),
        ("archive.zip", Some("application/zip"), plain),
        ("noextension", None, plain),
        ("real.bin", None, b"\x00\x01\x02\x03"),
        ("legacy.txt", Some("text/plain"), legacy),
    ];
    for allowed in [true, false] {
        for (name, mime, body) in cases {
            let file = SourceFile {
                path: format!("/dir/{name}"),
                sep: Separator::Slash,
                body: body.to_vec(),
                parsed: Some(Parsed::Text("decoded".to_string())),
                rendered: Vec::new(),
            };
            let claimed = content_extractable(allowed, mime, &registry);
            let outcome = decide_content(&file, mime, allowed, &registry, &config, &scratch);
            assert_eq!(
                claimed,
                outcome != ContentOutcome::NotApplicable,
                "{name}: predicate says {claimed}, decide_content says {outcome:?}"
            );
        }
    }
}

#[test]
fn a_decision_is_text_nothing_or_a_reason() {
    let config = config();
    let registry = Registry::default_set();
    let scratch = Scratch::new(&config);
    let file = |parsed| SourceFile {
        path: "/dir/a.pdf".to_string(),
        sep: Separator::Slash,
        body: b"%PDF".to_vec(),
        parsed: Some(parsed),
        rendered: Vec::new(),
    };
    let pdf = Some("application/pdf");
    let done = decide_content(
        &file(Parsed::Text("page".to_string())),
        pdf,
        true,
        &registry,
        &config,
        &scratch,
    );
    assert_eq!(outcome_body(&done), Some("page"));
    let failed = decide_content(
        &file(Parsed::Failed("broken".to_string())),
        pdf,
        true,
        &registry,
        &config,
        &scratch,
    );
    assert!(matches!(failed, ContentOutcome::Failed(_)));
    assert_eq!(outcome_body(&failed), None);
    let none = decide_content(
        &file(Parsed::Text("page".to_string())),
        None,
        true,
        &registry,
        &config,
        &scratch,
    );
    assert_eq!(none, ContentOutcome::NotApplicable);
}

#[test]
fn a_batch_is_written_chunk_by_chunk() {
    let mut config = config();
    config.processing.batch_size = 2;
    let mut w = process_batch_inserts(3, &config);
    let mut steps = Vec::new();
    loop {
        let s = w.next(false);
        steps.push(s);
        if s == BatchStep::Finished {
            break;
        }
    }
    assert_eq!(
        steps,
        vec![
            BatchStep::Open { from: 0, to: 2 },
            BatchStep::Row(0),
            BatchStep::Row(1),
            BatchStep::Commit,
            BatchStep::Open { from: 2, to: 3 },
            BatchStep::Row(2),
            BatchStep::Commit,
            BatchStep::Finished,
        ]
    );
}

#[test]
fn a_stop_inside_a_chunk_abandons_it() {
    let mut w = process_batch_updates(3, &config());
    assert_eq!(w.next(false), BatchStep::Open { from: 0, to: 3 });
    assert_eq!(w.next(false), BatchStep::Row(0));
    assert_eq!(w.next(true), BatchStep::Abandon);
    assert_eq!(w.next(true), BatchStep::Finished);
    let mut between = process_batch_updates(3, &config());
    assert_eq!(between.next(true), BatchStep::Finished);
    let mut empty = process_batch_updates(0, &config());
    assert_eq!(empty.next(false), BatchStep::Finished);
}

#[test]
fn a_zero_batch_size_does_not_panic_the_writer() {
    let mut config = config();
    config.processing.batch_size = 0;
    config.processing.fts_update_batch_size = 0;
    let mut w = process_batch_inserts(1, &config);
    assert_eq!(w.next(false), BatchStep::Open { from: 0, to: 1 });
    let mut w = process_batch_updates(2, &config);
    assert_eq!(w.next(false), BatchStep::Open { from: 0, to: 1 });
    let mut c = cleanup_stale_index_entries(1, &config);
    assert_eq!(c.next(false), CleanupStep::Open);
}

#[test]
fn a_cleanup_commits_what_it_began() {
    let mut config = config();
    config.processing.batch_size = 2;
    let mut c = cleanup_stale_index_entries(3, &config);
    assert_eq!(c.next(false), CleanupStep::Open);
    assert_eq!(c.next(false), CleanupStep::Delete(0));
    c.deleted(true);
    assert_eq!(c.next(true), CleanupStep::Delete(1), "a chunk that was begun goes on");
    c.deleted(true);
    assert_eq!(c.next(true), CleanupStep::Commit);
    assert_eq!(c.next(true), CleanupStep::Finished(2), "the next one is not begun");

    let mut c = cleanup_stale_index_entries(1, &config);
    assert_eq!(c.next(false), CleanupStep::Open);
    assert_eq!(c.next(false), CleanupStep::Delete(0));
    c.deleted(true);
    assert_eq!(c.next(false), CleanupStep::Commit);
    assert_eq!(c.next(false), CleanupStep::Merge);
    assert_eq!(c.next(false), CleanupStep::Finished(1));

    let mut c = cleanup_stale_index_entries(1, &config);
    c.next(false);
    c.next(false);
    c.deleted(false);
    assert_eq!(c.next(false), CleanupStep::Commit);
    assert_eq!(c.next(false), CleanupStep::Finished(0), "nothing went, nothing to merge");
}

#[test]
fn a_late_store_turn_writes_one_row() {
    let mut t = store_extracted(5);
    assert_eq!(t.next(false, true), StoreStep::Open { from: 0, to: 5 });
    assert_eq!(t.next(false, true), StoreStep::Row(0));
    t.written();
    assert_eq!(t.next(false, true), StoreStep::Commit);
    assert_eq!(
        t.next(false, true),
        StoreStep::Finished(Stored { consumed: 1, written: 1 })
    );
}

#[test]
fn a_store_turn_commits_every_chunk() {
    let mut t = store_extracted(40);
    let mut commits = 0;
    let mut rows = 0;
    loop {
        match t.next(false, false) {
            StoreStep::Row(i) => {
                assert_eq!(i, rows);
                rows += 1;
                if i != 3 {
                    t.written();
                }
            }
            StoreStep::Commit => commits += 1,
            StoreStep::Open { from, to } => assert!(to - from <= batch::STORE_CHUNK),
            StoreStep::Finished(s) => {
                assert_eq!(s, Stored { consumed: 40, written: 39 });
                break;
            }
        }
    }
    assert_eq!(commits, 2);
    assert_eq!(store_extracted(3).next(true, false), StoreStep::Finished(Stored::default()));
}

#[test]
fn extraction_advances_only_past_what_was_processed() {
    let mut cursor = ExtractCursor::for_root("/r", sep_of_platform());
    let mut b = extract_one_batch(false, vec![4, 9, 12]);
    assert_eq!(b.next(false, &mut cursor), Some(0));
    assert_eq!(b.next(false, &mut cursor), Some(1));
    assert_eq!(b.next(true, &mut cursor), None);
    assert_eq!(cursor.last_id, 9);
    assert_eq!(b.processed(), 2);
    assert_eq!(extract_one_batch(true, vec![1]).next(false, &mut cursor), None);
}

#[test]
fn bodies_keep_one_slot_per_row() {
    let mut bodies = Bodies::new();
    bodies.push(Some(Ok(vec![1, 2, 3])));
    bodies.push(None);
    bodies.push(Some(Err("too big".to_string())));
    bodies.push(Some(Ok(vec![4])));
    assert_eq!(bodies.get(0), Ok(Some(&[1u8, 2, 3][..])));
    assert_eq!(bodies.get(1), Ok(None));
    assert_eq!(bodies.get(2), Err("too big"));
    assert_eq!(bodies.get(3), Ok(Some(&[4u8][..])));
    bodies.clear();
    bodies.push(Some(Ok(vec![9])));
    assert_eq!(bodies.get(0), Ok(Some(&[9u8][..])));

    let mut config = config();
    assert!(wants_body(Some("text"), &config));
    assert!(!wants_body(Some(""), &config));
    assert!(!wants_body(None, &config));
    config.processing.store_text_for_snippets = false;
    assert!(!wants_body(Some("text"), &config));
}

#[test]
fn a_rows_text_is_stored_under_its_id() {
    assert_eq!(row_content(Some(7), true, true), RowContent::Store(7));
    assert_eq!(row_content(Some(7), true, false), RowContent::Skip);
    assert_eq!(row_content(Some(7), false, true), RowContent::Nothing);
    assert_eq!(row_content(None, true, true), RowContent::Nothing);
    assert_eq!(compress_warning("/a", "bad"), "compress text for /a: bad");
    assert_eq!(update_warning("/a", Some(1)), None);
    assert_eq!(
        update_warning("/a", None).as_deref(),
        Some("no indexed row matched /a during update; inserting instead")
    );
}

#[test]
fn a_scope_counts_no_less_than_nothing() {
    let s = count_extract_scope(-1, 4);
    assert_eq!((s.pending, s.already_done), (0, 4));
    let mut config = config();
    assert_eq!(max_text_file_size(&config), 2 * 1024 * 1024);
    config.processing.maximum_text_file_size = u64::MAX;
    assert_eq!(max_text_file_size(&config), i64::MAX);
}

#[test]
fn a_burst_merges_until_nothing_changes() {
    assert_eq!(fts::fts_begin_tombstone_burst(), FtsSetting::Deletemerge(0));
    assert_eq!(fts::fts_finalize_after_text_indexing(), FtsSetting::Merge(1000));
    let (restored, mut merge) = fts::fts_end_tombstone_burst(Some(10));
    assert_eq!(restored, FtsSetting::Deletemerge(10));
    assert!(merge.wants_merge());
    merge.merged(Some(6));
    assert!(merge.wants_merge());
    merge.merged(Some(6));
    assert!(!merge.wants_merge());
    let (_, mut blind) = fts::fts_end_tombstone_burst(None);
    blind.merged(None);
    assert!(!blind.wants_merge(), "an unreadable index ends the loop");
    let (_, mut restless) = fts::fts_end_tombstone_burst(Some(0));
    let mut rounds = 0;
    while restless.wants_merge() {
        rounds += 1;
        restless.merged(Some(rounds));
    }
    assert_eq!(rounds, 8);
    assert_eq!(
        fts::fts_begin_bulk_write(),
        [
            FtsSetting::Automerge(16),
            FtsSetting::Deletemerge(10),
            FtsSetting::Crisismerge(32),
        ]
    );
}

fn cancelled_count() {
    let mut count = count_tree_entries_fast("/");
    let step = count.poll(true, Polled::Running);
    let CountStep::Kill(error) = step else {
        panic!("a cancelled count must kill its processes, got {step:?}");
    };
    assert!(
        error.contains("cancelled"),
        "error must be recognizable as cancellation"
    );
    let ended = count.ended(Err(error));
    assert!(matches!(ended, CountStep::Done(Err(ref e)) if e.contains("cancelled")));
}

#[test]
fn file_handling_count_cancelled_returns_promptly() {
    cancelled_count();
}

#[test]
fn count_and_extract_tests_count_cancelled_returns_promptly() {
    cancelled_count();
}

#[test]
fn a_count_reads_the_first_word() {
    assert_eq!(parse_wc_l_stdout(b"  42\n"), Ok(42));
    assert_eq!(parse_wc_l_stdout(b"+7 total"), Ok(7));
    assert_eq!(parse_wc_l_stdout(b" \n"), Err("wc: empty output".to_string()));
    assert_eq!(
        parse_wc_l_stdout(b"4x2"),
        Err("wc: invalid count \"4x2\": invalid digit found in string".to_string())
    );
    assert_eq!(
        parse_wc_l_stdout(b"99999999999999999999999999"),
        Err(
            "wc: invalid count \"99999999999999999999999999\": number too large to fit in target type"
                .to_string()
        )
    );
    for raw in ["4x2", "-1", "+", "99999999999999999999999999", "99999999999999999999999999x", "1é"] {
        let said = raw.parse::<usize>().unwrap_err().to_string();
        let line = parse_wc_l_stdout(raw.as_bytes()).unwrap_err();
        assert_eq!(line, format!("wc: invalid count {raw:?}: {said}"));
    }
}

#[test]
fn a_failed_fast_listing_is_retried_plainly() {
    let mut count = count_tree_entries_fast("/data");
    assert_eq!(count.args(), vec!["/data", "-printf", "\n"]);
    assert!(matches!(count.poll(false, Polled::Running), CountStep::Sleep(50)));
    let failed = Polled::Exited {
        success: false,
        status: "exit status: 1".to_string(),
        stdout: Vec::new(),
    };
    assert!(matches!(count.poll(false, failed), CountStep::Retry));
    assert_eq!(count.args(), vec!["/data"]);
    let done = Polled::Exited {
        success: true,
        status: "exit status: 0".to_string(),
        stdout: b"12\n".to_vec(),
    };
    assert!(matches!(count.poll(false, done), CountStep::Done(Ok(12))));
    let again = Polled::Failed("gone".to_string());
    assert!(
        matches!(count.poll(false, again), CountStep::Done(Err(ref e)) if e == "count wait: gone"),
        "the plain listing is the last"
    );
    let none = poll_pipeline(false, Polled::Missing);
    assert!(
        matches!(none, PollStep::Done(Err(ref e)) if e == "count pipeline spawned no processes")
    );
    assert_eq!(find_args("/x", false), vec!["/x"]);
}

fn listing(entries: &[(&str, bool)]) -> Vec<u8> {
    let mut out = Vec::new();
    for (i, (name, is_dir)) in entries.iter().enumerate() {
        let units: Vec<u16> = name.encode_utf16().collect();
        let mut rec = vec![0u8; 104];
        for u in &units {
            rec.extend_from_slice(&u.to_le_bytes());
        }
        while rec.len() % 8 != 0 {
            rec.push(0);
        }
        let next = if i + 1 < entries.len() { rec.len() as u32 } else { 0 };
        rec[0..4].copy_from_slice(&next.to_le_bytes());
        let attributes: u32 = if *is_dir { 0x10 } else { 0x20 };
        rec[56..60].copy_from_slice(&attributes.to_le_bytes());
        rec[60..64].copy_from_slice(&((units.len() * 2) as u32).to_le_bytes());
        out.extend_from_slice(&rec);
    }
    out
}

fn wide(s: &str) -> Vec<u16> {
    s.encode_utf16().collect()
}

#[test]
fn a_bulk_listing_counts_entries_and_descends() {
    let mut count = BulkCount::new(wide("C:\\data"));
    let BulkStep::Open(dir) = count.next_dir(false) else {
        panic!("the root comes first");
    };
    assert_eq!(dir, wide("C:\\data"));
    let buffer = listing(&[(".", true), ("..", true), ("a.txt", false), ("sub", true)]);
    let mut off = 0;
    loop {
        match count.record(&buffer, off, false) {
            RecordStep::Next(n) => off = n,
            RecordStep::BufferDone => break,
            RecordStep::Cancelled => panic!("nobody cancelled"),
        }
    }
    let BulkStep::Open(sub) = count.next_dir(false) else {
        panic!("the subdirectory was not noted");
    };
    assert_eq!(sub, wide("C:\\data\\sub"));
    assert!(matches!(count.next_dir(false), BulkStep::Done(Ok(2))));
}

#[test]
fn a_bulk_count_stops_when_cancelled() {
    let mut count = BulkCount::new(wide("C:\\data"));
    assert!(matches!(count.next_dir(true), BulkStep::Done(Err(ref e)) if e == "count cancelled"));
    let mut count = BulkCount::new(wide("C:\\data"));
    count.next_dir(false);
    let buffer = listing(&[("a.txt", false)]);
    assert_eq!(count.record(&buffer, 0, true), RecordStep::Cancelled);
}

#[test]
fn a_record_outside_the_buffer_is_none() {
    let buffer = listing(&[("a.txt", false)]);
    let r = read_record(&buffer, 0).unwrap();
    assert_eq!((r.next, r.is_dir, r.name), (0, false, wide("a.txt")));
    assert!(read_record(&buffer, 1).is_some() == (buffer.len() > 104 + 10));
    assert!(read_record(&buffer, buffer.len()).is_none());
    assert!(read_record(&buffer[..104], 0).is_none(), "the name lies past the end");
}

#[test]
fn an_event_removes_before_it_upserts() {
    let plan = apply_fs_event(FsEvent::Rename {
        from: Some("/a".to_string()),
        to: Some("/b".to_string()),
    });
    assert_eq!(plan.remove, Some(Some("/a".to_string())));
    assert_eq!(plan.upsert, Some(Some("/b".to_string())));
    let plan = apply_fs_event(FsEvent::Remove(None));
    assert_eq!((plan.remove, plan.upsert), (Some(None), None));
    let plan = apply_fs_event(FsEvent::Create(Some("/c".to_string())));
    assert_eq!((plan.remove, plan.upsert), (None, Some(Some("/c".to_string()))));
}

fn facts() -> PathFacts {
    PathFacts {
        ignored: false,
        hidden: false,
        link: Some(false),
        dir: Some(false),
        spelled: true,
    }
}

#[test]
fn ignored_and_hidden_events_are_noops() {
    let mut config = config();
    assert_eq!(upsert_path(&facts(), &config), UpsertPlan::File);
    let ignored = PathFacts { ignored: true, ..facts() };
    assert_eq!(upsert_path(&ignored, &config), UpsertPlan::Nothing);
    let hidden = PathFacts { hidden: true, ..facts() };
    assert_eq!(upsert_path(&hidden, &config), UpsertPlan::Nothing);
    config.indexing.include_hidden = true;
    assert_eq!(upsert_path(&hidden, &config), UpsertPlan::File);
    assert_eq!(upsert_path(&ignored, &config), UpsertPlan::Nothing);
}

#[test]
fn a_symlinked_file_is_not_indexed_when_following_is_off() {
    let config = config();
    for link in [Some(true), None] {
        let f = PathFacts { link, ..facts() };
        assert_eq!(upsert_path(&f, &config), UpsertPlan::Nothing);
    }
}

#[test]
fn a_symlinked_file_is_indexed_when_following_is_on() {
    let mut config = config();
    config.indexing.follow_symlinks = true;
    let f = PathFacts { link: Some(true), ..facts() };
    assert_eq!(upsert_path(&f, &config), UpsertPlan::File);
}

#[test]
fn a_directory_event_for_an_unrepresentable_path_is_not_an_error() {
    let config = config();
    let dir = PathFacts { dir: Some(true), ..facts() };
    assert_eq!(upsert_path(&dir, &config), UpsertPlan::Walk);
    let unspelled = PathFacts { spelled: false, ..dir };
    assert_eq!(upsert_path(&unspelled, &config), UpsertPlan::Nothing);
    let gone = PathFacts { dir: None, ..facts() };
    assert_eq!(upsert_path(&gone, &config), UpsertPlan::Nothing);
}

/// Walk `total` entries; the turn is over after `slice` of those it upserts.
fn walk_numbered(total: usize, from: usize, slice: usize) -> (Applied, Vec<usize>) {
    let budget = Budget { deadline: slice as u64, resume_from: from };
    let mut turn = DirUpsert::new(&budget);
    let mut applied = Vec::new();
    for i in 0..total {
        match turn.entry(budget.spent(false, applied.len() as u64)) {
            EntryStep::PassOver => {}
            EntryStep::Upsert => applied.push(i),
            EntryStep::End(outcome) => return (outcome, applied),
        }
    }
    (turn.walk_ended(), applied)
}

fn walk_entries(total: usize, from: usize, slice: usize) -> (Applied, usize) {
    let (outcome, applied) = walk_numbered(total, from, slice);
    (outcome, applied.len())
}

#[test]
fn an_event_cut_into_turns_applies_each_entry_once() {
    let mut all = Vec::new();
    let mut from = 0;
    loop {
        let (outcome, applied) = walk_numbered(7, from, 3);
        all.extend(applied);
        match outcome {
            Applied::Unfinished { done } => from = done,
            Applied::Done => break,
        }
    }
    assert_eq!(all, vec![0, 1, 2, 3, 4, 5, 6]);
}

#[test]
fn a_directory_event_resumes_where_its_budget_ran_out() {
    assert_eq!(
        walk_entries(4, 0, 0),
        (Applied::Unfinished { done: 0 }, 0),
        "a spent budget must write nothing"
    );
    assert_eq!(
        walk_entries(4, 2, 3600),
        (Applied::Done, 2),
        "entries before the resume point must be skipped, not re-applied"
    );
    assert_eq!(walk_entries(4, 0, 3600), (Applied::Done, 4));
    assert_eq!(walk_entries(4, 1, 2), (Applied::Unfinished { done: 3 }, 2));
}

#[test]
fn resuming_past_the_end_indexes_nothing_rather_than_the_wrong_files() {
    assert_eq!(walk_entries(3, 99, 3600), (Applied::Done, 0));
    assert_eq!(walk_entries(3, 0, 3600), (Applied::Done, 3));
}

#[test]
fn a_cancelled_budget_is_spent() {
    let budget = Budget { deadline: 100, resume_from: 0 };
    assert!(!budget.spent(false, 99));
    assert!(budget.spent(false, 100));
    assert!(budget.spent(true, 0));
}

#[test]
fn an_unchanged_file_is_left_alone() {
    let r = record(prepare(&stat(4), b"body", Some("text/plain"), &config()));
    assert_eq!(upsert_file(Some((3, 7)), &r), RowPlan::Unchanged);
    assert_eq!(upsert_file(Some((3, 6)), &r), RowPlan::Update(3));
    assert_eq!(upsert_file(None, &r), RowPlan::Insert);
    let epoch = FileStat { mtime: Some(0), ..stat(4) };
    let r = record(prepare(&epoch, b"body", None, &config()));
    assert_eq!(upsert_file(Some((3, -5)), &r), RowPlan::Unchanged);
}

#[test]
fn oversize_files_get_content_na() {
    let config = config();
    let big = record(prepare(&stat(1 << 40), b"x", Some("text/plain"), &config));
    assert_eq!(content_plan(&big), ContentPlan::NotApplicable);
    let small = record(prepare(&stat(4), b"body", Some("text/plain"), &config));
    assert_eq!(content_plan(&small), ContentPlan::StoreInline);
    let middle = record(prepare(&stat(9000), b"x", Some("text/plain"), &config));
    assert_eq!(content_plan(&middle), ContentPlan::Extract);
}

#[test]
fn an_unclaimed_mime_is_na_in_the_watcher_path() {
    let r = record(prepare(&stat(4), b"body", Some("video/mp4"), &config()));
    assert_eq!(content_plan(&r), ContentPlan::NotApplicable);
}

#[test]
fn removing_an_unrepresentable_path_spares_its_lossy_twin() {
    assert!(removal(false, "/docs/report\u{FFFD}.txt", Separator::Slash).is_none());
    let r = removal(true, "/docs/dir", Separator::Slash).unwrap();
    assert_eq!(
        (r.path.as_str(), r.lo.as_str(), r.hi.as_str()),
        ("/docs/dir", "/docs/dir/", "/docs/dir0")
    );
}

#[test]
fn subtree_sweep_spares_prefix_siblings() {
    let r = removal(true, "/t/tree", Separator::Slash).unwrap();
    for (parent, inside) in [
        ("/t/tree/", true),
        ("/t/tree/deep/", true),
        ("/t/tree2/", false),
        ("/t/tree_x/", false),
        ("/t/", false),
    ] {
        assert_eq!(
            parent >= r.lo.as_str() && parent < r.hi.as_str(),
            inside,
            "{parent}"
        );
    }
}

#[test]
fn removals_are_chunked() {
    let mut w = remove_paths(3, 0);
    assert_eq!(w.next(false), BatchStep::Open { from: 0, to: 1 });
    let mut w = remove_paths(3, 2);
    assert_eq!(w.next(false), BatchStep::Open { from: 0, to: 2 });
}

#[test]
fn a_decision_keeps_no_more_text_than_the_settings_allow() {
    let mut config = config();
    let registry = Registry::default_set();
    let file = SourceFile {
        path: "/dir/notes.txt".to_string(),
        sep: Separator::Slash,
        body: "héllo".as_bytes().to_vec(),
        parsed: None,
        rendered: Vec::new(),
    };
    for (max, want) in [(0, ""), (2, "h"), (3, "hé"), (6, "héllo"), (100, "héllo")] {
        config.processing.maximum_text_size = max;
        let scratch = Scratch::new(&config);
        let outcome =
            decide_content(&file, Some("text/plain"), true, &registry, &config, &scratch);
        assert_eq!(outcome_body(&outcome), Some(want), "at {max}");
    }
}

#[test]
fn the_separator_of_the_platform_bounds_a_range() {
    let c = ExtractCursor::for_root(r"C:\Users\me\", Separator::Backslash);
    assert_eq!(c.lo, r"C:\Users\me\");
    assert_eq!(c.hi, r"C:\Users\me]");
    let inside = r"C:\Users\me\docs\".to_string();
    assert!(c.lo <= inside && inside < c.hi);
    let sibling = r"C:\Users\mexico\".to_string();
    assert!(!(c.lo <= sibling && sibling < c.hi));
    let c = ExtractCursor::for_root("/home/me", Separator::Slash);
    assert_eq!((c.lo.as_str(), c.hi.as_str()), ("/home/me/", "/home/me0"));
    let r = removal(true, r"C:\docs", Separator::Backslash).unwrap();
    assert_eq!((r.lo.as_str(), r.hi.as_str()), (r"C:\docs\", r"C:\docs]"));
}

#[test]
fn a_path_splits_at_the_separator_of_the_platform() {
    assert_eq!(
        split_db_path(r"C:\docs\a.txt", Separator::Backslash),
        Some((r"C:\docs\".to_string(), "a.txt".to_string()))
    );
    assert_eq!(split_db_path(r"C:\docs\a.txt", Separator::Slash), None);
    assert_eq!(dir_to_db_parent(r"C:\", Separator::Backslash), r"C:\");
    assert_eq!(dir_to_db_parent(r"\\?\C:\docs", Separator::Backslash), r"C:\docs\");
    assert_eq!(Separator::of('/').symbol(), '/');
    assert_eq!(Separator::of('\\').successor(), ']');
}

#[test]
fn a_decided_text_fits_and_a_reason_is_kept() {
    let mut config = config();
    config.processing.maximum_text_size = 4;
    let registry = Registry::default_set();
    let scratch = Scratch::new(&config);
    let file = |parsed| SourceFile {
        path: "/dir/a.pdf".to_string(),
        sep: Separator::Slash,
        body: b"%PDF".to_vec(),
        parsed: Some(parsed),
        rendered: Vec::new(),
    };
    let pdf = Some("application/pdf");
    let long = file(Parsed::Text("pages".to_string()));
    assert_eq!(
        decide_content(&long, pdf, true, &registry, &config, &scratch),
        ContentOutcome::Done { text: "page".to_string() },
    );
    assert_eq!(
        decide_content(&long, pdf, false, &registry, &config, &scratch),
        ContentOutcome::NotApplicable,
    );
    let broken = file(Parsed::Failed("no trailer".to_string()));
    let reason = registry.extract_to_string(&broken, "application/pdf", &config).unwrap_err();
    assert_eq!(
        decide_content(&broken, pdf, true, &registry, &config, &scratch),
        ContentOutcome::Failed(reason),
    );
}

#[test]
fn a_windows_path_divides_at_both_separators() {
    let sep = Separator::Backslash;
    let parts = |p: &str| path_components(p, sep);
    assert_eq!(parts(r"C:\a\b.txt"), vec!["C:", r"\", "a", "b.txt"]);
    assert_eq!(parts(r"c:/a\.\b.txt"), vec!["C:", r"\", "a", "b.txt"]);
    assert_eq!(parts(r"C:a"), vec!["C:", "a"]);
    assert_eq!(parts(r"C:.\a"), vec!["C:", "a"]);
    assert_eq!(parts(r".\a\."), vec![".", "a"]);
    assert_eq!(parts(r"\\srv\share\a"), vec![r"\\srv\share", r"\", "a"]);
    assert_eq!(parts("//srv/share"), vec![r"\\srv\share", r"\"]);
    assert_eq!(parts(r"\\srv"), vec![r"\", "srv"]);
    assert_eq!(parts(r"\\.\COM1\x"), vec![r"\\.\COM1", r"\", "x"]);
    assert_eq!(parts(r"\\?\c:\a/b\.\c"), vec![r"\\?\C:", r"\", "a/b", ".", "c"]);
    assert_eq!(parts(r"\\?\UNC\srv\share\a"), vec![r"\\?\UNC\srv\share", r"\", "a"]);
    assert_eq!(parts(r"\\?\Volume{1}\a"), vec![r"\\?\Volume{1}", r"\", "a"]);
    assert_eq!(path_components(r"/a\b", Separator::Slash), vec!["/", r"a\b"]);
    assert_eq!(path_components("./a/./b/", Separator::Slash), vec![".", "a", "b"]);
}

#[test]
fn a_windows_path_has_its_parent_and_its_name() {
    let sep = Separator::Backslash;
    let parent = |p: &str| path_parent(p, sep);
    let name = |p: &str| path_file_name(p, sep);
    assert_eq!(parent(r"C:\a\b.txt").as_deref(), Some(r"C:\a"));
    assert_eq!(parent(r"C:\a").as_deref(), Some(r"C:\"));
    assert_eq!(parent(r"C:\"), None);
    assert_eq!(parent("C:"), None);
    assert_eq!(parent("C:a").as_deref(), Some("C:"));
    assert_eq!(parent("C:."), None);
    assert_eq!(parent(r"\\srv\share\a").as_deref(), Some(r"\\srv\share\"));
    assert_eq!(parent(r"\\srv\share\"), None);
    assert_eq!(name(r"C:\a\b.txt\.\").as_deref(), Some("b.txt"));
    assert_eq!(name(r"C:\a\.."), None);
    assert_eq!(name(r"\\srv\share"), None);
    assert_eq!(path_extension(r"C:\a.b\c", sep), None);
    assert_eq!(path_extension(r"C:\a.b\c.XLS", sep).as_deref(), Some("XLS"));
    assert_eq!(path_extension(r"/a.b\c", Separator::Slash).as_deref(), Some(r"b\c"));
    assert_eq!(path_join(r"C:\a", "b", sep), r"C:\a\b");
    assert_eq!(path_join(r"C:\", "b", sep), r"C:\b");
    assert_eq!(path_join("C:", "b", sep), "C:b");
    assert_eq!(path_join(r"\\srv\share", "b", sep), r"\\srv\share\b");
    assert_eq!(parent_str(r"C:\", sep), "");
}

#[test]
fn an_unreadable_windows_directory_covers_what_is_under_it() {
    let mut u = UnreadableDirs::default();
    u.record(r"C:\a\b".to_string());
    let covers = |p: &str| u.covers(p, Separator::Backslash);
    assert!(covers(r"C:\a\b\c.txt"));
    assert!(covers(r"c:/a/b/c.txt"));
    assert!(covers(r"C:\a\b\"));
    assert!(!covers(r"C:\a\bc"));
    assert!(!covers(r"D:\a\b\c.txt"));
    assert!(!covers(r"C:a\b\c.txt"));
    assert!(!u.covers(r"C:\a\b\c.txt", Separator::Slash));
}

#[test]
fn the_index_and_a_vanished_path_keep_the_windows_separator() {
    let sep = Separator::Backslash;
    let set = index_file_set(r"C:\db\index.sqlite", Some(r"\\?\C:\db"), sep);
    assert_eq!(set[0], r"C:\db\index.sqlite");
    assert_eq!(set[4], r"C:\db\index.sqlite.lock");
    let (mut search, step) = db_key_for_missing_path(r"C:\a\gone\x.txt", sep);
    assert!(matches!(step, MissingStep::Try(p) if p == r"C:\a\gone\x.txt"));
    assert!(matches!(search.advance(None), MissingStep::Try(p) if p == r"C:\a\gone"));
    assert!(matches!(search.advance(None), MissingStep::Try(p) if p == r"C:\a"));
    let key = search.advance(Some(r"\\?\C:\real"));
    assert!(matches!(key, MissingStep::Key(k) if k == r"C:\real\gone\x.txt"));
}
