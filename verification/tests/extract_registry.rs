use lofty::file::TaggedFileExt;
use lofty::tag::{ItemKey, Tag};
use quicksearch_core::config::{Config, IndexingConfig, PathsConfig, ProcessingConfig};
use quicksearch_core::extract::audio::{AudioExtractor, TagSet, TagValues};
use quicksearch_core::extract::image::ImageExtractor;
use quicksearch_core::extract::pdf::PdfExtractor;
use quicksearch_core::extract::plaintext::{
    read_sized, sized_read, PlaintextExtractor, ReadEvent, ReadStep,
};
use quicksearch_core::extract::rtf::RtfExtractor;
use quicksearch_core::extract::{
    ExtractError, Extractor, Outside, Parsed, Registry, Scratch, SourceFile,
};
use quicksearch_core::paths::Separator;
use quicksearch_core::records::{decide_content, ContentOutcome};

fn cfg() -> Config {
    Config {
        processing: ProcessingConfig {
            maximum_text_size: 256 * 1024,
            maximum_text_file_size: 2 * 1024 * 1024,
            hash_length: 8 * 1024,
            batch_size: 500,
            fts_update_batch_size: 500,
            store_text_for_snippets: true,
            tokenize: "trigram".to_string(),
            writer_turn_slice_ms: 50,
            maximum_wal_size: 512 * 1024 * 1024,
        },
        indexing: IndexingConfig {
            include_hidden: false,
            follow_symlinks: false,
            ignore_patterns: Vec::new(),
            content_extensions: Vec::new(),
            root_workers: Vec::new(),
        },
        paths: PathsConfig {
            indexing_paths: Vec::new(),
            database_path: String::new(),
        },
    }
}

fn file(path: &str, body: &[u8], parsed: Option<Parsed>) -> SourceFile {
    SourceFile {
        path: path.to_string(),
        sep: Separator::Slash,
        body: body.to_vec(),
        parsed,
        rendered: Vec::new(),
    }
}

fn extract(r: &Registry, path: &str, mime: &str) -> Result<Option<String>, ExtractError> {
    let missing = Some(Parsed::Failed("no such file".to_string()));
    r.extract_to_string(&file(path, b"", missing), mime, &cfg())
}

fn extract_complete_head(
    r: &Registry,
    path: &str,
    mime: &str,
    head: &[u8],
) -> Option<Result<String, ExtractError>> {
    let outside = Some(Parsed::Failed("not parsed".to_string()));
    r.extract_head_to_string(&file(path, head, outside), mime)
}

fn from_disk<E: Extractor>(e: &E, f: &SourceFile) -> Result<String, ExtractError> {
    let mut out = String::new();
    e.extract(f, &mut out, &Scratch::new(&cfg())).map(|()| out)
}

fn from_head<E: Extractor>(e: &E, f: &SourceFile) -> Option<Result<String, ExtractError>> {
    let mut out = String::new();
    e.extract_from_head(f, &mut out).map(|r| r.map(|()| out))
}

#[test]
fn supports_audio_mimes() {
    let e = AudioExtractor;
    assert!(e.supports("audio/mpeg"));
    assert!(e.supports("audio/flac"));
    assert!(!e.supports("video/mp4"));
    assert!(!e.supports("image/png"));
}

#[test]
fn supports_image_mimes() {
    let e = ImageExtractor;
    assert!(e.supports("image/jpeg"));
    assert!(e.supports("image/png"));
    assert!(!e.supports("video/mp4"));
    assert!(!e.supports("text/plain"));
}

#[test]
fn supports_pdf_mime() {
    assert!(PdfExtractor.supports("application/pdf"));
    assert!(!PdfExtractor.supports("application/zip"));
}

#[test]
fn supports_text_mimes() {
    let e = PlaintextExtractor;
    assert!(e.supports("text/plain"));
    assert!(e.supports("text/x-rust"));
    assert!(e.supports("application/json"));
    assert!(e.supports("application/x-sh"));
    assert!(e.supports("image/svg+xml"));
    assert!(e.supports("audio/x-mpegurl"));
    assert!(e.supports("message/rfc822"));
    assert!(!e.supports("application/x-shellscript"));
    assert!(!e.supports("application/rtf"));
    assert!(!e.supports("application/pdf"));
    assert!(!e.supports("image/png"));
}

#[test]
fn supports_rtf_mimes_only() {
    let e = RtfExtractor;
    assert!(e.supports("application/rtf"));
    assert!(e.supports("text/rtf"));
    assert!(!e.supports("text/plain"));
    assert!(!e.supports("application/pdf"));
}

#[test]
fn empty_registry_returns_none() {
    let r = Registry::new();
    let out = extract(&r, "/tmp/x", "text/plain").expect("no error");
    assert!(out.is_none());
}

#[test]
fn complete_head_extraction_dispatches_only_to_extractors_that_opt_in() {
    let r = Registry::default_set();
    let p = "/tmp/whatever";

    let out = extract_complete_head(&r, p, "text/plain", b"hello");
    assert!(matches!(out, Some(Ok(ref c)) if c == "hello"));

    assert!(extract_complete_head(&r, p, "application/pdf", b"%PDF-1.4").is_none());
    assert!(extract_complete_head(&r, p, "image/png", b"\x89PNG").is_none());

    assert!(extract_complete_head(&r, p, "application/x-nonesuch", b"..").is_none());
}

#[test]
fn complete_head_extraction_matches_the_on_disk_dispatch() {
    let r = Registry::default_set();
    let p = "/tmp/whatever";
    for mime in [
        "text/plain",
        "TEXT/PLAIN",
        "application/json",
        "application/x-sql",
    ] {
        assert!(
            extract_complete_head(&r, p, mime, b"x").is_some(),
            "{mime} should extract from a head"
        );
    }
    for mime in ["application/rtf", "text/rtf"] {
        assert!(
            extract_complete_head(&r, p, mime, br"{\rtf1 x}").is_some(),
            "{mime} should extract from a head"
        );
    }
}

#[test]
fn text_rtf_reaches_the_rtf_extractor_not_plaintext() {
    let r = Registry::default_set();
    let out = extract_complete_head(
        &r,
        "/tmp/whatever.rtf",
        "text/rtf",
        br"{\rtf1\ansi Hello {\b World}}",
    )
    .expect("claimed")
    .expect("parsed");
    assert_eq!(out, "Hello World");
}

#[test]
fn supports_agrees_with_extract_dispatch() {
    let r = Registry::default_set();
    let missing = "/nonexistent/quicksearch-supports-probe";
    for mime in [
        "text/plain",
        "TEXT/PLAIN",
        "text/x-rust",
        "application/json",
        "APPLICATION/PDF",
        "application/pdf",
        "audio/mpeg",
        "Image/JPEG",
        "application/msword",
        "application/vnd.oasis.opendocument.text",
        "video/mp4",
        "application/zip",
        "application/x-executable",
        "application/octet-stream",
        "",
    ] {
        let claimed = !matches!(extract(&r, missing, mime), Ok(None));
        assert_eq!(
            r.supports(mime),
            claimed,
            "supports and extract disagree about {mime:?}"
        );
    }
}

#[test]
fn images_are_not_claimed_by_any_extractor() {
    let r = Registry::default_set();
    for mime in ["image/jpeg", "image/png", "Image/JPEG", "image/tiff"] {
        assert!(!r.supports(mime), "{mime} should be unclaimed");
    }
}

#[test]
fn reads_utf8_file() {
    let f = file("/tmp/sample.txt", b"hello world", None);
    assert_eq!(from_disk(&PlaintextExtractor, &f).unwrap(), "hello world");
}

#[test]
fn plaintext_head_extraction_matches_reading_the_file() {
    let f = file(
        "/tmp/sample.txt",
        b"shared body with unicode: caf\xc3\xa9 \xe2\x9c\x93",
        None,
    );
    let disk = from_disk(&PlaintextExtractor, &f).unwrap();
    let head = from_head(&PlaintextExtractor, &f).unwrap().unwrap();
    assert_eq!(disk, head);
    assert_eq!(disk, "shared body with unicode: café ✓");
}

#[test]
fn both_paths_reject_binary_and_name_the_file() {
    let body = [0x68, 0x69, 0x00, 0xff];
    let f = file(
        "/tmp/binary/sample.txt",
        &body,
        Some(Parsed::Failed("/tmp/binary/sample.txt: binary".to_string())),
    );
    assert_eq!(PlaintextExtractor.runs_outside(&body), Some(Outside::Charset));
    let disk_err = from_disk(&PlaintextExtractor, &f).unwrap_err();
    let head_err = from_head(&PlaintextExtractor, &f).unwrap().unwrap_err();
    assert_eq!(disk_err, head_err, "one decode path, one message");
    assert!(disk_err.contains("binary"), "the failure names the file: {disk_err}");
}

#[test]
fn latin1_decodes_via_both_paths() {
    let body = b"une journ\xe9e agr\xe9able pr\xe8s de la rivi\xe8re";
    assert_eq!(PlaintextExtractor.runs_outside(body), Some(Outside::Charset));
    let decoded = "une journée agréable près de la rivière";
    let f = file(
        "/tmp/sample.txt",
        body,
        Some(Parsed::Text(decoded.to_string())),
    );
    let disk = from_disk(&PlaintextExtractor, &f).unwrap();
    let head = from_head(&PlaintextExtractor, &f).unwrap().unwrap();
    assert_eq!(disk, head);
    assert_eq!(disk, decoded);
}

#[test]
fn utf16le_bom_decodes_via_both_paths() {
    let src = "Windows Registry Editor Version 5.00\r\n[HKEY_CURRENT_USER\\Software]\r\n";
    let mut body = vec![0xFF, 0xFE];
    body.extend(src.encode_utf16().flat_map(|u| u.to_le_bytes()));
    assert_eq!(PlaintextExtractor.runs_outside(&body), Some(Outside::Charset));
    let f = file("/tmp/sample.txt", &body, Some(Parsed::Text(src.to_string())));
    let disk = from_disk(&PlaintextExtractor, &f).unwrap();
    let head = from_head(&PlaintextExtractor, &f).unwrap().unwrap();
    assert_eq!(disk, head);
    assert_eq!(disk, src);
}

#[test]
fn a_byte_order_mark_goes_through_the_detection() {
    assert_eq!(
        PlaintextExtractor.runs_outside(b"\xEF\xBB\xBFtext"),
        Some(Outside::Charset)
    );
    assert_eq!(PlaintextExtractor.runs_outside(b"text"), None);
}

#[test]
fn reads_a_file_larger_than_one_buffer_completely() {
    let body = "abcdefgh".repeat(200 * 1024 / 8);
    let f = file("/tmp/sample.txt", body.as_bytes(), None);
    let c = from_disk(&PlaintextExtractor, &f).unwrap();
    assert_eq!(c.len(), body.len());
    assert_eq!(c, body);
}

#[test]
fn an_empty_file_extracts_to_empty_text() {
    let f = file("/tmp/sample.txt", b"", None);
    assert_eq!(from_disk(&PlaintextExtractor, &f).unwrap(), "");
    assert_eq!(from_head(&PlaintextExtractor, &f).unwrap().unwrap(), "");
}

#[test]
fn a_sized_read_stops_at_the_cap() {
    assert_eq!(sized_read(4096, 100), 100, "read past the cap");
    assert_eq!(sized_read(4096, 1_000_000), 4096);
    assert_eq!(read_sized(100, 60, ReadEvent::Got(40)), ReadStep::Keep(100));
}

#[test]
fn a_short_read_keeps_what_was_there() {
    assert_eq!(read_sized(1_000_000, 10, ReadEvent::Got(0)), ReadStep::Keep(10));
}

#[test]
fn extracts_text_without_control_words() {
    let f = file("/tmp/sample.rtf", br"{\rtf1\ansi Hello {\b World}!}", None);
    assert_eq!(from_disk(&RtfExtractor, &f).unwrap(), "Hello World!");
}

#[test]
fn rtf_head_extraction_matches_reading_the_file() {
    let f = file("/tmp/sample.rtf", br"{\rtf1\ansi caf\'e9 at noon}", None);
    let disk = from_disk(&RtfExtractor, &f).unwrap();
    let head = from_head(&RtfExtractor, &f).unwrap().unwrap();
    assert_eq!(disk, head);
    assert!(disk.contains("café"), "{disk:?}");
}

#[test]
fn paragraph_breaks_reach_the_text() {
    let body = br"{\rtf1\ansi First paragraph.\par Second paragraph.\par}";
    let text = from_disk(&RtfExtractor, &file("/tmp/sample.rtf", body, None)).unwrap();
    assert!(
        text.contains("First paragraph.\nSecond paragraph."),
        "paragraphs ran together: {text:?}"
    );
}

#[test]
fn an_escaped_backslash_begins_no_paragraph() {
    let body = br"{\rtf1\ansi a\\par b}";
    let text = from_disk(&RtfExtractor, &file("/tmp/sample.rtf", body, None)).unwrap();
    assert!(text.contains(r"\par b"), "{text:?}");
    let body = br"{\rtf1\ansi \pard plain}";
    let text = from_disk(&RtfExtractor, &file("/tmp/sample.rtf", body, None)).unwrap();
    assert_eq!(text, "plain");
}

#[test]
fn malformed_input_errors_and_names_the_file() {
    let f = file("/tmp/broken/sample.rtf", br"{\rtf1 truncated", None);
    let err = from_disk(&RtfExtractor, &f).unwrap_err();
    assert!(err.contains("/tmp/broken/sample.rtf"), "must name the file: {err}");
}

#[test]
fn a_lone_surrogate_escape_costs_one_character() {
    // `\u55296` is a lone high surrogate; the `?` is its ANSI fallback,
    // delimited the way a real producer writes one.
    let body = "{\\rtf1\\ansi before \\u55296?after}".as_bytes();
    let f = file("/tmp/surrogate/sample.rtf", body, None);

    let registry = Registry::default_set();
    let config = cfg();
    let scratch = Scratch::new(&config);
    let outcome = decide_content(&f, Some("application/rtf"), true, &registry, &config, &scratch);
    let text = match &outcome {
        ContentOutcome::Done { text } => text.clone(),
        other => panic!("a malformed escape must not fail the document: {other:?}"),
    };
    assert!(
        text.contains("before") && text.contains("after"),
        "the rest of the document must survive: {text:?}"
    );
    assert!(
        text.contains('\u{FFFD}'),
        "the bad escape must leave a replacement character: {text:?}"
    );
    assert_eq!(text, "before \u{FFFD}after");

    let head = registry.extract_head_to_string(&f, "application/rtf");
    assert_eq!(
        head.expect("claimed").expect("parsed"),
        text,
        "head and disk extraction must agree"
    );
}

fn rtf_text(body: &str) -> Result<String, ExtractError> {
    from_disk(&RtfExtractor, &file("/tmp/sample.rtf", body.as_bytes(), None))
}

#[test]
fn unicode_escapes_decode_whatever_delimits_them() {
    assert_eq!(rtf_text(r"{\rtf1\ansi it\u8217?s}").unwrap(), "it\u{2019}s");
    assert_eq!(rtf_text(r"{\rtf1\ansi it\u8217\'92s}").unwrap(), "it\u{2019}s");
    assert_eq!(rtf_text(r"{\rtf1\ansi it\u8217 s}").unwrap(), "it\u{2019}s");
    assert_eq!(rtf_text(r"{\rtf1\ansi a\u-3?b}").unwrap(), "a\u{FFFD}b");
}

#[test]
fn a_surrogate_pair_is_one_character() {
    for body in [
        r"{\rtf1\ansi a\u55357\u56832 b}",
        r"{\rtf1\ansi a\u-10179\u-8704 b}",
        r"{\rtf1\ansi a\u-10179?\u-8704?b}",
        r"{\rtf1\ansi a\u-10179\'3f\u-8704\'3fb}",
        r"{\rtf1\ansi a\u-10179 \u-8704 b}",
    ] {
        assert_eq!(rtf_text(body).unwrap(), "a\u{1F600}b", "{body}");
    }
    assert_eq!(rtf_text(r"{\rtf1\ansi a\u56832 b}").unwrap(), "a\u{FFFD}b", "the wrong half");
    assert_eq!(
        rtf_text(r"{\rtf1\ansi a\u55357 text\u56832 b}").unwrap(),
        "a\u{FFFD}text\u{FFFD}b",
        "halves apart"
    );
}

#[test]
fn a_source_the_parser_cannot_take_counts_as_a_panic() {
    assert_eq!(
        rtf_text(r"{\rtf1\ansi\uc-5 a\u233?b}").unwrap_err(),
        "extractor panicked on /tmp/sample.rtf"
    );
    let colors = |n: usize| format!("{{\\rtf1{{\\colortbl;{}}}text}}", "\\blue1;".repeat(n));
    assert_eq!(
        rtf_text(&colors(65_535)).unwrap_err(),
        "extractor panicked on /tmp/sample.rtf"
    );
    assert_eq!(rtf_text(&colors(65_534)).unwrap(), "text");
}

#[test]
fn a_line_spacing_without_a_counterpart_counts_as_a_panic() {
    for number in ["-2147483648", "-002147483648"] {
        assert_eq!(
            rtf_text(&format!("{{\\rtf1\\sl{number} x}}")).unwrap_err(),
            "extractor panicked on /tmp/sample.rtf"
        );
    }
    for number in ["-2147483647", "2147483647", "-240", "1000", ""] {
        assert_eq!(rtf_text(&format!("{{\\rtf1\\sl{number} x}}")).unwrap(), "x");
    }
    assert!(rtf_text("{\\rtf1\\sl2147483648 x}").unwrap_err().contains("Unable to parse"));
    assert_eq!(rtf_text("{\\rtf1\\slmult-1 x}").unwrap(), "x");
}

#[test]
fn pdf_text_comes_from_outside() {
    let r = Registry::default_set();
    let text = file("/tmp/a.pdf", b"%PDF-1.4", Some(Parsed::Text("page".to_string())));
    assert_eq!(
        r.extract_to_string(&text, "application/pdf", &cfg()).unwrap(),
        Some("page".to_string())
    );
    let failed = file("/tmp/a.pdf", b"", Some(Parsed::Failed("broken".to_string())));
    assert!(r.extract_to_string(&failed, "application/pdf", &cfg()).is_err());
    let panicked = file("/tmp/a.pdf", b"", Some(Parsed::Panicked("boom".to_string())));
    assert!(r.extract_to_string(&panicked, "application/pdf", &cfg()).is_err());
}

fn mp3(frames: &[(&str, &str)]) -> Vec<u8> {
    let mut body = Vec::new();
    for (id, value) in frames {
        let mut payload = vec![0x00];
        payload.extend_from_slice(value.as_bytes());
        body.extend_from_slice(id.as_bytes());
        body.extend_from_slice(&(payload.len() as u32).to_be_bytes());
        body.extend_from_slice(&[0, 0]);
        body.extend_from_slice(&payload);
    }
    let mut out = Vec::new();
    out.extend_from_slice(b"ID3");
    out.extend_from_slice(&[0x03, 0x00, 0x00]);
    let n = body.len() as u32;
    out.extend_from_slice(&[
        ((n >> 21) & 0x7F) as u8,
        ((n >> 14) & 0x7F) as u8,
        ((n >> 7) & 0x7F) as u8,
        (n & 0x7F) as u8,
    ]);
    out.extend_from_slice(&body);
    for _ in 0..4 {
        out.extend_from_slice(&[0xFF, 0xFB, 0x90, 0x00]);
        out.resize(out.len() + 413, 0);
    }
    out
}

fn values(tag: &Tag) -> TagValues {
    let value = |key| tag.get_string(&key).map(str::to_string);
    TagValues {
        title: value(ItemKey::TrackTitle),
        artist: value(ItemKey::TrackArtist),
        album: value(ItemKey::AlbumTitle),
        genre: value(ItemKey::Genre),
        comment: value(ItemKey::Comment),
    }
}

/// What the tag reader makes of a track.
fn tags(path: &str, body: &[u8]) -> Parsed {
    let kind = lofty::file::FileType::from_path(path).expect("a known extension");
    let probe = lofty::probe::Probe::with_file_type(std::io::Cursor::new(body), kind);
    match probe.read() {
        Err(e) => Parsed::Failed(e.to_string()),
        Ok(file) => Parsed::Tags(TagSet {
            primary: file.primary_tag().map(values),
            first: file.first_tag().map(values),
        }),
    }
}

fn track(body: &[u8]) -> Result<String, ExtractError> {
    let path = "/tmp/track.mp3";
    assert_eq!(AudioExtractor.runs_outside(body), Some(Outside::Tags));
    from_disk(&AudioExtractor, &file(path, body, Some(tags(path, body))))
}

#[test]
fn tag_values_become_searchable_text() {
    let body = mp3(&[
        ("TIT2", "Blue Monday"),
        ("TPE1", "New Order"),
        ("TALB", "Power Corruption"),
        ("TCON", "Synthpop"),
    ]);
    let text = track(&body).expect("extract");
    for expected in ["Blue Monday", "New Order", "Power Corruption", "Synthpop"] {
        assert!(text.contains(expected), "{expected:?} missing from {text:?}");
    }
    assert_eq!(text, "Blue Monday New Order Power Corruption Synthpop");
}

#[test]
fn an_untagged_file_yields_empty_text() {
    let text = track(&mp3(&[])).expect("extract");
    assert!(text.is_empty(), "unexpected text {text:?}");
}

#[test]
fn an_unreadable_track_is_an_error() {
    let e = track(b"no audio here").unwrap_err();
    assert!(e.starts_with("lofty read /tmp/track.mp3: "), "{e}");
}

#[test]
fn a_tag_reader_that_panicked_is_an_error() {
    let panicked = Some(Parsed::Panicked("Channel count is valid".to_string()));
    let r = Registry::default_set();
    assert_eq!(
        r.extract_to_string(&file("/tmp/a.opus", b"OggS", panicked), "audio/opus", &cfg()),
        Err("extractor panicked on /tmp/a.opus".to_string())
    );
}

#[test]
fn empty_and_missing_tag_values_leave_no_gap() {
    let text = |s: &str| Some(s.to_string());
    let tag = |artist: Option<String>| TagValues {
        title: None,
        artist,
        album: text(""),
        genre: text("Synthpop"),
        comment: None,
    };
    let of = |primary, first| {
        let parsed = Some(Parsed::Tags(TagSet { primary, first }));
        from_disk(&AudioExtractor, &file("/tmp/track.mp3", b"", parsed)).unwrap()
    };
    assert_eq!(of(Some(tag(text("New Order"))), None), "New Order Synthpop");
    assert_eq!(
        of(Some(tag(text("preferred"))), Some(tag(text("other")))),
        "preferred Synthpop",
        "the preferred tag counts"
    );
    assert_eq!(of(None, Some(tag(text("other")))), "other Synthpop");
    assert_eq!(of(None, None), "");
}

#[test]
fn the_registry_says_which_parser_runs_outside() {
    let r = Registry::default_set();
    assert_eq!(r.runs_outside("Application/PDF", b""), Some(Outside::Pdf));
    assert_eq!(r.runs_outside("audio/mpeg", b""), Some(Outside::Tags));
    assert_eq!(r.runs_outside("audio/x-mpegurl", b"\xff"), Some(Outside::Charset));
    assert_eq!(r.runs_outside("audio/x-mpegurl", b"#EXTM3U"), None);
    assert_eq!(r.runs_outside("video/mp4", b""), None);
    assert_eq!(r.head_runs_outside("text/plain", b"\xff"), Some(Outside::Charset));
    assert_eq!(r.head_runs_outside("application/pdf", b""), None);
    assert_eq!(r.head_runs_outside("audio/mpeg", b""), None);
}

/// A TIFF with one directory entry: the camera's maker.
fn tiff(maker: &str) -> Vec<u8> {
    let mut value = maker.as_bytes().to_vec();
    value.push(0);
    let mut out = b"II\x2a\x00\x08\x00\x00\x00".to_vec();
    out.extend_from_slice(&1u16.to_le_bytes());
    out.extend_from_slice(&0x010Fu16.to_le_bytes());
    out.extend_from_slice(&2u16.to_le_bytes());
    out.extend_from_slice(&(value.len() as u32).to_le_bytes());
    out.extend_from_slice(&26u32.to_le_bytes());
    out.extend_from_slice(&0u32.to_le_bytes());
    out.extend_from_slice(&value);
    out
}

#[test]
fn image_properties_come_from_the_metadata() {
    let found = ImageExtractor.properties(&tiff("Pentax Corp"));
    assert!(
        found.iter().any(|(_, v)| v.contains("Pentax Corp")),
        "{found:?}"
    );
    assert!(ImageExtractor.properties(b"no metadata").is_empty());
}

#[test]
fn a_missing_file_is_an_error_naming_it() {
    let r = Registry::default_set();
    for (mime, want) in [
        ("text/rtf", "rtf read /gone/nope: not found"),
        ("text/plain", "plaintext read /gone/nope: not found"),
        ("application/msword", "office extractor /gone/nope: not found"),
        ("audio/mpeg", "lofty probe /gone/nope: not found"),
        ("application/pdf", "pdf_extract: not found"),
    ] {
        let got = r.read_error(mime, "/gone/nope", "not found");
        assert_eq!(got.as_deref(), Some(want), "{mime}");
    }
    assert_eq!(r.read_error("video/mp4", "/gone/nope", "not found"), None);
    assert_eq!(
        ImageExtractor.read_error("/gone/nope", "not found"),
        "image open /gone/nope: not found"
    );
}

#[test]
fn a_mime_is_supported_exactly_where_it_is_extracted() {
    let r = Registry::default_set();
    let mimes = [
        "text/plain",
        "TEXT/Plain",
        "application/rtf",
        "Application/PDF",
        "audio/mpeg",
        "image/png",
        "image/svg+xml",
        "video/mp4",
        "application/zip",
        "application/x-shellscript",
        "",
    ];
    for mime in mimes {
        let text = extract(&r, "/dir/a.bin", mime);
        assert_eq!(r.supports(mime), text != Ok(None), "{mime}");
        assert_eq!(r.supports(&mime.to_ascii_lowercase()), r.supports(mime));
        assert_eq!(extract(&r, "/dir/a.bin", &mime.to_ascii_lowercase()), text);
    }
}
