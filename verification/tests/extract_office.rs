use quicksearch_core::config::{Config, IndexingConfig, PathsConfig, ProcessingConfig};
use quicksearch_core::extract::office::{self, push_entity_text, DocumentError, OfficeExtractor};
use quicksearch_core::paths::Separator;
use quicksearch_core::extract::{Extractor, Limits, Scratch, SourceFile};
use std::io::{Cursor, Write};

fn config() -> Config {
    Config {
        processing: ProcessingConfig {
            maximum_text_size: 256 * 1024,
            maximum_text_file_size: 2 * 1024 * 1024,
            hash_length: 8 * 1024,
            batch_size: 500,
            fts_update_batch_size: 500,
            store_text_for_snippets: true,
            tokenize: "trigram".to_string(),
            writer_turn_slice_ms: 50,
            maximum_wal_size: 512 * 1024 * 1024,
        },
        indexing: IndexingConfig {
            include_hidden: false,
            follow_symlinks: false,
            ignore_patterns: Vec::new(),
            content_extensions: Vec::new(),
            root_workers: Vec::new(),
        },
        paths: PathsConfig {
            indexing_paths: Vec::new(),
            database_path: String::new(),
        },
    }
}

fn container(members: &[(&str, &str)]) -> Vec<u8> {
    let mut zip = zip::ZipWriter::new(Cursor::new(Vec::new()));
    for (name, body) in members {
        zip.start_file(*name, zip::write::FileOptions::default())
            .unwrap();
        zip.write_all(body.as_bytes()).unwrap();
    }
    zip.finish().unwrap().into_inner()
}

fn extract_document_text(body: &[u8], extension: &str) -> Result<String, String> {
    let mut out = String::new();
    let limits = Limits::for_config(&config());
    office::extract_document_text(body, extension, &Vec::new(), &mut out, limits)
        .map(|()| out)
        .map_err(|e| match e {
            DocumentError::Failed(e) => e,
            DocumentError::Panicked => "panicked".to_string(),
        })
}

fn office_extract(body: Vec<u8>, extension: &str) -> Result<String, String> {
    let file = SourceFile {
        path: format!("/tmp/doc.{extension}"),
        sep: Separator::Slash,
        body,
        parsed: None,
        rendered: Vec::new(),
    };
    let mut out = String::new();
    OfficeExtractor
        .extract(&file, &mut out, &Scratch::new(&config()))
        .map(|()| out)
}

#[test]
fn entity_references_survive_extraction() {
    let body = "<w:document><w:body><w:p><w:r>\
         <w:t>Blake &amp; Co &lt;tags&gt; &#8217;24 &#x2019;25</w:t>\
         </w:r></w:p></w:body></w:document>";
    let out = office_extract(container(&[("word/document.xml", body)]), "docx").expect("extract");
    assert!(out.contains("Blake & Co"), "predefined entity lost: {out:?}");
    assert!(out.contains("<tags>"), "angle-bracket entities lost: {out:?}");
    assert!(out.contains('\u{2019}'), "numeric entities lost: {out:?}");
    assert!(
        !out.contains("&amp;") && !out.contains("&#"),
        "entities left unresolved: {out:?}"
    );
}

#[test]
fn entity_references_survive_shared_strings() {
    let shared = "<sst><si><t>Jack &amp; Jill</t></si></sst>";
    let sheet = "<worksheet><sheetData><row>\
         <c t=\"s\"><v>0</v></c></row></sheetData></worksheet>";
    let out = office_extract(
        container(&[
            ("xl/sharedStrings.xml", shared),
            ("xl/worksheets/sheet1.xml", sheet),
        ]),
        "xlsx",
    )
    .expect("extract");
    assert!(
        out.contains("Jack & Jill"),
        "entity lost through the shared-string table: {out:?}"
    );
}

#[test]
fn an_indented_shared_string_reference_still_resolves() {
    let shared = "<sst><si><t>Marmalade</t></si></sst>";
    let sheet = "<worksheet>\n  <sheetData>\n    <row>\n      \
         <c t=\"s\">\n        <v>\n          0\n        </v>\n      </c>\n      \
         <c t=\"n\">\n        <v>17</v>\n      </c>\n    \
         </row>\n  </sheetData>\n</worksheet>";
    let out = office_extract(
        container(&[
            ("xl/sharedStrings.xml", shared),
            ("xl/worksheets/sheet1.xml", sheet),
        ]),
        "xlsx",
    )
    .expect("extract");
    assert!(
        out.contains("Marmalade"),
        "the shared string was dropped by an indented index: {out:?}"
    );
    assert!(out.contains("17"), "the inline value was dropped: {out:?}");
    assert!(
        !out.contains("\n  "),
        "sheet indentation reached the indexed text: {out:?}"
    );
}

#[test]
fn supports_docx_and_friends() {
    let e = OfficeExtractor;
    for m in [
        "application/msword",
        "application/vnd.openxmlformats-officedocument.wordprocessingml.document",
        "application/vnd.openxmlformats-officedocument.spreadsheetml.sheet",
        "application/vnd.oasis.opendocument.text",
    ] {
        assert!(e.supports(m), "should support {m}");
    }
    assert!(!e.supports("image/png"));
}

fn oversized_docx(runs: usize) -> Vec<u8> {
    let mut body = String::from("<w:document><w:body>");
    for i in 0..runs {
        body.push_str("<w:p><w:r><w:t>");
        body.push_str(&format!("paragraph{:08} ", i));
        body.push_str("</w:t></w:r></w:p>");
    }
    body.push_str("</w:body></w:document>");
    container(&[("word/document.xml", &body)])
}

#[test]
fn a_document_larger_than_the_limit_stops_at_it() {
    let mut config = config();
    config.processing.maximum_text_size = 4096;
    let file = SourceFile {
        path: "/tmp/doc.docx".to_string(),
        sep: Separator::Slash,
        body: oversized_docx(20_000),
        parsed: None,
        rendered: Vec::new(),
    };
    let mut out = String::new();
    OfficeExtractor
        .extract(&file, &mut out, &Scratch::new(&config))
        .expect("extract");
    assert!(out.len() >= 4096, "stopped short of the limit: {} bytes", out.len());
    assert!(
        out.len() < 4096 * 2,
        "ran past the limit rather than stopping at it: {} bytes",
        out.len()
    );
    assert!(
        out.starts_with("paragraph00000000"),
        "the kept text is the document's start: {:?}",
        &out[..out.len().min(40)]
    );
}

#[test]
fn the_default_limits_bound_an_oversized_document() {
    let config = config();
    let file = SourceFile {
        path: "/tmp/doc.docx".to_string(),
        sep: Separator::Slash,
        body: oversized_docx(20_000),
        parsed: None,
        rendered: Vec::new(),
    };
    let mut out = String::new();
    OfficeExtractor
        .extract(&file, &mut out, &Scratch::new(&config))
        .expect("extract");
    assert!(
        out.len() < config.processing.maximum_text_size * 2,
        "{} bytes for a {}-byte limit",
        out.len(),
        config.processing.maximum_text_size
    );
}

const DOCX_BODY: &str = "<w:document><w:body>\
     <w:p><w:r><w:t>Hello</w:t></w:r><w:r><w:t>world</w:t></w:r></w:p>\
     <w:p><w:r><w:t>Second</w:t></w:r></w:p>\
     </w:body></w:document>";

const PPTX_SLIDE: &str = "<p:sld><p:cSld><p:spTree><p:sp><p:txBody>\
     <a:p><a:r><a:t>Title</a:t></a:r></a:p>\
     <a:p><a:r><a:t>Body</a:t></a:r></a:p>\
     </p:txBody></p:sp></p:spTree></p:cSld></p:sld>";

const ODT_BODY: &str = "<office:document-content><office:body><office:text>\
     <text:h>Heading</text:h>\
     <text:p>Para<text:span>span</text:span></text:p>\
     </office:text></office:body></office:document-content>";

const ODS_BODY: &str = "<office:document-content><office:body><office:spreadsheet>\
     <table:table><table:table-row>\
     <table:table-cell><text:p>A1</text:p></table:table-cell>\
     <table:table-cell><text:p>B1</text:p></table:table-cell>\
     </table:table-row></table:table>\
     </office:spreadsheet></office:body></office:document-content>";

const XLSX_SHARED: &str = "<sst><si><t>Shared</t></si><si><t>Second</t></si></sst>";

const XLSX_SHARED_WITH_BLANK: &str = "<sst><si><t/></si><si><t>Second</t></si></sst>";

const XLSX_SHEET_INDEX_1: &str = "<worksheet><sheetData>\
     <row><c t=\"s\"><v>1</v></c></row>\
     </sheetData></worksheet>";

const XLSX_SHEET: &str = "<worksheet><sheetData>\
     <row><c t=\"s\"><v>0</v></c><c t=\"n\"><v>42</v></c></row>\
     <row><c t=\"s\"><v>1</v></c></row>\
     </sheetData></worksheet>";

#[test]
fn docx() {
    let p = container(&[("word/document.xml", DOCX_BODY)]);
    assert_eq!(
        extract_document_text(&p, "docx").unwrap(),
        "Helloworld\nSecond\n"
    );
}

#[test]
fn pptx_marks_each_slide_and_keeps_archive_order() {
    let p = container(&[
        ("ppt/slides/slide1.xml", PPTX_SLIDE),
        ("ppt/slides/slide2.xml", PPTX_SLIDE),
    ]);
    assert_eq!(
        extract_document_text(&p, "pptx").unwrap(),
        "Title\nBody\n\n--- New Slide ---\nTitle\nBody\n\n--- New Slide ---\n"
    );
}

#[test]
fn odt_and_odp_are_the_same_extraction() {
    let odt = container(&[("content.xml", ODT_BODY)]);
    let odp = container(&[("content.xml", ODT_BODY)]);
    assert_eq!(
        extract_document_text(&odt, "odt").unwrap(),
        "Heading\nParaspan\n"
    );
    assert_eq!(
        extract_document_text(&odt, "odt").unwrap(),
        extract_document_text(&odp, "odp").unwrap(),
    );
}

#[test]
fn ods_separates_cells_with_a_space() {
    let p = container(&[("content.xml", ODS_BODY)]);
    assert_eq!(extract_document_text(&p, "ods").unwrap(), "A1 \nB1 \n");
}

#[test]
fn xlsx_resolves_shared_strings() {
    let p = container(&[
        ("xl/sharedStrings.xml", XLSX_SHARED),
        ("xl/worksheets/sheet1.xml", XLSX_SHEET),
    ]);
    assert_eq!(
        extract_document_text(&p, "xlsx").unwrap(),
        "Shared 42 \nSecond \n"
    );
}

#[test]
fn an_extension_nothing_handles_is_empty() {
    let p = container(&[("whatever", "x")]);
    assert_eq!(extract_document_text(&p, "zzz").unwrap(), "");
}

#[test]
fn xlsx_without_a_shared_string_table_still_reads_its_cells() {
    let p = container(&[(
        "xl/worksheets/sheet1.xml",
        "<worksheet><sheetData>\
        <row><c t=\"n\"><v>7</v></c></row></sheetData></worksheet>",
    )]);
    assert_eq!(extract_document_text(&p, "xlsx").unwrap(), "7 \n");
}

#[test]
fn an_out_of_range_shared_string_index_is_dropped() {
    let p = container(&[
        ("xl/sharedStrings.xml", "<sst><si><t>only</t></si></sst>"),
        (
            "xl/worksheets/sheet1.xml",
            "<worksheet><sheetData><row>\
             <c t=\"s\"><v>0</v></c><c t=\"s\"><v>99</v></c>\
             </row></sheetData></worksheet>",
        ),
    ]);
    assert_eq!(extract_document_text(&p, "xlsx").unwrap(), "only \n");
}

#[test]
fn malformed_xml_returns_an_error_rather_than_looping() {
    for (ext, member, body) in [
        ("docx", "word/document.xml", "<w:t>bad &nonsuch; entity</w:t>"),
        ("odt", "content.xml", "<text:p>bad &nonsuch; entity</text:p>"),
        ("ods", "content.xml", "<text:p>bad &nonsuch; entity</text:p>"),
        ("pptx", "ppt/slides/slide1.xml", "<a:t>bad &nonsuch; entity</a:t>"),
    ] {
        let p = container(&[(member, body)]);
        assert!(
            extract_document_text(&p, ext).is_err(),
            "{ext} should report malformed XML"
        );
    }
}

#[test]
fn mismatched_tags_are_an_error() {
    let p = container(&[("word/document.xml", "<w:body><w:t>x</w:body>")]);
    assert!(extract_document_text(&p, "docx").is_err());
}

#[test]
fn a_missing_member_is_an_error() {
    let p = container(&[("unrelated.xml", "<x/>")]);
    assert!(extract_document_text(&p, "docx").is_err());
}

#[test]
fn a_non_container_is_an_error() {
    assert!(extract_document_text(b"this is not a zip archive", "docx").is_err());
}

#[test]
fn a_blank_shared_string_still_occupies_its_index() {
    let p = container(&[
        ("xl/sharedStrings.xml", XLSX_SHARED_WITH_BLANK),
        ("xl/worksheets/sheet1.xml", XLSX_SHEET_INDEX_1),
    ]);
    assert_eq!(
        extract_document_text(&p, "xlsx").unwrap(),
        "Second \n",
        "index 1 must still be the second entry"
    );
}

#[test]
fn an_empty_si_still_occupies_its_index() {
    let p = container(&[
        (
            "xl/sharedStrings.xml",
            "<sst><si><t></t></si><si><t>Second</t></si></sst>",
        ),
        ("xl/worksheets/sheet1.xml", XLSX_SHEET_INDEX_1),
    ]);
    assert_eq!(extract_document_text(&p, "xlsx").unwrap(), "Second \n");
}

#[test]
fn an_entity_does_not_split_an_ods_cell() {
    let body = "<office:document-content><office:body><office:spreadsheet>\
         <table:table><table:table-row>\
         <table:table-cell><text:p>A&amp;B</text:p></table:table-cell>\
         </table:table-row></table:table>\
         </office:spreadsheet></office:body></office:document-content>";
    let p = container(&[("content.xml", body)]);
    assert_eq!(extract_document_text(&p, "ods").unwrap(), "A&B \n");
}

#[test]
fn text_after_a_nested_span_is_not_dropped() {
    let body = "<office:document-content><office:body><office:text>\
         <text:p>before<text:span>inside</text:span>after</text:p>\
         </office:text></office:body></office:document-content>";
    let p = container(&[("content.xml", body)]);
    assert_eq!(
        extract_document_text(&p, "odt").unwrap(),
        "beforeinsideafter\n"
    );
}

#[test]
fn a_self_closed_paragraph_still_breaks_the_line() {
    let body = "<office:document-content><office:body><office:text>\
         <text:p>first</text:p><text:p/><text:p>third</text:p>\
         </office:text></office:body></office:document-content>";
    let p = container(&[("content.xml", body)]);
    assert_eq!(
        extract_document_text(&p, "odt").unwrap(),
        "first\n\nthird\n"
    );
}

#[test]
fn an_error_names_the_document() {
    let err = office_extract(b"not a zip".to_vec(), "docx").unwrap_err();
    assert!(err.starts_with("office extractor /tmp/doc.docx: "), "{err}");
}

#[test]
fn entities_resolve_by_name_and_by_number() {
    for (raw, want) in [
        ("amp", Some("&")),
        ("lt", Some("<")),
        ("gt", Some(">")),
        ("quot", Some("\"")),
        ("apos", Some("'")),
        ("#65", Some("A")),
        ("#x41", Some("A")),
        ("#xD800", None),
        ("#", None),
        ("nonsuch", None),
    ] {
        let mut out = String::from("x");
        let ok = push_entity_text(raw, &mut out);
        assert_eq!(ok, want.is_some(), "{raw}");
        assert_eq!(out, format!("x{}", want.unwrap_or("")), "{raw}");
    }
}

#[test]
fn a_member_past_the_inflation_limit_is_cut() {
    let mut config = config();
    config.processing.maximum_text_size = 1;
    let limits = Limits::for_config(&config);
    assert_eq!(limits.inflate, 16);
    assert_eq!(limits.text, 1);
    config.processing.maximum_text_size = 0;
    assert_eq!(Limits::for_config(&config).text, 1, "a zero is read as one");
    config.processing.maximum_text_size = usize::MAX;
    assert_eq!(Limits::for_config(&config).inflate, 64 * 1024 * 1024);
}

#[test]
fn text_is_put_after_what_was_there() {
    let limits = Limits::for_config(&config());
    let body = container(&[(
        "word/document.xml",
        "<w:document><w:p><w:t>added</w:t></w:p></w:document>",
    )]);
    let mut out = "kept ".to_string();
    office::extract_document_text(&body, "docx", &Vec::new(), &mut out, limits).unwrap();
    assert_eq!(out, "kept added\n");

    let broken = container(&[("word/document.xml", "<w:p><w:t>half</w:t></w:q>")]);
    let mut out = "kept ".to_string();
    office::extract_document_text(&broken, "docx", &Vec::new(), &mut out, limits).unwrap_err();
    assert_eq!(out, "kept half");
}

#[test]
fn a_text_at_the_limit_is_left_as_it_is() {
    let mut limits = Limits::for_config(&config());
    limits.text = 4;
    let body = container(&[(
        "ppt/slides/slide1.xml",
        "<p:sld><a:p><a:t>more</a:t></a:p></p:sld>",
    )]);
    let mut out = "full".to_string();
    office::extract_document_text(&body, "pptx", &Vec::new(), &mut out, limits).unwrap();
    assert_eq!(out, "full");
}

fn crc32(bytes: &[u8]) -> u32 {
    let mut crc = !0u32;
    for b in bytes {
        crc ^= u32::from(*b);
        for _ in 0..8 {
            crc = if crc & 1 == 1 { (crc >> 1) ^ 0xEDB8_8320 } else { crc >> 1 };
        }
    }
    !crc
}

/// An archive of stored members. Each comes with the flags of its central
/// header, and with an encryption field where it is sealed.
fn stored(members: &[(&str, &str, u16, bool)]) -> Vec<u8> {
    let mut out = Vec::new();
    let mut directory = Vec::new();
    for (name, body, flags, sealed) in members {
        let at = out.len() as u32;
        let mut common = Vec::new();
        common.extend_from_slice(&20u16.to_le_bytes());
        common.extend_from_slice(&flags.to_le_bytes());
        common.extend_from_slice(&[0; 6]);
        common.extend_from_slice(&crc32(body.as_bytes()).to_le_bytes());
        common.extend_from_slice(&(body.len() as u32).to_le_bytes());
        common.extend_from_slice(&(body.len() as u32).to_le_bytes());
        common.extend_from_slice(&(name.len() as u16).to_le_bytes());

        out.extend_from_slice(&0x0403_4b50u32.to_le_bytes());
        out.extend_from_slice(&common);
        out.extend_from_slice(&0u16.to_le_bytes());
        out.extend_from_slice(name.as_bytes());
        out.extend_from_slice(body.as_bytes());

        let extra: &[u8] = if *sealed {
            &[0x01, 0x99, 0x07, 0x00, 0x02, 0x00, 0x41, 0x45, 0x03, 0x00, 0x00]
        } else {
            &[]
        };
        directory.extend_from_slice(&0x0201_4b50u32.to_le_bytes());
        directory.extend_from_slice(&20u16.to_le_bytes());
        directory.extend_from_slice(&common);
        directory.extend_from_slice(&(extra.len() as u16).to_le_bytes());
        directory.extend_from_slice(&[0; 10]);
        directory.extend_from_slice(&at.to_le_bytes());
        directory.extend_from_slice(name.as_bytes());
        directory.extend_from_slice(extra);
    }
    let start = out.len() as u32;
    let count = members.len() as u16;
    out.extend_from_slice(&directory);
    out.extend_from_slice(&0x0605_4b50u32.to_le_bytes());
    out.extend_from_slice(&[0; 4]);
    out.extend_from_slice(&count.to_le_bytes());
    out.extend_from_slice(&count.to_le_bytes());
    out.extend_from_slice(&(directory.len() as u32).to_le_bytes());
    out.extend_from_slice(&start.to_le_bytes());
    out.extend_from_slice(&[0; 2]);
    out
}

const DOCUMENT: &str = "<w:document><w:p><w:t>body</w:t></w:p></w:document>";

#[test]
fn a_member_that_denies_its_encryption_counts_as_a_panic() {
    let plain = stored(&[("word/document.xml", DOCUMENT, 0, false)]);
    assert_eq!(office_extract(plain, "docx").unwrap(), "body\n");
    let trap = stored(&[("word/document.xml", DOCUMENT, 0, true)]);
    assert_eq!(
        office_extract(trap, "docx").unwrap_err(),
        "extractor panicked on /tmp/doc.docx"
    );
}

#[test]
fn an_encrypted_member_asks_for_a_password() {
    let locked = stored(&[("word/document.xml", DOCUMENT, 1, true)]);
    assert_eq!(
        office_extract(locked, "docx").unwrap_err(),
        "office extractor /tmp/doc.docx: unsupported Zip archive: \
         Password required to decrypt file"
    );
    let locked = stored(&[("word/document.xml", DOCUMENT, 1, false)]);
    assert!(office_extract(locked, "docx").unwrap_err().contains("Password required"));
}

#[test]
fn a_trap_elsewhere_costs_only_what_opens_it() {
    let body = stored(&[
        ("word/media/image1.png", "png", 0, true),
        ("word/document.xml", DOCUMENT, 0, false),
    ]);
    assert_eq!(office_extract(body, "docx").unwrap(), "body\n");

    let slide = "<p:sld><a:p><a:t>hi</a:t></a:p></p:sld>";
    let body = stored(&[
        ("ppt/media/image1.png", "png", 0, true),
        ("ppt/slides/slide1.xml", slide, 0, false),
    ]);
    assert_eq!(
        office_extract(body, "pptx").unwrap_err(),
        "extractor panicked on /tmp/doc.pptx",
        "a walk over the members opens each"
    );

    let body = stored(&[("xl/sharedStrings.xml", "<sst/>", 0, true)]);
    assert_eq!(
        office_extract(body, "xlsx").unwrap_err(),
        "extractor panicked on /tmp/doc.xlsx"
    );
}

#[test]
fn a_name_stands_for_the_last_member_that_has_it() {
    let body = stored(&[
        ("word/document.xml", DOCUMENT, 0, true),
        ("word/document.xml", DOCUMENT, 0, false),
    ]);
    assert_eq!(office_extract(body, "docx").unwrap(), "body\n");
    let body = stored(&[
        ("word/document.xml", DOCUMENT, 0, false),
        ("word/document.xml", DOCUMENT, 0, true),
    ]);
    assert_eq!(
        office_extract(body, "docx").unwrap_err(),
        "extractor panicked on /tmp/doc.docx"
    );
}
