use quicksearch_core::extract::ole::{self, doc, ppt, xls};
use std::io::{Cursor, Write};

fn container(streams: &[(&str, Vec<u8>)]) -> Vec<u8> {
    let mut cfb = cfb::CompoundFile::create(Cursor::new(Vec::new())).unwrap();
    for (name, body) in streams {
        let mut s = cfb.create_stream(name).unwrap();
        s.write_all(body).unwrap();
        s.flush().unwrap();
    }
    cfb.into_inner().into_inner()
}

fn extract_ole_text(container: &[u8], extension: &str) -> Result<String, String> {
    ole::extract_ole_text(container, extension, &Vec::new())
}

fn le16(v: u16) -> [u8; 2] {
    v.to_le_bytes()
}

fn le32(v: u32) -> [u8; 4] {
    v.to_le_bytes()
}

fn word_doc(pieces: &[(&str, bool)]) -> Vec<(&'static str, Vec<u8>)> {
    const TEXT_BASE: usize = 2048;
    let mut body = vec![0u8; TEXT_BASE];
    body[0..2].copy_from_slice(&le16(0xA5EC));
    body[doc::FIB_FLAGS..doc::FIB_FLAGS + 2].copy_from_slice(&le16(doc::FLAG_WHICH_TBL_STM));

    let csw = 14u16;
    let cslw = 22u16;
    let pairs = 93u16;
    let mut off = doc::FIB_BASE_LEN;
    body[off..off + 2].copy_from_slice(&le16(csw));
    off += 2 + csw as usize * 2;
    body[off..off + 2].copy_from_slice(&le16(cslw));
    off += 2 + cslw as usize * 4;
    body[off..off + 2].copy_from_slice(&le16(pairs));
    let blob = off + 2;

    let mut cps = vec![0u32];
    let mut pcds = Vec::new();
    let mut cp = 0u32;
    for (text, compressed) in pieces {
        let start = body.len();
        let chars = if *compressed {
            let bytes = encoding_rs::WINDOWS_1252.encode(text).0.into_owned();
            body.extend_from_slice(&bytes);
            bytes.len()
        } else {
            let units: Vec<u16> = text.encode_utf16().collect();
            for u in &units {
                body.extend_from_slice(&le16(*u));
            }
            units.len()
        };
        cp += chars as u32;
        cps.push(cp);
        let fc = if *compressed {
            ((start as u32) * 2) | doc::FC_COMPRESSED
        } else {
            start as u32
        };
        pcds.extend_from_slice(&le16(0));
        pcds.extend_from_slice(&le32(fc));
        pcds.extend_from_slice(&le16(0));
    }

    let mut plc = Vec::new();
    for c in &cps {
        plc.extend_from_slice(&le32(*c));
    }
    plc.extend_from_slice(&pcds);

    let mut clx = vec![doc::CLXT_PCDT];
    clx.extend_from_slice(&le32(plc.len() as u32));
    clx.extend_from_slice(&plc);

    let clx_at = 16usize;
    let mut table = vec![0u8; clx_at];
    table.extend_from_slice(&clx);
    let pair = blob + doc::CLX_PAIR_INDEX * 8;
    body[pair..pair + 4].copy_from_slice(&le32(clx_at as u32));
    body[pair + 4..pair + 8].copy_from_slice(&le32(clx.len() as u32));

    vec![("WordDocument", body), ("1Table", table)]
}

#[test]
fn doc_reads_a_compressed_piece() {
    let p = container(&word_doc(&[("Hello from Word\r", true)]));
    assert_eq!(extract_ole_text(&p, "doc").unwrap(), "Hello from Word\n");
}

#[test]
fn doc_reads_a_wide_piece() {
    let p = container(&word_doc(&[("Καλημέρα\r", false)]));
    assert_eq!(extract_ole_text(&p, "doc").unwrap(), "Καλημέρα\n");
}

#[test]
fn doc_concatenates_pieces_in_document_order() {
    let p = container(&word_doc(&[
        ("First ", true),
        ("δεύτερο ", false),
        ("third\r", true),
    ]));
    assert_eq!(
        extract_ole_text(&p, "doc").unwrap(),
        "First δεύτερο third\n"
    );
}

#[test]
fn doc_drops_field_instructions_but_keeps_results() {
    let body = "See \u{13}HYPERLINK \"http://example.com\"\u{14}the site\u{15} now\r";
    let p = container(&word_doc(&[(body, true)]));
    let text = extract_ole_text(&p, "doc").unwrap();
    assert_eq!(text, "See the site now\n");
    assert!(!text.contains("HYPERLINK"), "{text}");
}

#[test]
fn doc_without_a_table_stream_is_an_error() {
    let streams = word_doc(&[("x\r", true)]);
    let doc_only = vec![streams[0].clone()];
    let err = extract_ole_text(&container(&doc_only), "doc").unwrap_err();
    assert!(err.contains("1Table"), "{err}");
}

#[test]
fn doc_survives_a_piece_pointing_past_the_stream() {
    let mut streams = word_doc(&[("Good text\r", true), ("later", true)]);
    let table = &mut streams[1].1;
    let pcd_two = table.len() - 8;
    table[pcd_two + 2..pcd_two + 6].copy_from_slice(&le32(0x3FFF_0000 | doc::FC_COMPRESSED));
    let p = container(&streams);
    assert_eq!(extract_ole_text(&p, "doc").unwrap(), "Good text\n");
}

#[test]
fn doc_with_a_truncated_fib_is_an_error() {
    let p = container(&[("WordDocument", vec![0u8; 4])]);
    assert!(extract_ole_text(&p, "doc").is_err());
}

fn biff(id: u16, body: &[u8]) -> Vec<u8> {
    let mut r = Vec::new();
    r.extend_from_slice(&le16(id));
    r.extend_from_slice(&le16(body.len() as u16));
    r.extend_from_slice(body);
    r
}

fn sst_string(s: &str, wide: bool) -> Vec<u8> {
    let mut out = Vec::new();
    if wide {
        let units: Vec<u16> = s.encode_utf16().collect();
        out.extend_from_slice(&le16(units.len() as u16));
        out.push(0x01);
        for u in units {
            out.extend_from_slice(&le16(u));
        }
    } else {
        let bytes = encoding_rs::WINDOWS_1252.encode(s).0.into_owned();
        out.extend_from_slice(&le16(bytes.len() as u16));
        out.push(0x00);
        out.extend_from_slice(&bytes);
    }
    out
}

fn labelsst(index: u32) -> Vec<u8> {
    let mut b = Vec::new();
    b.extend_from_slice(&le16(0));
    b.extend_from_slice(&le16(0));
    b.extend_from_slice(&le16(0));
    b.extend_from_slice(&le32(index));
    b
}

#[test]
fn xls_resolves_shared_strings() {
    let mut sst = Vec::new();
    sst.extend_from_slice(&le32(2));
    sst.extend_from_slice(&le32(2));
    sst.extend_from_slice(&sst_string("Revenue", false));
    sst.extend_from_slice(&sst_string("Ω omega", true));

    let mut book = biff(xls::REC_SST, &sst);
    book.extend_from_slice(&biff(xls::REC_LABELSST, &labelsst(0)));
    book.extend_from_slice(&biff(xls::REC_LABELSST, &labelsst(1)));

    let text = extract_ole_text(&container(&[("Workbook", book)]), "xls").unwrap();
    assert!(text.contains("Revenue"), "{text}");
    assert!(text.contains("Ω omega"), "{text}");
}

#[test]
fn xls_reads_a_string_split_across_a_continue_record() {
    let mut sst = Vec::new();
    sst.extend_from_slice(&le32(1));
    sst.extend_from_slice(&le32(1));
    sst.extend_from_slice(&le16(10));
    sst.push(0x00);
    sst.extend_from_slice(b"ABCD");

    let mut cont = vec![0x00u8];
    cont.extend_from_slice(b"EFGHIJ");

    let mut book = biff(xls::REC_SST, &sst);
    book.extend_from_slice(&biff(xls::REC_CONTINUE, &cont));
    book.extend_from_slice(&biff(xls::REC_LABELSST, &labelsst(0)));

    let text = extract_ole_text(&container(&[("Workbook", book)]), "xls").unwrap();
    assert!(text.contains("ABCDEFGHIJ"), "{text}");
}

#[test]
fn xls_honours_a_width_change_at_a_continue_boundary() {
    let mut sst = Vec::new();
    sst.extend_from_slice(&le32(1));
    sst.extend_from_slice(&le32(1));
    sst.extend_from_slice(&le16(6));
    sst.push(0x00);
    sst.extend_from_slice(b"abc");

    let mut cont = vec![0x01u8];
    for u in "ΔΕΖ".encode_utf16() {
        cont.extend_from_slice(&le16(u));
    }

    let mut book = biff(xls::REC_SST, &sst);
    book.extend_from_slice(&biff(xls::REC_CONTINUE, &cont));
    book.extend_from_slice(&biff(xls::REC_LABELSST, &labelsst(0)));

    let text = extract_ole_text(&container(&[("Workbook", book)]), "xls").unwrap();
    assert!(text.contains("abcΔΕΖ"), "{text}");
}

fn number(value: f64) -> Vec<u8> {
    let mut body = vec![0u8; 6];
    body.extend_from_slice(&value.to_le_bytes());
    biff(xls::REC_NUMBER, &body)
}

#[test]
fn xls_indexes_numbers_as_typed() {
    let text = extract_ole_text(&container(&[("Workbook", number(2024f64))]), "xls").unwrap();
    assert!(text.contains("2024"), "{text}");
    assert!(
        !text.contains("2024.0"),
        "whole numbers read as typed: {text}"
    );
}

#[test]
fn xls_drops_an_out_of_range_shared_string_index() {
    let mut sst = Vec::new();
    sst.extend_from_slice(&le32(1));
    sst.extend_from_slice(&le32(1));
    sst.extend_from_slice(&sst_string("only", false));

    let mut book = biff(xls::REC_SST, &sst);
    book.extend_from_slice(&biff(xls::REC_LABELSST, &labelsst(0)));
    book.extend_from_slice(&biff(xls::REC_LABELSST, &labelsst(9999)));

    let p = container(&[("Workbook", book)]);
    assert_eq!(extract_ole_text(&p, "xls").unwrap().trim(), "only");
}

#[test]
fn xls_ignores_a_lying_shared_string_count() {
    let mut sst = Vec::new();
    sst.extend_from_slice(&le32(u32::MAX));
    sst.extend_from_slice(&le32(u32::MAX));
    sst.extend_from_slice(&sst_string("real", false));

    let mut book = biff(xls::REC_SST, &sst);
    book.extend_from_slice(&biff(xls::REC_LABELSST, &labelsst(0)));

    let p = container(&[("Workbook", book)]);
    assert_eq!(extract_ole_text(&p, "xls").unwrap().trim(), "real");
}

#[test]
fn xls_record_running_past_the_stream_is_not_fatal() {
    let mut book = Vec::new();
    book.extend_from_slice(&le16(xls::REC_LABEL));
    book.extend_from_slice(&le16(5000));
    book.extend_from_slice(b"short");
    let p = container(&[("Workbook", book)]);
    assert!(extract_ole_text(&p, "xls").is_err());
}

#[test]
fn xls_without_a_workbook_stream_is_an_error() {
    let p = container(&[("Unrelated", vec![1, 2, 3])]);
    assert!(extract_ole_text(&p, "xls").is_err());
}

#[test]
fn xls_asks_for_the_rendering_of_a_fraction() {
    let mut book = number(2.5);
    book.extend_from_slice(&number(7f64));
    let p = container(&[("Workbook", book)]);
    let cells = xls::container_floats(&p);
    assert_eq!(cells, vec![xls::FloatCell::Bits(2.5f64.to_bits())]);
    let text = ole::extract_ole_text(&p, "xls", &vec!["2.5".to_string()]).unwrap();
    assert!(text.contains("2.5") && text.contains('7'), "{text}");
}

#[test]
fn xls_number_cells_by_their_bits() {
    assert_eq!(xls::read_double(0f64.to_bits()), xls::NumberCell::Whole(0));
    assert_eq!(
        xls::read_double((-3f64).to_bits()),
        xls::NumberCell::Whole(-3)
    );
    assert_eq!(
        xls::read_double(1e15f64.to_bits()),
        xls::NumberCell::Float(xls::FloatCell::Bits(1e15f64.to_bits()))
    );
    // An integer that a compressed cell holds: bit 1 set, value in the rest.
    assert_eq!(xls::read_rk((42 << 2) | 2), xls::NumberCell::Whole(42));
}

fn ppt_record(version: u16, rec_type: u16, payload: &[u8]) -> Vec<u8> {
    let mut r = Vec::new();
    r.extend_from_slice(&le16(version));
    r.extend_from_slice(&le16(rec_type));
    r.extend_from_slice(&le32(payload.len() as u32));
    r.extend_from_slice(payload);
    r
}

#[test]
fn ppt_reads_both_atom_widths() {
    let bytes = encoding_rs::WINDOWS_1252
        .encode("Slide title")
        .0
        .into_owned();
    let mut wide = Vec::new();
    for u in "Ωmega body".encode_utf16() {
        wide.extend_from_slice(&le16(u));
    }
    let mut body = ppt_record(0x0000, ppt::TEXT_BYTES_ATOM, &bytes);
    body.extend_from_slice(&ppt_record(0x0000, ppt::TEXT_CHARS_ATOM, &wide));

    let text = extract_ole_text(&container(&[("PowerPoint Document", body)]), "ppt").unwrap();
    assert!(text.contains("Slide title"), "{text}");
    assert!(text.contains("Ωmega body"), "{text}");
}

#[test]
fn ppt_descends_into_containers() {
    let bytes = encoding_rs::WINDOWS_1252
        .encode("Nested deep")
        .0
        .into_owned();
    let atom = ppt_record(0x0000, ppt::TEXT_BYTES_ATOM, &bytes);
    let inner = ppt_record(0x000F, 0x0FF0, &atom);
    let outer = ppt_record(0x000F, 0x03E8, &inner);

    let p = container(&[("PowerPoint Document", outer)]);
    assert!(extract_ole_text(&p, "ppt").unwrap().contains("Nested deep"));
}

#[test]
fn ppt_bounds_container_recursion() {
    let bytes = encoding_rs::WINDOWS_1252.encode("buried").0.into_owned();
    let mut rec = ppt_record(0x0000, ppt::TEXT_BYTES_ATOM, &bytes);
    for _ in 0..(ppt::MAX_DEPTH + 20) {
        rec = ppt_record(0x000F, 0x0FF0, &rec);
    }
    let p = container(&[("PowerPoint Document", rec)]);
    assert!(extract_ole_text(&p, "ppt").is_err());
}

#[test]
fn ppt_record_running_past_the_stream_is_not_fatal() {
    let mut body = Vec::new();
    body.extend_from_slice(&le16(0x0000));
    body.extend_from_slice(&le16(ppt::TEXT_BYTES_ATOM));
    body.extend_from_slice(&le32(u32::MAX));
    body.extend_from_slice(b"short");
    let p = container(&[("PowerPoint Document", body)]);
    assert!(extract_ole_text(&p, "ppt").is_err());
}

#[test]
fn ppt_without_its_stream_is_an_error() {
    let p = container(&[("Pictures", vec![0; 4])]);
    assert!(extract_ole_text(&p, "ppt").is_err());
}

#[test]
fn a_non_compound_file_is_an_error() {
    let err = extract_ole_text(b"this is not an OLE2 compound file at all", "doc").unwrap_err();
    assert!(err.contains("compound file"), "{err}");
}

#[test]
fn an_empty_file_is_an_error() {
    assert!(extract_ole_text(b"", "xls").is_err());
}

#[test]
fn doc_overlapping_control_pieces_stop_at_the_budget() {
    const SPAN: usize = 4 * 1024;
    let mut body = vec![0x01u8; SPAN];
    let marker_at = body.len();
    body.extend_from_slice(b"MARKER");

    let mut pieces: Vec<doc::Piece> = (0..64)
        .map(|_| doc::Piece {
            start: 0,
            end: SPAN,
            compressed: true,
        })
        .collect();
    pieces.push(doc::Piece {
        start: marker_at,
        end: body.len(),
        compressed: true,
    });

    let out = doc::decode_pieces(&body, &pieces, SPAN * 32);
    assert!(
        !out.contains("MARKER"),
        "the walk ran past its budget: {out:?}"
    );
    assert!(
        out.trim().is_empty(),
        "control bytes must not survive: {out:?}"
    );
}

#[test]
fn doc_pieces_within_the_budget_are_all_decoded() {
    const SPAN: usize = 4 * 1024;
    let mut body = vec![0x01u8; SPAN];
    let marker_at = body.len();
    body.extend_from_slice(b"MARKER");

    let mut pieces: Vec<doc::Piece> = (0..4)
        .map(|_| doc::Piece {
            start: 0,
            end: SPAN,
            compressed: true,
        })
        .collect();
    pieces.push(doc::Piece {
        start: marker_at,
        end: body.len(),
        compressed: true,
    });

    let out = doc::decode_pieces(&body, &pieces, SPAN * 32);
    assert!(out.contains("MARKER"), "stopped early: {out:?}");
}

#[test]
fn xls_control_character_cells_stop_at_the_budget() {
    let control: String = std::iter::repeat('\u{1}').take(4096).collect();

    let mut sst = Vec::new();
    sst.extend_from_slice(&le32(2));
    sst.extend_from_slice(&le32(2));
    sst.extend_from_slice(&sst_string(&control, false));
    sst.extend_from_slice(&sst_string("MARKER", false));

    let mut book = biff(xls::REC_SST, &sst);
    for _ in 0..64 {
        book.extend_from_slice(&biff(xls::REC_LABELSST, &labelsst(0)));
    }
    book.extend_from_slice(&biff(xls::REC_LABELSST, &labelsst(1)));

    let out = xls::extract_from_book(&book, 4096 * 32, &Vec::new()).unwrap_err();
    assert!(
        out.contains("no readable cell text"),
        "expected the scan to stop before the marker, got: {out}"
    );

    let out = xls::extract_from_book(&book, 4096 * 1024, &Vec::new()).unwrap();
    assert!(out.contains("MARKER"), "stopped early: {out:?}");
}

fn slides(bytes: &[u8]) -> String {
    ppt::extract_slides(bytes).unwrap()
}

#[test]
fn a_cleaned_run_is_prose_and_stays_as_it_is() {
    let raw = "a\x01b\tc\rd\x07e\x0Bf\x1Fg\nh";
    let once = slides(&ppt_record(0, ppt::TEXT_BYTES_ATOM, raw.as_bytes()));
    assert_eq!(once, "ab\tc\nd\ne\nfg\nh\n");
    let again = slides(&ppt_record(
        0,
        ppt::TEXT_BYTES_ATOM,
        once.trim_end_matches('\n').as_bytes(),
    ));
    assert_eq!(again, once);
}

#[test]
fn a_field_instruction_adds_nothing() {
    let with = "see \x13 HYPERLINK x \x13 nested \x14shown\x15 end";
    let text = slides(&ppt_record(0, ppt::TEXT_BYTES_ATOM, with.as_bytes()));
    assert_eq!(text, "see shown end\n");
}

#[test]
fn ppt_records_are_walked_in_order() {
    let first = ppt_record(0, ppt::TEXT_BYTES_ATOM, b"first");
    let nested = ppt_record(
        ppt::VERSION_CONTAINER,
        0x03E8,
        &ppt_record(0, ppt::TEXT_BYTES_ATOM, b"second"),
    );
    let third = ppt_record(0, ppt::TEXT_BYTES_ATOM, b"third");
    let front = [first, nested].concat();
    let all = [front.clone(), third.clone()].concat();
    assert_eq!(slides(&all), slides(&front) + &slides(&third));
    assert_eq!(slides(&all), "first\nsecond\nthird\n");
}

#[test]
fn ppt_a_record_past_the_end_of_its_container_ends_it_alone() {
    let mut inside = ppt_record(0, ppt::TEXT_BYTES_ATOM, b"kept");
    let mut long = ppt_record(0, ppt::TEXT_BYTES_ATOM, b"lost");
    long[4] = 200;
    inside.extend_from_slice(&long);
    let mut all = ppt_record(ppt::VERSION_CONTAINER, 0x03E8, &inside);
    all.extend_from_slice(&ppt_record(0, ppt::TEXT_BYTES_ATOM, b"after"));
    assert_eq!(slides(&all), "kept\nafter\n");
}
