//! `.ppt`, PowerPoint 97-2003.
//!
//! A tree of records, where containers nest and atoms hold data. Slide text
//! sits in atoms that differ in width. The walk takes every text atom it
//! finds, in file order: close enough for an index.
use super::{clean, cleaned, decodable, decode_run, run_text, stream, stream_of, MAX_TEXT_BYTES};
use crate::bytes::{get_range, le16, le32, range, u16_at, u32_at};
use crate::text::{blank, byte_len, is_blank, text_view, utf8_len};
use vstd::prelude::*;

verus! {

pub const TEXT_CHARS_ATOM: u16 = 0x0FA0;

pub const TEXT_BYTES_ATOM: u16 = 0x0FA8;

/// `CString`, used for titles and notes in some producers.
pub const CSTRING_ATOM: u16 = 0x0FBA;

/// A record header is: version/instance u16, type u16, length u32.
pub const REC_HEADER_LEN: usize = 8;

/// A record whose low nibble of the first word is 0xF holds child records
/// rather than data.
pub const VERSION_CONTAINER: u16 = 0x000F;

/// Deepest container nesting followed. Real decks are a handful deep; the
/// bound exists so a file that claims to contain itself cannot recurse until
/// the stack runs out.
pub const MAX_DEPTH: u32 = 32;

/// What an atom adds to the text: each text atom ends its line.
pub open spec fn atom_text(rec_type: u16, payload: Seq<u8>) -> Seq<char> {
    if rec_type == TEXT_BYTES_ATOM {
        cleaned(run_text(payload, false)).push('\n')
    } else if rec_type == TEXT_CHARS_ATOM || rec_type == CSTRING_ATOM {
        cleaned(run_text(payload, true)).push('\n')
    } else {
        seq![]
    }
}

/// The text after a whole record body has been walked: `out`, and what its
/// records add. A container past the depth bound adds nothing, and neither
/// does one that is entered when the text is already long enough.
pub open spec fn walked(body: Seq<u8>, depth: int, out: Seq<char>) -> Seq<char>
    decreases body.len(), body.len() + 1,
{
    if depth > MAX_DEPTH || utf8_len(out) >= MAX_TEXT_BYTES {
        out
    } else {
        walked_from(body, 0, depth, out)
    }
}

/// The text after the records from `i` on have been walked: the first that
/// does not fit ends them.
pub open spec fn walked_from(body: Seq<u8>, i: int, depth: int, out: Seq<char>) -> Seq<char>
    decreases body.len(), body.len() - i,
{
    match (le16(body, i), le16(body, i + 2), le32(body, i + 4)) {
        (Some(version), Some(rec_type), Some(len)) => {
            let start = i + REC_HEADER_LEN;
            match range(body, start, start + len) {
                None => out,
                Some(payload) => {
                    let after = if version % 16 == VERSION_CONTAINER {
                        walked(payload, depth + 1, out)
                    } else {
                        out + atom_text(rec_type, payload)
                    };
                    walked_from(body, start + len, depth, after)
                },
            }
        },
        _ => out,
    }
}

/// Walk a record body, appending the text of its atoms to `out`.
pub fn walk(body: &[u8], depth: u32, out: &mut String)
    requires
        decodable(body@.len()),
    ensures
        final(out)@ == walked(body@, depth as int, old(out)@),
    decreases body@.len(),
{
    if depth > MAX_DEPTH || byte_len(out.as_str()) >= MAX_TEXT_BYTES {
        return;
    }
    let ghost goal = walked_from(body@, 0, depth as int, out@);
    let n: usize = body.len();
    let mut i: usize = 0;
    loop
        invariant
            n == body@.len(),
            i <= n,
            decodable(body@.len()),
            depth <= MAX_DEPTH,
            walked_from(body@, i as int, depth as int, out@) == goal,
            goal == walked(body@, depth as int, old(out)@),
        decreases n - i,
    {
        if n - i < REC_HEADER_LEN {
            return;
        }
        match (u16_at(body, i), u16_at(body, i + 2), u32_at(body, i + 4)) {
            (Some(version), Some(rec_type), Some(len)) => {
                let start: usize = i + REC_HEADER_LEN;
                let end: usize = match start.checked_add(len as usize) {
                    Some(e) => e,
                    None => return,
                };
                let payload = match get_range(body, start, end) {
                    Some(p) => p,
                    None => return,
                };
                if version % 16 == VERSION_CONTAINER {
                    walk(payload, depth + 1, out);
                } else if rec_type == TEXT_BYTES_ATOM {
                    let ghost before = out@;
                    let text = decode_run(payload, false);
                    clean(text.as_str(), out);
                    out.push('\n');
                    assert(out@ =~= before + atom_text(rec_type, payload@));
                } else if rec_type == TEXT_CHARS_ATOM || rec_type == CSTRING_ATOM {
                    let ghost before = out@;
                    let text = decode_run(payload, true);
                    clean(text.as_str(), out);
                    out.push('\n');
                    assert(out@ =~= before + atom_text(rec_type, payload@));
                } else {
                    assert(out@ =~= out@ + atom_text(rec_type, payload@));
                }
                i = end;
            },
            _ => return,
        }
    }
}

/// The text of a presentation's stream; one without text atoms is an error.
pub open spec fn slides_text(doc: Seq<u8>) -> Result<Seq<char>, Seq<char>> {
    let out = walked(doc, 0, seq![]);
    if blank(out) {
        Err("no text atoms found in the presentation"@)
    } else {
        Ok(out)
    }
}

/// The text of a presentation whose stream is in hand.
pub fn extract_slides(doc: &[u8]) -> (r: Result<String, String>)
    requires
        decodable(doc@.len()),
    ensures
        text_view(r) == slides_text(doc@),
{
    let mut out = String::new();
    walk(doc, 0, &mut out);
    if is_blank(out.as_str()) {
        return Err("no text atoms found in the presentation".to_owned());
    }
    Ok(out)
}

/// The text of a `.ppt`.
pub open spec fn presentation_text(container: Seq<u8>) -> Result<Seq<char>, Seq<char>> {
    match stream_of(container, "PowerPoint Document"@) {
        None => Err("no PowerPoint Document stream"@),
        Some(doc) => slides_text(doc),
    }
}

pub fn extract(container: &[u8]) -> (r: Result<String, String>)
    ensures
        text_view(r) == presentation_text(container@),
{
    match stream(container, "PowerPoint Document") {
        Some(doc) => extract_slides(doc.as_slice()),
        None => Err("no PowerPoint Document stream".to_owned()),
    }
}

/// A walk only ever adds to the text.
pub proof fn a_walk_keeps_what_was_there(body: Seq<u8>, depth: int, out: Seq<char>)
    ensures
        out.len() <= walked(body, depth, out).len(),
        walked(body, depth, out).take(out.len() as int) == out,
    decreases body.len(), body.len() + 1,
{
    if depth > MAX_DEPTH || utf8_len(out) >= MAX_TEXT_BYTES {
        assert(out.take(out.len() as int) =~= out);
    } else {
        lemma_walk_from_keeps(body, 0, depth, out);
    }
}

proof fn lemma_walk_from_keeps(body: Seq<u8>, i: int, depth: int, out: Seq<char>)
    ensures
        out.len() <= walked_from(body, i, depth, out).len(),
        walked_from(body, i, depth, out).take(out.len() as int) == out,
    decreases body.len(), body.len() - i,
{
    assert(out.take(out.len() as int) =~= out);
    match (le16(body, i), le16(body, i + 2), le32(body, i + 4)) {
        (Some(version), Some(rec_type), Some(len)) => {
            let start = i + REC_HEADER_LEN;
            if let Some(payload) = range(body, start, start + len) {
                let after = if version % 16 == VERSION_CONTAINER {
                    walked(payload, depth + 1, out)
                } else {
                    out + atom_text(rec_type, payload)
                };
                if version % 16 == VERSION_CONTAINER {
                    a_walk_keeps_what_was_there(payload, depth + 1, out);
                }
                assert(after.take(out.len() as int) =~= out);
                lemma_walk_from_keeps(body, start + len, depth, after);
                let all = walked_from(body, i, depth, out);
                assert(all.take(after.len() as int).take(out.len() as int) =~= all.take(
                    out.len() as int,
                ));
            }
        },
        _ => {},
    }
}

/// The record at `i`: its version word, its type, and where its data begins and
/// ends. Nothing where it does not fit.
pub open spec fn record_at(body: Seq<u8>, i: int) -> Option<(u16, u16, int, int)> {
    match (le16(body, i), le16(body, i + 2), le32(body, i + 4)) {
        (Some(version), Some(rec_type), Some(len)) => {
            let start = i + REC_HEADER_LEN;
            if start + len <= body.len() {
                Some((version, rec_type, start, start + len))
            } else {
                None
            }
        },
        _ => None,
    }
}

/// Whether the bytes from `i` on are whole records, the last of which ends with
/// the body.
pub open spec fn whole_records(body: Seq<u8>, i: int) -> bool
    decreases body.len() - i,
{
    i == body.len() || match record_at(body, i) {
        Some((_, _, _, end)) => whole_records(body, end),
        None => false,
    }
}

/// A record that fits reads the same whatever follows.
proof fn lemma_record_in_front(a: Seq<u8>, b: Seq<u8>, i: int)
    requires
        record_at(a, i) is Some,
    ensures
        record_at(a + b, i) == record_at(a, i),
        range(a + b, record_at(a, i)->Some_0.2, record_at(a, i)->Some_0.3) == range(
            a,
            record_at(a, i)->Some_0.2,
            record_at(a, i)->Some_0.3,
        ),
{
    let (_, _, start, end) = record_at(a, i)->Some_0;
    assert((a + b).subrange(start, end) =~= a.subrange(start, end));
}

/// Records are walked in order: whole ones first, and then what follows.
proof fn lemma_walk_goes_on(a: Seq<u8>, b: Seq<u8>, i: int, depth: int, out: Seq<char>)
    requires
        0 <= i,
        whole_records(a, i),
    ensures
        walked_from(a + b, i, depth, out) == walked_from(
            a + b,
            a.len() as int,
            depth,
            walked_from(a, i, depth, out),
        ),
    decreases a.len() - i,
{
    if i == a.len() {
        assert(le16(a, i) is None);
    } else {
        lemma_record_in_front(a, b, i);
        let (version, rec_type, start, end) = record_at(a, i)->Some_0;
        let payload = a.subrange(start, end);
        let after = if version % 16 == VERSION_CONTAINER {
            walked(payload, depth + 1, out)
        } else {
            out + atom_text(rec_type, payload)
        };
        lemma_walk_goes_on(a, b, end, depth, after);
    }
}

/// A walk does not look back.
proof fn lemma_walk_from_behind(a: Seq<u8>, b: Seq<u8>, j: int, depth: int, out: Seq<char>)
    requires
        0 <= j,
    ensures
        walked_from(a + b, a.len() + j, depth, out) == walked_from(b, j, depth, out),
    decreases b.len() - j,
{
    let i = a.len() + j;
    assert(le16(a + b, i) == le16(b, j));
    assert(le16(a + b, i + 2) == le16(b, j + 2));
    assert(le32(a + b, i + 4) == le32(b, j + 4));
    if let Some((version, rec_type, start, end)) = record_at(b, j) {
        assert((a + b).subrange(a.len() + start, a.len() + end) =~= b.subrange(start, end));
        let payload = b.subrange(start, end);
        let after = if version % 16 == VERSION_CONTAINER {
            walked(payload, depth + 1, out)
        } else {
            out + atom_text(rec_type, payload)
        };
        lemma_walk_from_behind(a, b, end, depth, after);
    }
}

/// Text is taken in file order: walking whole records and what follows them is
/// walking the ones and then the other, while the text is short enough to go
/// on.
pub proof fn records_are_walked_in_order(a: Seq<u8>, b: Seq<u8>, depth: int, out: Seq<char>)
    requires
        whole_records(a, 0),
        utf8_len(out) < MAX_TEXT_BYTES,
        utf8_len(walked(a, depth, out)) < MAX_TEXT_BYTES,
    ensures
        walked(a + b, depth, out) == walked(b, depth, walked(a, depth, out)),
{
    lemma_walk_goes_on(a, b, 0, depth, out);
    lemma_walk_from_behind(a, b, 0, depth, walked_from(a, 0, depth, out));
}

/// A record that runs past the end of its container ends the walk: what came
/// before it is kept, and nothing of it or after it is taken.
pub proof fn a_record_past_the_end_ends_the_walk(
    a: Seq<u8>,
    b: Seq<u8>,
    depth: int,
    out: Seq<char>,
)
    requires
        whole_records(a, 0),
        record_at(b, 0) is None,
    ensures
        walked(a + b, depth, out) == walked(a, depth, out),
{
    if depth <= MAX_DEPTH && utf8_len(out) < MAX_TEXT_BYTES {
        lemma_walk_goes_on(a, b, 0, depth, out);
        lemma_walk_from_behind(a, b, 0, depth, walked_from(a, 0, depth, out));
    }
}

/// A container nested past the depth bound adds nothing, whatever it holds.
pub proof fn a_container_past_the_bound_adds_nothing(body: Seq<u8>, depth: int, out: Seq<char>)
    requires
        depth > MAX_DEPTH,
    ensures
        walked(body, depth, out) == out,
{
}

/// One whole record adds what its kind says: a container what its records add,
/// one level deeper; an atom of wide or of narrow text its decoded and cleaned
/// payload, on a line of its own; anything else nothing.
pub proof fn a_record_adds_its_text(body: Seq<u8>, kind: int, depth: int, out: Seq<char>)
    requires
        body.len() >= 8,
        body.len() == 8 + body[4] + 256 * body[5] + 65536 * body[6] + 16777216 * body[7],
        kind == body[2] + 256 * body[3],
        depth <= 32,
        utf8_len(out) < MAX_TEXT_BYTES,
    ensures
        ({
            let payload = body.skip(8);
            let all = walked(body, depth, out);
            if body[0] % 16 == 15 {
                all == walked(payload, depth + 1, out)
            } else if kind == 0x0FA8 {
                all == out + cleaned(super::windows_1252_text(payload)) + seq!['\n']
            } else if kind == 0x0FA0 || kind == 0x0FBA {
                all == out + cleaned(super::wide_text(payload)) + seq!['\n']
            } else {
                all == out
            }
        }),
{
    let payload = body.skip(8);
    let len = body.len() - 8;
    assert(body.subrange(8, 8 + len) =~= payload);
    let version = le16(body, 0)->Some_0;
    assert(version % 16 == body[0] % 16);
    assert(le16(body, body.len() as int) is None);
    let rec_type = le16(body, 2)->Some_0;
    let after = if version % 16 == VERSION_CONTAINER {
        walked(payload, depth + 1, out)
    } else {
        out + atom_text(rec_type, payload)
    };
    assert(walked_from(body, body.len() as int, depth, after) == after);
    assert(walked_from(body, 0, depth, out) == after);
    if version % 16 != VERSION_CONTAINER {
        if kind == 0x0FA8 {
            assert(after =~= out + cleaned(super::windows_1252_text(payload)) + seq!['\n']);
        } else if kind == 0x0FA0 || kind == 0x0FBA {
            assert(after =~= out + cleaned(super::wide_text(payload)) + seq!['\n']);
        } else {
            assert(after =~= out);
        }
    }
}

/// A presentation's text is what the walk of its stream gives, and it is an error
/// exactly where that is blank.
pub proof fn a_presentation_is_its_text(doc: Seq<u8>)
    ensures
        slides_text(doc) is Err <==> blank(walked(doc, 0, seq![])),
        slides_text(doc) matches Ok(t) ==> t == walked(doc, 0, seq![]),
{
}

} // verus!
