//! Legacy binary Office formats: `.doc`, `.xls`, `.ppt`.
//!
//! These are OLE2 compound files, a FAT-like container of named streams. What
//! the three have in common is only the container; inside, each stores its
//! text a completely different way, so this module is three parsers sharing a
//! reader.
//!
//! Every offset in these formats comes from the file itself, counts
//! included. So every read is checked against the stream that actually
//! exists, and nothing is preallocated from a declared count.
pub mod doc;
pub mod ppt;
pub mod xls;

use crate::text::{joined, same, text_view, texts};
use vstd::prelude::*;

verus! {

/// Ceiling on the text taken from one legacy document, in bytes emitted and in
/// bytes read.
pub const MAX_TEXT_BYTES: usize = 67108864;

/// What windows-1252 makes of a run of bytes.
pub uninterp spec fn windows_1252_text(bytes: Seq<u8>) -> Seq<char>;

/// What UTF-16, low byte first, makes of a run of bytes.
pub uninterp spec fn utf_16le_text(bytes: Seq<u8>) -> Seq<char>;

/// Why the bytes are no readable compound file; nothing where they are one.
pub uninterp spec fn ole_open_error(container: Seq<u8>) -> Option<Seq<char>>;

/// What the stream `name` of a compound file holds: nothing where the bytes
/// are no compound file, there is no such stream, or it cannot be read
/// through.
pub uninterp spec fn ole_stream(container: Seq<u8>, name: Seq<char>) -> Option<Seq<u8>>;

/// Few enough bytes for the decoders to size their output.
pub open spec fn decodable(n: nat) -> bool {
    4 * n + 16 <= usize::MAX
}

/// `encoding_rs::Encoding::decode` of windows-1252: its text is a function of
/// the bytes. It panics only where the size of its output overflows `usize`.
#[verifier::external_body]
fn windows_1252(bytes: &[u8]) -> (s: String)
    requires
        decodable(bytes@.len()),
    ensures
        s@ == windows_1252_text(bytes@),
{
    encoding_rs::WINDOWS_1252.decode(bytes).0.into_owned()
}

/// `encoding_rs::Encoding::decode` of UTF-16LE: its text is a function of the
/// bytes. It panics only where the size of its output overflows `usize`.
#[verifier::external_body]
fn utf_16le(bytes: &[u8]) -> (s: String)
    requires
        decodable(bytes@.len()),
    ensures
        s@ == utf_16le_text(bytes@),
{
    encoding_rs::UTF_16LE.decode(bytes).0.into_owned()
}

/// `cfb::CompoundFile::open` on the bytes of a file: whether it opens, and the
/// message where it does not, are a function of the bytes.
#[verifier::external_body]
fn compound_error(container: &[u8]) -> (r: Option<String>)
    ensures
        match r {
            Some(e) => ole_open_error(container@) == Some(e@),
            None => ole_open_error(container@) is None,
        },
{
    cfb::CompoundFile::open(std::io::Cursor::new(container)).err().map(|e| e.to_string())
}

/// `cfb::CompoundFile::open_stream` on the bytes of a file, and a read of the
/// stream to its end: what comes out is a function of the bytes and the name.
#[verifier::external_body]
fn compound_stream(container: &[u8], name: &str) -> (r: Option<Vec<u8>>)
    ensures
        match r {
            Some(b) => ole_stream(container@, name@) == Some(b@),
            None => ole_stream(container@, name@) is None,
        },
{
    let mut file = cfb::CompoundFile::open(std::io::Cursor::new(container)).ok()?;
    let mut stream = file.open_stream(name).ok()?;
    let mut bytes = Vec::new();
    std::io::Read::read_to_end(&mut stream, &mut bytes).ok()?;
    Some(bytes)
}

/// Text stored one byte to a character.
pub(crate) fn cp1252(bytes: &[u8]) -> (s: String)
    requires
        decodable(bytes@.len()),
    ensures
        s@ == windows_1252_text(bytes@),
{
    windows_1252(bytes)
}

/// The text of whole code units: a trailing odd byte is dropped, since half a
/// code unit carries nothing.
pub open spec fn wide_text(bytes: Seq<u8>) -> Seq<char> {
    utf_16le_text(bytes.take(bytes.len() - bytes.len() % 2))
}

/// Text stored two bytes to a code unit.
pub(crate) fn utf16le(bytes: &[u8]) -> (s: String)
    requires
        decodable(bytes@.len()),
    ensures
        s@ == wide_text(bytes@),
{
    let even: usize = bytes.len() - (bytes.len() % 2);
    utf_16le(&bytes[0..even])
}

/// The text of a run in either width.
pub open spec fn run_text(bytes: Seq<u8>, wide: bool) -> Seq<char> {
    if wide {
        wide_text(bytes)
    } else {
        windows_1252_text(bytes)
    }
}

pub(crate) fn decode_run(bytes: &[u8], wide: bool) -> (s: String)
    requires
        decodable(bytes@.len()),
    ensures
        s@ == run_text(bytes@, wide),
{
    if wide {
        utf16le(bytes)
    } else {
        cp1252(bytes)
    }
}

/// Whether a field instruction is open after `raw`: 0x13 opens one, 0x14 ends
/// it and begins the field's result, 0x15 ends the field.
pub open spec fn in_instruction(raw: Seq<char>) -> bool
    decreases raw.len(),
{
    if raw.len() == 0 {
        false
    } else if raw.last() == '\u{13}' {
        true
    } else if raw.last() == '\u{14}' || raw.last() == '\u{15}' {
        false
    } else {
        in_instruction(raw.drop_last())
    }
}

/// What is kept of one character outside field instructions: paragraph marks,
/// cell marks and soft breaks become line breaks, tabs and line breaks stay,
/// the other control codes go.
pub open spec fn kept(c: char) -> Seq<char> {
    if c == '\u{13}' || c == '\u{14}' || c == '\u{15}' {
        seq![]
    } else if c == '\r' || c == '\u{07}' || c == '\u{0B}' {
        seq!['\n']
    } else if c == '\t' || c == '\n' {
        seq![c]
    } else if (c as u32) < 0x20 {
        seq![]
    } else {
        seq![c]
    }
}

/// The prose of a raw run: what is kept of every character that stands outside
/// a field instruction.
pub open spec fn cleaned(raw: Seq<char>) -> Seq<char>
    decreases raw.len(),
{
    if raw.len() == 0 {
        seq![]
    } else if in_instruction(raw.drop_last()) {
        cleaned(raw.drop_last())
    } else {
        cleaned(raw.drop_last()) + kept(raw.last())
    }
}

/// Append [`cleaned`] `raw` to `out`.
pub(crate) fn clean(raw: &str, out: &mut String)
    ensures
        final(out)@ == old(out)@ + cleaned(raw@),
{
    let v = crate::text::chars_of(raw);
    let ghost before = out@;
    let mut in_field: bool = false;
    let mut i: usize = 0;
    assert(before + cleaned(v@.take(0)) =~= before);
    while i < v.len()
        invariant
            i <= v@.len(),
            in_field == in_instruction(v@.take(i as int)),
            out@ == before + cleaned(v@.take(i as int)),
        decreases v@.len() - i,
    {
        let c = v[i];
        proof {
            let t = v@.take(i + 1);
            assert(t.drop_last() =~= v@.take(i as int));
            assert(t.last() == c);
        }
        if c == '\u{13}' {
            in_field = true;
        } else if c == '\u{14}' || c == '\u{15}' {
            in_field = false;
        } else if in_field {
        } else if c == '\r' || c == '\u{07}' || c == '\u{0B}' {
            out.push('\n');
        } else if c == '\t' || c == '\n' {
            out.push(c);
        } else if (c as u32) < 0x20 {
        } else {
            out.push(c);
        }
        i += 1;
        assert(out@ =~= before + cleaned(v@.take(i as int)));
    }
    assert(v@.take(v@.len() as int) =~= v@);
}

/// Whether a character may stand in prose: a tab, a line break, or no control
/// code below the space.
pub open spec fn prose(c: char) -> bool {
    c == '\t' || c == '\n' || c as u32 >= 0x20
}

/// A cleaned run is prose throughout, and no longer than the raw one.
pub proof fn a_cleaned_run_is_prose(raw: Seq<char>)
    ensures
        forall|i: int| 0 <= i < cleaned(raw).len() ==> prose(#[trigger] cleaned(raw)[i]),
        cleaned(raw).len() <= raw.len(),
    decreases raw.len(),
{
    if raw.len() > 0 {
        a_cleaned_run_is_prose(raw.drop_last());
    }
}

/// Prose opens no field and is kept whole.
proof fn lemma_prose_is_kept(s: Seq<char>)
    requires
        forall|i: int| 0 <= i < s.len() ==> prose(#[trigger] s[i]),
    ensures
        !in_instruction(s),
        cleaned(s) == s,
    decreases s.len(),
{
    if s.len() > 0 {
        let front = s.drop_last();
        assert forall|i: int| 0 <= i < front.len() implies prose(#[trigger] front[i]) by {
            assert(front[i] == s[i]);
        }
        lemma_prose_is_kept(front);
        assert(s.last() == s[s.len() - 1]);
        assert(front + seq![s.last()] =~= s);
    }
}

/// Cleaning what is clean changes nothing.
pub proof fn cleaning_twice_is_cleaning_once(raw: Seq<char>)
    ensures
        cleaned(cleaned(raw)) == cleaned(raw),
{
    a_cleaned_run_is_prose(raw);
    lemma_prose_is_kept(cleaned(raw));
}

/// What stands in an open instruction stays in it and adds nothing.
proof fn lemma_in_instruction(raw: Seq<char>, instruction: Seq<char>)
    requires
        in_instruction(raw),
        forall|i: int|
            0 <= i < instruction.len() ==> #[trigger] instruction[i] != '\u{14}' && instruction[i]
                != '\u{15}',
    ensures
        in_instruction(raw + instruction),
        cleaned(raw + instruction) == cleaned(raw),
    decreases instruction.len(),
{
    if instruction.len() == 0 {
        assert(raw + instruction =~= raw);
    } else {
        let front = instruction.drop_last();
        assert forall|i: int| 0 <= i < front.len() implies #[trigger] front[i] != '\u{14}'
            && front[i] != '\u{15}' by {
            assert(front[i] == instruction[i]);
        }
        lemma_in_instruction(raw, front);
        assert((raw + instruction).drop_last() =~= raw + front);
        assert((raw + instruction).last() == instruction[instruction.len() - 1]);
    }
}

/// A field's instruction adds nothing to the prose, whichever mark ends it, and
/// nothing is in a field any more after it.
pub proof fn an_instruction_adds_nothing(raw: Seq<char>, instruction: Seq<char>, end: char)
    requires
        forall|i: int|
            0 <= i < instruction.len() ==> #[trigger] instruction[i] != '\u{14}' && instruction[i]
                != '\u{15}',
        end == '\u{14}' || end == '\u{15}',
    ensures
        cleaned((raw.push('\u{13}') + instruction).push(end)) == cleaned(raw),
        !in_instruction((raw.push('\u{13}') + instruction).push(end)),
{
    let opened = raw.push('\u{13}');
    assert(opened.drop_last() =~= raw);
    assert(cleaned(raw) + kept('\u{13}') =~= cleaned(raw));
    lemma_in_instruction(opened, instruction);
    assert((opened + instruction).push(end).drop_last() =~= opened + instruction);
}

/// Outside a field, a run is cleaned piece by piece: what comes later does not
/// change what was kept.
pub proof fn a_run_is_cleaned_piece_by_piece(raw: Seq<char>, more: Seq<char>)
    requires
        !in_instruction(raw),
    ensures
        cleaned(raw + more) == cleaned(raw) + cleaned(more),
        in_instruction(raw + more) == in_instruction(more),
    decreases more.len(),
{
    if more.len() == 0 {
        assert(raw + more =~= raw);
        assert(cleaned(raw) + cleaned(more) =~= cleaned(raw));
    } else {
        a_run_is_cleaned_piece_by_piece(raw, more.drop_last());
        assert((raw + more).drop_last() =~= raw + more.drop_last());
        assert((raw + more).last() == more.last());
        assert(cleaned(raw + more) =~= cleaned(raw) + cleaned(more));
    }
}

/// Prose is kept as it is, character for character: tabs, line breaks and
/// everything from the space on.
pub proof fn prose_is_kept_whole(s: Seq<char>)
    requires
        forall|i: int|
            0 <= i < s.len() ==> (#[trigger] s[i]) == '\t' || s[i] == '\n' || s[i] as u32 >= 32,
    ensures
        cleaned(s) == s,
        !in_instruction(s),
{
    assert forall|i: int| 0 <= i < s.len() implies prose(#[trigger] s[i]) by {}
    lemma_prose_is_kept(s);
}

/// Outside a field, a paragraph mark, a cell mark and a soft break each break the
/// line, so that the words on their two sides stay apart; every other control
/// code but the tab and the line break goes, and leaves what is around it.
pub proof fn a_mark_breaks_the_line(raw: Seq<char>, more: Seq<char>, c: char)
    requires
        !in_instruction(raw),
        c as u32 != 0x13,
        c as u32 != 0x14,
        c as u32 != 0x15,
    ensures
        c as u32 == 0x0D || c as u32 == 0x07 || c as u32 == 0x0B ==> cleaned(raw.push(c) + more)
            == cleaned(raw) + seq!['\n'] + cleaned(more),
        (c as u32) < 32 && c as u32 != 0x0D && c as u32 != 0x07 && c as u32 != 0x0B && c as u32
            != 0x09 && c as u32 != 0x0A ==> cleaned(raw.push(c) + more) == cleaned(raw) + cleaned(
            more,
        ),
{
    let r = raw.push(c);
    assert(r.drop_last() =~= raw);
    assert(!in_instruction(r));
    a_run_is_cleaned_piece_by_piece(r, more);
    assert(cleaned(r) == cleaned(raw) + kept(c));
    if c as u32 == 0x0D || c as u32 == 0x07 || c as u32 == 0x0B {
        assert(c == '\r' || c == '\u{07}' || c == '\u{0B}');
        assert(cleaned(r) + cleaned(more) =~= cleaned(raw) + seq!['\n'] + cleaned(more));
    } else if (c as u32) < 32 && c as u32 != 0x09 && c as u32 != 0x0A {
        assert(c != '\t' && c != '\n');
        assert(kept(c) =~= seq![]);
        assert(cleaned(r) + cleaned(more) =~= cleaned(raw) + cleaned(more));
    }
}

/// A run of one byte to a character is read as windows-1252, one of two bytes as
/// UTF-16 with half a code unit at its end left out.
pub proof fn a_run_is_read_by_its_width(bytes: Seq<u8>, odd: u8)
    ensures
        run_text(bytes, false) == windows_1252_text(bytes),
        bytes.len() % 2 == 0 ==> run_text(bytes, true) == utf_16le_text(bytes) && run_text(
            bytes.push(odd),
            true,
        ) == utf_16le_text(bytes),
{
    if bytes.len() % 2 == 0 {
        assert(bytes.take(bytes.len() as int) =~= bytes);
        assert(bytes.push(odd).take(bytes.len() as int) =~= bytes);
    }
}

/// The stream `name`, where the compound file has it and it can be decoded.
pub open spec fn stream_of(container: Seq<u8>, name: Seq<char>) -> Option<Seq<u8>> {
    match ole_stream(container, name) {
        Some(b) => if decodable(b.len()) {
            Some(b)
        } else {
            None
        },
        None => None,
    }
}

/// Read one named stream whole. `None` when the stream is absent, which is a
/// question several callers ask before falling back to another name.
pub(crate) fn stream(container: &[u8], name: &str) -> (r: Option<Vec<u8>>)
    ensures
        match r {
            Some(b) => stream_of(container@, name@) == Some(b@) && decodable(b@.len()),
            None => stream_of(container@, name@) is None,
        },
{
    match compound_stream(container, name) {
        Some(b) => {
            let n: usize = b.len();
            if n as u128 * 4 + 16 <= usize::MAX as u128 {
                Some(b)
            } else {
                None
            }
        },
        None => None,
    }
}

/// The text of a legacy document, by the lower-case extension of its file.
/// `rendered` serves the number cells of a workbook; see [`xls`].
pub open spec fn ole_text(
    container: Seq<u8>,
    extension: Seq<char>,
    rendered: Seq<Seq<char>>,
) -> Result<Seq<char>, Seq<char>> {
    match ole_open_error(container) {
        Some(e) => Err("not a readable OLE2 compound file: "@ + e),
        None => if extension == "doc"@ {
            doc::document_text(container)
        } else if extension == "xls"@ {
            xls::workbook_text(container, rendered)
        } else if extension == "ppt"@ {
            ppt::presentation_text(container)
        } else {
            Err("no OLE2 parser for ."@ + extension)
        },
    }
}

/// The text of a legacy document whose bytes are in hand.
pub fn extract_ole_text(container: &[u8], extension: &str, rendered: &Vec<String>) -> (r: Result<
    String,
    String,
>)
    ensures
        text_view(r) == ole_text(container@, extension@, texts(rendered@)),
{
    match compound_error(container) {
        Some(e) => Err(joined("not a readable OLE2 compound file: ", e.as_str())),
        None => if same(extension, "doc") {
            doc::extract(container)
        } else if same(extension, "xls") {
            xls::extract(container, rendered)
        } else if same(extension, "ppt") {
            ppt::extract(container)
        } else {
            Err(joined("no OLE2 parser for .", extension))
        },
    }
}

/// A readable compound file is read by the parser of its extension, and what that
/// parser says is what comes out; without a parser, or where the file cannot be
/// opened, there is no text.
pub proof fn an_extension_picks_its_parser(container: Seq<u8>, rendered: Seq<Seq<char>>, extension: Seq<char>)
    ensures
        ole_open_error(container) is None ==> {
            &&& ole_text(container, "doc"@, rendered) == doc::document_text(container)
            &&& ole_text(container, "xls"@, rendered) == xls::workbook_text(container, rendered)
            &&& ole_text(container, "ppt"@, rendered) == ppt::presentation_text(container)
        },
        ole_open_error(container) is Some ==> ole_text(container, extension, rendered) is Err,
        extension != "doc"@ && extension != "xls"@ && extension != "ppt"@ ==> ole_text(
            container,
            extension,
            rendered,
        ) is Err,
{
    reveal_strlit("doc");
    reveal_strlit("xls");
    reveal_strlit("ppt");
    assert("doc"@[0] != "xls"@[0]);
    assert("doc"@[0] != "ppt"@[0]);
    assert("xls"@[0] != "ppt"@[0]);
}

} // verus!
