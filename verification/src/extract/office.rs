//! Office documents that are zip containers holding XML: DOCX, XLSX, PPTX,
//! ODT, ODP, ODS. Five share one walk over the XML ([`collect_xml_text`],
//! driven by a per-format [`TextSpec`]); XLSX keeps its own two because its
//! text is not in the sheet at all but in a shared-string table the cells
//! index into.
use crate::bytes::{le16, same_bytes, u16_at};
use crate::text::{
    ascii_lowercase, lower, byte_len, chars_of, control, ends_with, is_blank, is_control, is_prefix, is_suffix, joined,
    parse_chars, parse_unsigned, push_str, same, starts_with, text_view, texts, trim, trimmed, utf8_len,
    blank,
};
use super::ole::{extract_ole_text, ole_text};
use super::{
    naming, panicked_on, ExtractError, Extractor, FileView, Limits, Outside, Scratch, SourceFile,
};
use crate::parts::{extension, path_extension};
use quick_xml::events::{BytesStart, Event};
use quick_xml::Reader;
use vstd::prelude::*;
use vstd::utf8::encode_utf8;

verus! {

/// The extension of the format a MIME stands for.
pub open spec fn ext_of_mime(mime: Seq<char>) -> Option<Seq<char>> {
    if mime == "application/msword"@ {
        Some("doc"@)
    } else if mime
        == "application/vnd.openxmlformats-officedocument.wordprocessingml.document"@ {
        Some("docx"@)
    } else if mime == "application/vnd.ms-excel"@ {
        Some("xls"@)
    } else if mime == "application/vnd.openxmlformats-officedocument.spreadsheetml.sheet"@ {
        Some("xlsx"@)
    } else if mime == "application/vnd.ms-powerpoint"@ {
        Some("ppt"@)
    } else if mime
        == "application/vnd.openxmlformats-officedocument.presentationml.presentation"@ {
        Some("pptx"@)
    } else if mime == "application/vnd.oasis.opendocument.text"@ {
        Some("odt"@)
    } else if mime == "application/vnd.oasis.opendocument.spreadsheet"@ {
        Some("ods"@)
    } else if mime == "application/vnd.oasis.opendocument.presentation"@ {
        Some("odp"@)
    } else {
        None
    }
}

pub fn mime_to_ext(mime: &str) -> (r: Option<&'static str>)
    ensures
        match r {
            Some(e) => ext_of_mime(mime@) == Some(e@),
            None => ext_of_mime(mime@) is None,
        },
{
    if same(mime, "application/msword") {
        Some("doc")
    } else if same(
        mime,
        "application/vnd.openxmlformats-officedocument.wordprocessingml.document",
    ) {
        Some("docx")
    } else if same(mime, "application/vnd.ms-excel") {
        Some("xls")
    } else if same(mime, "application/vnd.openxmlformats-officedocument.spreadsheetml.sheet") {
        Some("xlsx")
    } else if same(mime, "application/vnd.ms-powerpoint") {
        Some("ppt")
    } else if same(
        mime,
        "application/vnd.openxmlformats-officedocument.presentationml.presentation",
    ) {
        Some("pptx")
    } else if same(mime, "application/vnd.oasis.opendocument.text") {
        Some("odt")
    } else if same(mime, "application/vnd.oasis.opendocument.spreadsheet") {
        Some("ods")
    } else if same(mime, "application/vnd.oasis.opendocument.presentation") {
        Some("odp")
    } else {
        None
    }
}

// XML, one event at a time

/// One event of an XML document, as the text walks read it.
#[derive(Debug)]
pub enum XmlEvent {
    /// A start tag: its name, and the tag itself, which holds its attributes.
    Start { name: Vec<u8>, tag: BytesStart<'static> },
    End(Vec<u8>),
    /// An element closed in its own tag, which gets no start and no end.
    Empty(Vec<u8>),
    /// Character data, or why it does not decode.
    Text(Result<String, String>),
    /// The name or number inside `&…;`, or why it does not decode.
    Reference(Result<String, String>),
    /// Comments, declarations and the like.
    Other,
    Eof,
    Malformed(String),
}

/// An [`XmlEvent`] by its contents.
pub enum XmlEventView {
    Start { name: Seq<u8>, attributes: Seq<Result<(Seq<u8>, Seq<u8>), Seq<char>>> },
    End(Seq<u8>),
    Empty(Seq<u8>),
    Text(Result<Seq<char>, Seq<char>>),
    Reference(Result<Seq<char>, Seq<char>>),
    Other,
    Eof,
    Malformed(Seq<char>),
}

pub open spec fn attribute_view(a: Result<(Vec<u8>, Vec<u8>), String>) -> Result<
    (Seq<u8>, Seq<u8>),
    Seq<char>,
> {
    match a {
        Ok((k, v)) => Ok((k@, v@)),
        Err(e) => Err(e@),
    }
}

pub open spec fn attributes_view(v: Seq<Result<(Vec<u8>, Vec<u8>), String>>) -> Seq<
    Result<(Seq<u8>, Seq<u8>), Seq<char>>,
> {
    v.map_values(|a: Result<(Vec<u8>, Vec<u8>), String>| attribute_view(a))
}

impl View for XmlEvent {
    type V = XmlEventView;

    open spec fn view(&self) -> XmlEventView {
        match *self {
            XmlEvent::Start { name, tag } => XmlEventView::Start {
                name: name@,
                attributes: tag_attributes(tag),
            },
            XmlEvent::End(n) => XmlEventView::End(n@),
            XmlEvent::Empty(n) => XmlEventView::Empty(n@),
            XmlEvent::Text(t) => XmlEventView::Text(text_view(t)),
            XmlEvent::Reference(t) => XmlEventView::Reference(text_view(t)),
            XmlEvent::Other => XmlEventView::Other,
            XmlEvent::Eof => XmlEventView::Eof,
            XmlEvent::Malformed(e) => XmlEventView::Malformed(e@),
        }
    }
}

/// A start tag of the outside crate.
#[verifier::external_type_specification]
#[verifier::external_body]
pub struct ExBytesStart<'a>(BytesStart<'a>);

/// The attributes a start tag holds, in order: the key and the value of each,
/// or what is wrong with it.
pub uninterp spec fn tag_attributes(tag: BytesStart<'static>) -> Seq<
    Result<(Seq<u8>, Seq<u8>), Seq<char>>,
>;

/// An XML reader of the outside crate.
#[verifier::external_type_specification]
#[verifier::external_body]
#[verifier::reject_recursive_types(R)]
pub struct ExReader<R>(Reader<R>);

/// The events of a document, up to and with its end or the first thing that is
/// wrong with it.
pub uninterp spec fn xml_events(xml: Seq<u8>) -> Seq<XmlEventView>;

/// The events a reader has not handed out yet.
pub uninterp spec fn unread(reader: Reader<&[u8]>) -> Seq<XmlEventView>;

pub open spec fn is_last(e: XmlEventView) -> bool {
    e is Eof || e is Malformed
}

/// `quick_xml::Reader::from_reader`: a reader over bytes in hand, at their
/// start. What it will hand out is a function of the bytes.
#[verifier::external_body]
fn open_xml<'a>(xml: &'a [u8]) -> (reader: Reader<&'a [u8]>)
    ensures
        unread(reader) == xml_events(xml@),
        unread(reader).len() > 0,
{
    Reader::from_reader(xml)
}

/// `quick_xml::Reader::read_event`: hands out the next event. After any event
/// but the end of the document or an error there is another one.
#[verifier::external_body]
fn next_event(reader: &mut Reader<&[u8]>) -> (e: XmlEvent)
    requires
        unread(*old(reader)).len() > 0,
    ensures
        e@ == unread(*old(reader))[0],
        unread(*final(reader)) == unread(*old(reader)).skip(1),
        !is_last(e@) ==> unread(*final(reader)).len() > 0,
{
    match reader.read_event() {
        Err(e) => XmlEvent::Malformed(e.to_string()),
        Ok(event) => match event {
            Event::Start(e) => XmlEvent::Start { name: e.name().0.into(), tag: e.into_owned() },
            Event::End(e) => XmlEvent::End(e.to_vec()),
            Event::Empty(e) => XmlEvent::Empty(e.name().0.into()),
            Event::Text(e) => XmlEvent::Text(e.decode().map(String::from).map_err(|e| e.to_string())),
            Event::GeneralRef(e) => XmlEvent::Reference(e.decode().map(String::from).map_err(|e| e.to_string())),
            Event::Eof => XmlEvent::Eof,
            _ => XmlEvent::Other,
        },
    }
}

/// `quick_xml::events::BytesStart::attributes` and
/// `quick_xml::events::attributes::Attributes::with_checks`: what the tag
/// holds, without the check for duplicate names. Each attribute is its key and
/// its value as they are written, or the message where it is malformed.
#[verifier::external_body]
fn read_attributes(tag: &BytesStart<'static>) -> (v: Vec<Result<(Vec<u8>, Vec<u8>), String>>)
    ensures
        attributes_view(v@) == tag_attributes(*tag),
{
    tag.attributes().with_checks(false).map(
        |a| a.map(|a| (a.key.0.to_vec(), a.value.to_vec())).map_err(|e| e.to_string())
    ).collect()
}

// The shared text walk

/// Which elements of a format's XML carry text, and where paragraphs end.
/// The two are matched independently: ODF's `text:p` is in both, `w:p` breaks
/// but holds nothing directly, `text:span` ends a run without ending the line.
#[derive(Debug, Clone, Copy, PartialEq, Eq, Structural)]
pub enum TextSpec {
    Docx,
    Pptx,
    /// ODT and ODP are the same prose as far as extraction is concerned.
    OdfText,
    OdfSheet,
}

/// The bytes of an element's name.
pub open spec fn tag(name: Seq<char>) -> Seq<u8> {
    encode_utf8(name)
}

fn is_tag(name: &Vec<u8>, s: &str) -> (r: bool)
    ensures
        r == (name@ == tag(s@)),
{
    same_bytes(name.as_slice(), s.as_bytes())
}

impl TextSpec {
    /// Whether an element carries text.
    pub open spec fn bears_text(self, name: Seq<u8>) -> bool {
        match self {
            TextSpec::Docx => name == tag("w:t"@),
            TextSpec::Pptx => name == tag("a:t"@),
            TextSpec::OdfText => name == tag("text:p"@) || name == tag("text:h"@) || name == tag(
                "text:span"@,
            ),
            TextSpec::OdfSheet => name == tag("text:p"@) || name == tag("text:span"@),
        }
    }

    /// Whether an element's end is a line break.
    pub open spec fn breaks_line(self, name: Seq<u8>) -> bool {
        match self {
            TextSpec::Docx => name == tag("w:p"@),
            TextSpec::Pptx => name == tag("a:p"@),
            TextSpec::OdfText => name == tag("text:p"@) || name == tag("text:h"@),
            TextSpec::OdfSheet => name == tag("text:p"@),
        }
    }

    /// What follows each run of text; spreadsheets separate cells with it.
    pub open spec fn separator(self) -> Seq<char> {
        match self {
            TextSpec::OdfSheet => seq![' '],
            _ => seq![],
        }
    }

    fn text(self, name: &Vec<u8>) -> (r: bool)
        ensures
            r == self.bears_text(name@),
    {
        match self {
            TextSpec::Docx => is_tag(name, "w:t"),
            TextSpec::Pptx => is_tag(name, "a:t"),
            TextSpec::OdfText => is_tag(name, "text:p") || is_tag(name, "text:h") || is_tag(
                name,
                "text:span",
            ),
            TextSpec::OdfSheet => is_tag(name, "text:p") || is_tag(name, "text:span"),
        }
    }

    fn breaks(self, name: &Vec<u8>) -> (r: bool)
        ensures
            r == self.breaks_line(name@),
    {
        match self {
            TextSpec::Docx => is_tag(name, "w:p"),
            TextSpec::Pptx => is_tag(name, "a:p"),
            TextSpec::OdfText => is_tag(name, "text:p") || is_tag(name, "text:h"),
            TextSpec::OdfSheet => is_tag(name, "text:p"),
        }
    }

    fn push_separator(self, out: &mut String)
        ensures
            final(out)@ == old(out)@ + self.separator(),
    {
        if self == TextSpec::OdfSheet {
            out.push(' ');
            assert(out@ =~= old(out)@ + self.separator());
        } else {
            assert(out@ =~= old(out)@ + self.separator());
        }
    }
}

/// The five entities that need no document type to resolve.
pub open spec fn predefined_entity(name: Seq<char>) -> Option<Seq<char>> {
    if name == "lt"@ {
        Some("<"@)
    } else if name == "gt"@ {
        Some(">"@)
    } else if name == "amp"@ {
        Some("&"@)
    } else if name == "apos"@ {
        Some("'"@)
    } else if name == "quot"@ {
        Some("\""@)
    } else {
        None
    }
}

/// The number of a character reference, after its `#`: hexadecimal after an
/// `x`, decimal otherwise.
pub open spec fn reference_code(digits: Seq<char>) -> Option<int> {
    if digits.len() > 0 && (digits[0] == 'x' || digits[0] == 'X') {
        parse_unsigned(digits.skip(1), 16, u32::MAX as int)
    } else {
        parse_unsigned(digits, 10, u32::MAX as int)
    }
}

/// What an `&entity;` or `&#1234;` stands for. A number must name a character,
/// and of the control characters only tab and the line breaks pass.
pub open spec fn entity_text(raw: Seq<char>) -> Option<Seq<char>> {
    if raw.len() > 0 && raw[0] == '#' {
        match reference_code(raw.skip(1)) {
            None => None,
            Some(code) => {
                let c = code as u32 as char;
                if !vstd::utf8::is_scalar(code as u32) {
                    None
                } else if is_control(c) && c != '\t' && c != '\n' && c != '\r' {
                    None
                } else {
                    Some(seq![c])
                }
            },
        }
    } else {
        predefined_entity(raw)
    }
}

/// Append what a reference stands for, and say whether it resolved.
pub fn push_entity_text(raw: &str, out: &mut String) -> (ok: bool)
    ensures
        match entity_text(raw@) {
            Some(t) => ok && final(out)@ == old(out)@ + t,
            None => !ok && final(out)@ == old(out)@,
        },
{
    let v = chars_of(raw);
    if v.len() > 0 && v[0] == '#' {
        let code: Option<u64> = if v.len() > 1 && (v[1] == 'x' || v[1] == 'X') {
            assert(raw@.skip(1).skip(1) =~= v@.skip(2));
            parse_chars(&v, 2, 16, u32::MAX as u64)
        } else {
            parse_chars(&v, 1, 10, u32::MAX as u64)
        };
        match code {
            None => false,
            Some(n) => match char::from_u32(n as u32) {
                None => false,
                Some(c) => {
                    proof {
                        vstd::utf8::char_u32_cast(c, n as u32);
                    }
                    if control(c) && c != '\t' && c != '\n' && c != '\r' {
                        return false;
                    }
                    out.push(c);
                    assert(out@ =~= old(out)@ + seq![c]);
                    true
                },
            },
        }
    } else {
        let text = if same(raw, "lt") {
            "<"
        } else if same(raw, "gt") {
            ">"
        } else if same(raw, "amp") {
            "&"
        } else if same(raw, "apos") {
            "'"
        } else if same(raw, "quot") {
            "\""
        } else {
            return false;
        };
        push_str(out, text);
        true
    }
}

/// What a walk leaves behind: the text, and what went wrong if anything did.
pub type Walked = (Seq<char>, Option<Seq<char>>);

/// The message for a reference that does not resolve. Dropping it instead
/// would take characters out of the indexed text silently.
pub open spec fn unknown_entity(raw: Seq<char>) -> Seq<char> {
    "Error parsing XML: unknown entity &"@ + raw + ";"@
}

/// One level deeper, as far as a count goes.
pub open spec fn deeper(depth: int) -> int {
    if depth < usize::MAX {
        depth + 1
    } else {
        depth
    }
}

pub open spec fn shallower(depth: int) -> int {
    if depth > 0 {
        depth - 1
    } else {
        0
    }
}

/// What the closing of an element adds: the separator where it closes the
/// outermost run, the line break where it ends a paragraph.
pub open spec fn after_close(spec: TextSpec, name: Seq<u8>, closes_run: bool, out: Seq<char>) -> Seq<
    char,
> {
    let out = if closes_run {
        out + spec.separator()
    } else {
        out
    };
    if spec.breaks_line(name) {
        out.push('\n')
    } else {
        out
    }
}

/// The text that `spec` selects out of `events`, after `out`, with `depth`
/// text-bearing elements open. It stops where the text has reached `limit`.
pub open spec fn xml_text(
    events: Seq<XmlEventView>,
    spec: TextSpec,
    depth: int,
    out: Seq<char>,
    limit: int,
) -> Walked
    decreases events.len(),
{
    if utf8_len(out) >= limit || events.len() == 0 {
        (out, None)
    } else {
        let rest = events.skip(1);
        match events[0] {
            XmlEventView::Start { name, .. } => xml_text(
                rest,
                spec,
                if spec.bears_text(name) {
                    deeper(depth)
                } else {
                    depth
                },
                out,
                limit,
            ),
            XmlEventView::Text(text) => if depth == 0 {
                xml_text(rest, spec, depth, out, limit)
            } else {
                match text {
                    Ok(t) => xml_text(rest, spec, depth, out + t, limit),
                    Err(e) => (out, Some(e)),
                }
            },
            XmlEventView::Reference(raw) => if depth == 0 {
                xml_text(rest, spec, depth, out, limit)
            } else {
                match raw {
                    Err(e) => (out, Some(e)),
                    Ok(r) => match entity_text(r) {
                        Some(t) => xml_text(rest, spec, depth, out + t, limit),
                        None => (out, Some(unknown_entity(r))),
                    },
                }
            },
            XmlEventView::End(name) => if spec.bears_text(name) {
                xml_text(
                    rest,
                    spec,
                    shallower(depth),
                    after_close(spec, name, shallower(depth) == 0, out),
                    limit,
                )
            } else {
                xml_text(rest, spec, depth, after_close(spec, name, false, out), limit)
            },
            XmlEventView::Empty(name) => xml_text(
                rest,
                spec,
                depth,
                after_close(spec, name, depth == 0 && spec.bears_text(name), out),
                limit,
            ),
            XmlEventView::Other => xml_text(rest, spec, depth, out, limit),
            XmlEventView::Eof => (out, None),
            XmlEventView::Malformed(e) => (out, Some("Error parsing XML: "@ + e)),
        }
    }
}

/// Whether a result and a text are what a walk leaves behind.
pub open spec fn leaves(r: Result<(), String>, out: Seq<char>, w: Walked) -> bool {
    &&& out == w.0
    &&& match r {
        Ok(()) => w.1 is None,
        Err(e) => w.1 == Some(e@),
    }
}

fn unknown_entity_error(raw: &str) -> (e: String)
    ensures
        e@ == unknown_entity(raw@),
{
    let head = joined("Error parsing XML: unknown entity &", raw);
    joined(head.as_str(), ";")
}

/// Append the text `spec` selects out of `xml` to `out`. Text-bearing elements
/// are counted, not flagged: ODF nests them, and the run ends with the
/// outermost.
pub fn collect_xml_text(xml: &[u8], spec: TextSpec, out: &mut String, limit: usize) -> (r: Result<
    (),
    String,
>)
    ensures
        leaves(r, final(out)@, xml_text(xml_events(xml@), spec, 0, old(out)@, limit as int)),
{
    let mut reader = open_xml(xml);
    let ghost goal = xml_text(xml_events(xml@), spec, 0, out@, limit as int);
    let mut depth: usize = 0;
    loop
        invariant
            unread(reader).len() > 0,
            xml_text(unread(reader), spec, depth as int, out@, limit as int) == goal,
            goal == xml_text(xml_events(xml@), spec, 0, old(out)@, limit as int),
        decreases unread(reader).len(),
    {
        if byte_len(out.as_str()) >= limit {
            return Ok(());
        }
        match next_event(&mut reader) {
            XmlEvent::Start { name, .. } => {
                if spec.text(&name) && depth < usize::MAX {
                    depth += 1;
                }
            },
            XmlEvent::Text(text) => {
                if depth > 0 {
                    match text {
                        Ok(t) => push_str(out, t.as_str()),
                        Err(e) => return Err(e),
                    }
                }
            },
            XmlEvent::Reference(raw) => {
                if depth > 0 {
                    match raw {
                        Ok(r) => {
                            if !push_entity_text(r.as_str(), out) {
                                return Err(unknown_entity_error(r.as_str()));
                            }
                        },
                        Err(e) => return Err(e),
                    }
                }
            },
            XmlEvent::End(name) => {
                if spec.text(&name) {
                    if depth > 0 {
                        depth -= 1;
                    }
                    if depth == 0 {
                        spec.push_separator(out);
                    }
                }
                if spec.breaks(&name) {
                    out.push('\n');
                }
            },
            XmlEvent::Empty(name) => {
                if depth == 0 && spec.text(&name) {
                    spec.push_separator(out);
                }
                if spec.breaks(&name) {
                    out.push('\n');
                }
            },
            XmlEvent::Other => {},
            XmlEvent::Eof => return Ok(()),
            XmlEvent::Malformed(e) => return Err(joined("Error parsing XML: ", e.as_str())),
        }
    }
}

// XLSX: shared strings plus cells

/// The shared-string table of a document, in index order: one entry for every
/// `<t>`, a blank one included, or every later index would be off by one. A
/// reference that does not resolve is left out; text that does not decode ends
/// the table.
pub open spec fn table_of(
    events: Seq<XmlEventView>,
    in_text: bool,
    current: Seq<char>,
    strings: Seq<Seq<char>>,
) -> Seq<Seq<char>>
    decreases events.len(),
{
    if events.len() == 0 {
        strings
    } else {
        let rest = events.skip(1);
        match events[0] {
            XmlEventView::Start { name, .. } => if name == tag("t"@) {
                table_of(rest, true, seq![], strings)
            } else {
                table_of(rest, in_text, current, strings)
            },
            XmlEventView::Empty(name) => if name == tag("t"@) {
                table_of(rest, in_text, current, strings.push(seq![]))
            } else {
                table_of(rest, in_text, current, strings)
            },
            XmlEventView::Text(text) => if !in_text {
                table_of(rest, in_text, current, strings)
            } else {
                match text {
                    Ok(t) => table_of(rest, in_text, current + t, strings),
                    Err(_) => strings,
                }
            },
            XmlEventView::Reference(raw) => if !in_text {
                table_of(rest, in_text, current, strings)
            } else {
                match raw {
                    Ok(r) => match entity_text(r) {
                        Some(t) => table_of(rest, in_text, current + t, strings),
                        None => table_of(rest, in_text, current, strings),
                    },
                    Err(_) => table_of(rest, in_text, current, strings),
                }
            },
            XmlEventView::End(name) => if name == tag("t"@) {
                table_of(rest, false, seq![], strings.push(current))
            } else {
                table_of(rest, in_text, current, strings)
            },
            XmlEventView::Other => table_of(rest, in_text, current, strings),
            XmlEventView::Eof => strings,
            XmlEventView::Malformed(_) => strings,
        }
    }
}

/// The shared-string table of `xml`. It is read whole, since a cell holds an
/// index into it.
pub fn shared_strings(xml: &[u8]) -> (strings: Vec<String>)
    ensures
        texts(strings@) == table_of(xml_events(xml@), false, seq![], seq![]),
{
    let mut strings: Vec<String> = Vec::new();
    let mut reader = open_xml(xml);
    let mut in_text: bool = false;
    let mut current = String::new();
    assert(texts(strings@) =~= seq![]);
    loop
        invariant
            unread(reader).len() > 0,
            table_of(unread(reader), in_text, current@, texts(strings@)) == table_of(
                xml_events(xml@),
                false,
                seq![],
                seq![],
            ),
        decreases unread(reader).len(),
    {
        let ghost before = strings@;
        match next_event(&mut reader) {
            XmlEvent::Start { name, .. } => {
                if is_tag(&name, "t") {
                    in_text = true;
                    current = String::new();
                }
            },
            XmlEvent::Empty(name) => {
                if is_tag(&name, "t") {
                    let blank_entry = String::new();
                    strings.push(blank_entry);
                    assert(texts(strings@) =~= texts(before).push(blank_entry@));
                }
            },
            XmlEvent::Text(text) => {
                if in_text {
                    match text {
                        Ok(t) => push_str(&mut current, t.as_str()),
                        Err(_) => return strings,
                    }
                }
            },
            XmlEvent::Reference(raw) => {
                if in_text {
                    if let Ok(r) = raw {
                        let _ = push_entity_text(r.as_str(), &mut current);
                    }
                }
            },
            XmlEvent::End(name) => {
                if is_tag(&name, "t") {
                    in_text = false;
                    strings.push(current);
                    assert(texts(strings@) =~= texts(before).push(current@));
                    current = String::new();
                }
            },
            XmlEvent::Other => {},
            XmlEvent::Eof => return strings,
            XmlEvent::Malformed(_) => return strings,
        }
    }
}

/// The attributes of a `<c>` up to its type: whether the cell holds a
/// shared-string index, or what is wrong with an attribute before that.
pub open spec fn shared_cell(attributes: Seq<Result<(Seq<u8>, Seq<u8>), Seq<char>>>) -> Result<
    bool,
    Seq<char>,
>
    decreases attributes.len(),
{
    if attributes.len() == 0 {
        Ok(false)
    } else {
        match attributes[0] {
            Err(e) => Err(e),
            Ok((key, value)) => if key == tag("t"@) {
                Ok(value == tag("s"@))
            } else {
                shared_cell(attributes.skip(1))
            },
        }
    }
}

/// What a cell's character data adds: the string it indexes, or the value
/// itself where it is more than the layout between a cell's children.
pub open spec fn cell_text(text: Seq<char>, shared: bool, strings: Seq<Seq<char>>) -> Seq<char> {
    if shared {
        match parse_unsigned(trim(text), 10, usize::MAX as int) {
            Some(i) => if i < strings.len() {
                strings[i].push(' ')
            } else {
                seq![]
            },
            None => seq![],
        }
    } else if blank(text) {
        seq![]
    } else {
        text.push(' ')
    }
}

/// The cells of a worksheet, after `out`, stopping where the text has reached
/// `limit`.
pub open spec fn sheet_text(
    events: Seq<XmlEventView>,
    strings: Seq<Seq<char>>,
    in_cell: bool,
    shared: bool,
    out: Seq<char>,
    limit: int,
) -> Walked
    decreases events.len(),
{
    if utf8_len(out) >= limit || events.len() == 0 {
        (out, None)
    } else {
        let rest = events.skip(1);
        match events[0] {
            XmlEventView::Start { name, attributes } => if name == tag("c"@) {
                match shared_cell(attributes) {
                    Ok(s) => sheet_text(rest, strings, true, s, out, limit),
                    Err(e) => (out, Some(e)),
                }
            } else {
                sheet_text(rest, strings, in_cell, shared, out, limit)
            },
            XmlEventView::Text(text) => if !in_cell {
                sheet_text(rest, strings, in_cell, shared, out, limit)
            } else {
                match text {
                    Ok(t) => sheet_text(
                        rest,
                        strings,
                        in_cell,
                        shared,
                        out + cell_text(t, shared, strings),
                        limit,
                    ),
                    Err(e) => (out, Some(e)),
                }
            },
            XmlEventView::Reference(raw) => if !in_cell || shared {
                sheet_text(rest, strings, in_cell, shared, out, limit)
            } else {
                match raw {
                    Err(e) => (out, Some(e)),
                    Ok(r) => match entity_text(r) {
                        Some(t) => sheet_text(rest, strings, in_cell, shared, out + t, limit),
                        None => (out, Some(unknown_entity(r))),
                    },
                }
            },
            XmlEventView::End(name) => if name == tag("c"@) {
                sheet_text(rest, strings, false, shared, out, limit)
            } else if name == tag("row"@) {
                sheet_text(rest, strings, in_cell, shared, out.push('\n'), limit)
            } else {
                sheet_text(rest, strings, in_cell, shared, out, limit)
            },
            XmlEventView::Empty(_) => sheet_text(rest, strings, in_cell, shared, out, limit),
            XmlEventView::Other => sheet_text(rest, strings, in_cell, shared, out, limit),
            XmlEventView::Eof => (out, None),
            XmlEventView::Malformed(e) => (out, Some("Error parsing XML: "@ + e)),
        }
    }
}

fn is_shared_cell(attributes: &Vec<Result<(Vec<u8>, Vec<u8>), String>>) -> (r: Result<bool, String>)
    ensures
        crate::text::err_view(r) == shared_cell(attributes_view(attributes@)),
{
    let ghost all = attributes_view(attributes@);
    let mut i: usize = 0;
    assert(all.skip(0) =~= all);
    while i < attributes.len()
        invariant
            i <= attributes@.len(),
            all == attributes_view(attributes@),
            shared_cell(all) == shared_cell(all.skip(i as int)),
        decreases attributes@.len() - i,
    {
        proof {
            assert(all.skip(i as int)[0] == attribute_view(attributes@[i as int]));
            assert(all.skip(i as int).skip(1) =~= all.skip(i + 1));
        }
        match &attributes[i] {
            Err(e) => return Err(e.clone()),
            Ok(kv) => {
                if is_tag(&kv.0, "t") {
                    return Ok(is_tag(&kv.1, "s"));
                }
            },
        }
        i += 1;
    }
    Ok(false)
}

fn push_cell_text(text: &str, shared: bool, strings: &Vec<String>, out: &mut String)
    ensures
        final(out)@ == old(out)@ + cell_text(text@, shared, texts(strings@)),
{
    let ghost before = out@;
    if shared {
        let v = trimmed(&chars_of(text));
        assert(v@.skip(0) =~= v@);
        match parse_chars(&v, 0, 10, usize::MAX as u64) {
            Some(i) => {
                let at: usize = i as usize;
                if at < strings.len() {
                    push_str(out, strings[at].as_str());
                    out.push(' ');
                    assert(texts(strings@)[at as int] == strings@[at as int]@);
                    assert(out@ =~= before + cell_text(text@, shared, texts(strings@)));
                } else {
                    assert(out@ =~= before + cell_text(text@, shared, texts(strings@)));
                }
            },
            None => {
                assert(out@ =~= before + cell_text(text@, shared, texts(strings@)));
            },
        }
    } else if is_blank(text) {
        assert(out@ =~= before + cell_text(text@, shared, texts(strings@)));
    } else {
        push_str(out, text);
        out.push(' ');
        assert(out@ =~= before + cell_text(text@, shared, texts(strings@)));
    }
}

/// One worksheet's cells. A `t="s"` cell holds an index into `strings` rather
/// than text of its own; every other type holds its value inline.
pub fn collect_sheet(xml: &[u8], strings: &Vec<String>, out: &mut String, limit: usize) -> (r:
    Result<(), String>)
    ensures
        leaves(
            r,
            final(out)@,
            sheet_text(
                xml_events(xml@),
                texts(strings@),
                false,
                false,
                old(out)@,
                limit as int,
            ),
        ),
{
    let mut reader = open_xml(xml);
    let ghost table = texts(strings@);
    let ghost goal = sheet_text(xml_events(xml@), table, false, false, out@, limit as int);
    let mut in_cell: bool = false;
    let mut shared: bool = false;
    loop
        invariant
            unread(reader).len() > 0,
            table == texts(strings@),
            sheet_text(unread(reader), table, in_cell, shared, out@, limit as int) == goal,
            goal == sheet_text(
                xml_events(xml@),
                texts(strings@),
                false,
                false,
                old(out)@,
                limit as int,
            ),
        decreases unread(reader).len(),
    {
        if byte_len(out.as_str()) >= limit {
            return Ok(());
        }
        match next_event(&mut reader) {
            XmlEvent::Start { name, tag } => {
                if is_tag(&name, "c") {
                    match is_shared_cell(&read_attributes(&tag)) {
                        Ok(s) => {
                            in_cell = true;
                            shared = s;
                        },
                        Err(e) => return Err(e),
                    }
                }
            },
            XmlEvent::Text(text) => {
                if in_cell {
                    match text {
                        Ok(t) => push_cell_text(t.as_str(), shared, strings, out),
                        Err(e) => return Err(e),
                    }
                }
            },
            XmlEvent::Reference(raw) => {
                if in_cell && !shared {
                    match raw {
                        Ok(r) => {
                            if !push_entity_text(r.as_str(), out) {
                                return Err(unknown_entity_error(r.as_str()));
                            }
                        },
                        Err(e) => return Err(e),
                    }
                }
            },
            XmlEvent::End(name) => {
                if is_tag(&name, "c") {
                    in_cell = false;
                } else if is_tag(&name, "row") {
                    out.push('\n');
                }
            },
            XmlEvent::Empty(_) => {},
            XmlEvent::Other => {},
            XmlEvent::Eof => return Ok(()),
            XmlEvent::Malformed(e) => return Err(joined("Error parsing XML: ", e.as_str())),
        }
    }
}

// Container access

/// Why a document's text could not be had.
#[derive(Debug)]
pub enum DocumentError {
    Failed(String),
    /// The archive's reader would panic on a member, so it was not asked.
    Panicked,
}

/// A [`DocumentError`] by its contents.
pub enum Fault {
    Failed(Seq<char>),
    Panicked,
}

impl View for DocumentError {
    type V = Fault;

    open spec fn view(&self) -> Fault {
        match *self {
            DocumentError::Failed(e) => Fault::Failed(e@),
            DocumentError::Panicked => Fault::Panicked,
        }
    }
}

/// What the extraction of a document leaves behind: the text, and what went
/// wrong if anything did.
pub type Extracted = (Seq<char>, Option<Fault>);

/// A walk as part of an extraction.
pub open spec fn as_extracted(w: Walked) -> Extracted {
    match w.1 {
        Some(e) => (w.0, Some(Fault::Failed(e))),
        None => (w.0, None),
    }
}

/// Whether a result and a text are what an extraction leaves behind.
pub open spec fn ends(r: Result<(), DocumentError>, out: Seq<char>, w: Extracted) -> bool {
    &&& out == w.0
    &&& match r {
        Ok(()) => w.1 is None,
        Err(e) => w.1 == Some(e@),
    }
}

/// A failed walk as an error of the document.
fn failed(r: Result<(), String>) -> (x: Result<(), DocumentError>)
    ensures
        match (r, x) {
            (Ok(()), Ok(())) => true,
            (Err(a), Err(b)) => b@ == Fault::Failed(a@),
            _ => false,
        },
{
    match r {
        Ok(()) => Ok(()),
        Err(e) => Err(DocumentError::Failed(e)),
    }
}

/// How many members a zip archive has, or why the bytes are none.
pub uninterp spec fn zip_count(archive: Seq<u8>) -> Result<nat, Seq<char>>;

/// The name of a member by its place in the archive, or why it cannot be had.
pub uninterp spec fn zip_name(archive: Seq<u8>, index: nat) -> Result<Seq<char>, Seq<char>>;

/// At most `limit` bytes of what a member inflates to, or why it cannot be
/// read.
pub uninterp spec fn zip_member(archive: Seq<u8>, name: Seq<char>, limit: nat) -> Result<
    Seq<u8>,
    Seq<char>,
>;

/// `zip::ZipArchive::new` and `zip::ZipArchive::len`: whether the bytes are an
/// archive, and how many members it has, are a function of the bytes.
#[verifier::external_body]
fn archive_count(archive: &[u8]) -> (r: Result<usize, String>)
    ensures
        match r {
            Ok(n) => zip_count(archive@) == Ok::<nat, Seq<char>>(n as nat),
            Err(e) => zip_count(archive@) == Err::<nat, _>(e@),
        },
{
    let opened = zip::ZipArchive::new(std::io::Cursor::new(archive));
    opened.map(|zip| zip.len()).map_err(|e| e.to_string())
}

/// The name of a member by its place in the archive and where its header is in
/// the central directory; nothing where its local header cannot be read.
pub uninterp spec fn zip_entry(archive: Seq<u8>, index: nat) -> Option<(Seq<char>, nat)>;

/// Whether a member asks for another password than the empty one.
pub uninterp spec fn zip_locked(archive: Seq<u8>, index: nat) -> bool;

/// Whether an encryption field stands at `i`: its kind, its length, a version
/// and the vendor.
pub open spec fn encryption_field(b: Seq<u8>, i: int) -> bool {
    &&& le16(b, i) == Some(0x9901u16)
    &&& le16(b, i + 2) == Some(7u16)
    &&& le16(b, i + 6) == Some(0x4541u16)
}

/// Whether an archive holds an encryption field anywhere.
pub open spec fn declares_encryption(b: Seq<u8>) -> bool {
    exists|i: int| #[trigger] encryption_field(b, i)
}

fn holds_encryption_field(b: &[u8]) -> (r: bool)
    ensures
        r == declares_encryption(b@),
{
    let n: usize = b.len();
    if n < 8 {
        return false;
    }
    let mut i: usize = 0;
    while i <= n - 8
        invariant
            n == b@.len(),
            n >= 8,
            i <= n - 7,
            forall|k: int| 0 <= k < i ==> !(#[trigger] encryption_field(b@, k)),
        decreases n - i,
    {
        // The first byte rules out nearly every place.
        if b[i] == 0x01 && u16_at(b, i) == Some(0x9901u16) && u16_at(b, i + 2) == Some(7u16)
            && u16_at(b, i + 6) == Some(0x4541u16) {
            assert(encryption_field(b@, i as int));
            return true;
        }
        assert(!encryption_field(b@, i as int));
        i += 1;
    }
    false
}

/// Whether the flags of the central header at `at` say that its member is
/// encrypted.
pub open spec fn flagged(archive: Seq<u8>, at: int) -> bool {
    match le16(archive, at + 8) {
        Some(flags) => flags % 2 == 1,
        None => false,
    }
}

/// Whether the reader panics on opening a member by its place: it has an
/// encryption field, and its flags deny it.
pub open spec fn traps(archive: Seq<u8>, index: nat) -> bool {
    &&& declares_encryption(archive)
    &&& zip_locked(archive, index)
    &&& match zip_entry(archive, index) {
        Some((_, at)) => !flagged(archive, at as int),
        None => false,
    }
}

/// The last of the first `n` members that has this name.
pub open spec fn last_named(archive: Seq<u8>, name: Seq<char>, n: nat) -> Option<nat>
    decreases n,
{
    if n == 0 {
        None
    } else {
        match zip_entry(archive, (n - 1) as nat) {
            Some((x, _)) if x == name => Some((n - 1) as nat),
            _ => last_named(archive, name, (n - 1) as nat),
        }
    }
}

/// Whether the reader panics on opening a member by its name. A name stands
/// for the last member that has it.
pub open spec fn traps_by_name(archive: Seq<u8>, name: Seq<char>) -> bool {
    &&& declares_encryption(archive)
    &&& match zip_count(archive) {
        Ok(n) => match last_named(archive, name, n) {
            Some(i) => traps(archive, i),
            None => false,
        },
        Err(_) => false,
    }
}

/// `zip::ZipArchive::by_index_raw`, `zip::read::ZipFile::name` and
/// `zip::read::ZipFile::central_header_start`: both are a function of the
/// archive and the place. It asks for no password, so it does not panic.
#[verifier::external_body]
fn archive_entry(archive: &[u8], index: usize) -> (r: Option<(String, u64)>)
    ensures
        match r {
            Some((name, at)) => zip_entry(archive@, index as nat) == Some((name@, at as nat)),
            None => zip_entry(archive@, index as nat) is None,
        },
{
    let mut zip = zip::ZipArchive::new(std::io::Cursor::new(archive)).ok()?;
    let member = zip.by_index_raw(index).ok()?;
    Some((member.name().to_string(), member.central_header_start()))
}

/// `zip::ZipArchive::by_index_decrypt` with the empty password: whether it
/// answers that the password is invalid is a function of the archive and the
/// place. It hands that answer out and does not panic.
#[verifier::external_body]
fn archive_locked(archive: &[u8], index: usize) -> (r: bool)
    ensures
        r == zip_locked(archive@, index as nat),
{
    match zip::ZipArchive::new(std::io::Cursor::new(archive)) {
        Ok(mut zip) => {
            let answer = zip.by_index_decrypt(index, &[]);
            matches!(answer, Ok(Err(_)))
        },
        Err(_) => false,
    }
}

/// `zip::ZipArchive::by_index` and `zip::read::ZipFile::name`: the name of the
/// member in that place, in archive order. It panics exactly on a member with
/// an encryption field whose flags do not say that it is encrypted.
#[verifier::external_body]
fn archive_name(archive: &[u8], index: usize) -> (r: Result<String, String>)
    requires
        !traps(archive@, index as nat),
    ensures
        text_view(r) == zip_name(archive@, index as nat),
{
    let mut zip = zip::ZipArchive::new(std::io::Cursor::new(archive)).map_err(|e| e.to_string())?;
    let member = zip.by_index(index).map_err(|e| e.to_string())?;
    Ok(member.name().to_string())
}

/// `zip::ZipArchive::by_name` and a read of the member that stops at `limit`:
/// an archive declares its sizes, but the stream is what gets read, so the
/// limit is the only bound on it. It panics on the members that
/// [`archive_name`] panics on.
#[verifier::external_body]
fn archive_member(archive: &[u8], name: &str, limit: usize) -> (r: Result<Vec<u8>, String>)
    requires
        !traps_by_name(archive@, name@),
    ensures
        match r {
            Ok(b) => zip_member(archive@, name@, limit as nat) == Ok::<Seq<u8>, Seq<char>>(b@)
                && b@.len() <= limit,
            Err(e) => zip_member(archive@, name@, limit as nat) == Err::<Seq<u8>, _>(e@),
        },
{
    let mut zip = zip::ZipArchive::new(std::io::Cursor::new(archive)).map_err(|e| e.to_string())?;
    let member = zip.by_name(name).map_err(|e| e.to_string())?;
    let mut bytes = Vec::new();
    let mut capped = std::io::Read::take(member, limit as u64);
    std::io::Read::read_to_end(&mut capped, &mut bytes).map_err(|e| e.to_string())?;
    Ok(bytes)
}

/// Whether a member of an archive that declares encryption traps.
fn is_trap(archive: &[u8], index: usize) -> (r: bool)
    requires
        declares_encryption(archive@),
    ensures
        r == traps(archive@, index as nat),
{
    if !archive_locked(archive, index) {
        return false;
    }
    match archive_entry(archive, index) {
        None => false,
        Some((_, at)) => {
            let n: usize = archive.len();
            if at > n as u64 || n < 8 || at as usize > n - 8 {
                return true;
            }
            match u16_at(archive, at as usize + 8) {
                Some(flags) => flags % 2 != 1,
                None => true,
            }
        },
    }
}

fn is_trap_by_name(archive: &[u8], name: &str) -> (r: bool)
    ensures
        r == traps_by_name(archive@, name@),
{
    if !holds_encryption_field(archive) {
        return false;
    }
    let count: usize = match archive_count(archive) {
        Ok(n) => n,
        Err(_) => return false,
    };
    let mut i: usize = count;
    while i > 0
        invariant
            i <= count,
            zip_count(archive@) == Ok::<nat, Seq<char>>(count as nat),
            declares_encryption(archive@),
            last_named(archive@, name@, i as nat) == last_named(archive@, name@, count as nat),
        decreases i,
    {
        match archive_entry(archive, i - 1) {
            Some((x, _)) => {
                if same(x.as_str(), name) {
                    return is_trap(archive, i - 1);
                }
            },
            None => {},
        }
        i -= 1;
    }
    false
}

/// The name of a member by its place.
pub open spec fn member_name(archive: Seq<u8>, index: nat) -> Result<Seq<char>, Fault> {
    if traps(archive, index) {
        Err(Fault::Panicked)
    } else {
        match zip_name(archive, index) {
            Ok(name) => Ok(name),
            Err(e) => Err(Fault::Failed(e)),
        }
    }
}

/// At most `limit` bytes of what a member inflates to.
pub open spec fn member_content(archive: Seq<u8>, name: Seq<char>, limit: nat) -> Result<
    Seq<u8>,
    Fault,
> {
    if traps_by_name(archive, name) {
        Err(Fault::Panicked)
    } else {
        match zip_member(archive, name, limit) {
            Ok(b) => Ok(b),
            Err(e) => Err(Fault::Failed(e)),
        }
    }
}

fn member_bytes(archive: &[u8], name: &str, limit: usize) -> (r: Result<Vec<u8>, DocumentError>)
    ensures
        match r {
            Ok(b) => member_content(archive@, name@, limit as nat) == Ok::<_, Fault>(b@),
            Err(e) => member_content(archive@, name@, limit as nat) == Err::<Seq<u8>, _>(e@),
        },
{
    if is_trap_by_name(archive, name) {
        return Err(DocumentError::Panicked);
    }
    match archive_member(archive, name, limit) {
        Ok(b) => Ok(b),
        Err(e) => Err(DocumentError::Failed(e)),
    }
}

/// The `.xml` members under `prefix` among the first `n`, in archive order. A
/// member whose name cannot be had is an error.
pub open spec fn members_under(archive: Seq<u8>, prefix: Seq<char>, n: nat) -> Result<
    Seq<Seq<char>>,
    Fault,
>
    decreases n,
{
    if n == 0 {
        Ok(seq![])
    } else {
        match (
            members_under(archive, prefix, (n - 1) as nat),
            member_name(archive, (n - 1) as nat),
        ) {
            (Err(e), _) => Err(e),
            (Ok(_), Err(e)) => Err(e),
            (Ok(names), Ok(name)) => if is_prefix(prefix, name) && is_suffix(".xml"@, name) {
                Ok(names.push(name))
            } else {
                Ok(names)
            },
        }
    }
}

proof fn lemma_first_bad_member(archive: Seq<u8>, prefix: Seq<char>, k: nat, n: nat)
    requires
        k < n,
        members_under(archive, prefix, k) is Ok,
        member_name(archive, k) is Err,
    ensures
        members_under(archive, prefix, n) == Err::<Seq<Seq<char>>, _>(
            member_name(archive, k)->Err_0,
        ),
    decreases n,
{
    if n > k + 1 {
        lemma_first_bad_member(archive, prefix, k, (n - 1) as nat);
    }
}

fn xml_members_under(archive: &[u8], prefix: &str, count: usize) -> (r: Result<
    Vec<String>,
    DocumentError,
>)
    ensures
        match r {
            Ok(v) => members_under(archive@, prefix@, count as nat) == Ok::<_, Fault>(texts(v@)),
            Err(e) => members_under(archive@, prefix@, count as nat) == Err::<Seq<Seq<char>>, _>(
                e@,
            ),
        },
{
    let declares: bool = holds_encryption_field(archive);
    let mut names: Vec<String> = Vec::new();
    let mut i: usize = 0;
    assert(texts(names@) =~= seq![]);
    while i < count
        invariant
            i <= count,
            declares == declares_encryption(archive@),
            members_under(archive@, prefix@, i as nat) == Ok::<_, Fault>(texts(names@)),
        decreases count - i,
    {
        if declares && is_trap(archive, i) {
            proof {
                lemma_first_bad_member(archive@, prefix@, i as nat, count as nat);
            }
            return Err(DocumentError::Panicked);
        }
        match archive_name(archive, i) {
            Err(e) => {
                proof {
                    lemma_first_bad_member(archive@, prefix@, i as nat, count as nat);
                }
                return Err(DocumentError::Failed(e));
            },
            Ok(name) => {
                if starts_with(name.as_str(), prefix) && ends_with(name.as_str(), ".xml") {
                    let ghost before = texts(names@);
                    names.push(name);
                    assert(texts(names@) =~= before.push(name@));
                }
            },
        }
        i += 1;
    }
    Ok(names)
}

/// A format whose whole text lives in one member.
pub open spec fn member_text(
    archive: Seq<u8>,
    member: Seq<char>,
    spec: TextSpec,
    out: Seq<char>,
    limits: Limits,
) -> Extracted {
    match member_content(archive, member, limits.inflate as nat) {
        Err(e) => (out, Some(e)),
        Ok(xml) => as_extracted(xml_text(xml_events(xml), spec, 0, out, limits.text as int)),
    }
}

fn single_member(archive: &[u8], member: &str, spec: TextSpec, out: &mut String, limits: Limits)
    -> (r: Result<(), DocumentError>)
    ensures
        ends(r, final(out)@, member_text(archive@, member@, spec, old(out)@, limits)),
{
    match member_bytes(archive, member, limits.inflate) {
        Err(e) => Err(e),
        Ok(xml) => failed(collect_xml_text(xml.as_slice(), spec, out, limits.text)),
    }
}

/// What one slide adds, with the mark that ends it.
pub open spec fn slide_text(
    archive: Seq<u8>,
    name: Seq<char>,
    out: Seq<char>,
    limits: Limits,
) -> Extracted {
    match member_text(archive, name, TextSpec::Pptx, out, limits) {
        (t, None) => (t + "\n--- New Slide ---\n"@, None),
        (t, Some(e)) => (t, Some(e)),
    }
}

/// What the first `n` slides add; no slide is begun once the text has reached
/// the limit.
pub open spec fn slides_text(
    archive: Seq<u8>,
    names: Seq<Seq<char>>,
    out: Seq<char>,
    limits: Limits,
) -> Extracted
    decreases names.len(),
{
    if names.len() == 0 || utf8_len(out) >= limits.text {
        (out, None)
    } else {
        match slide_text(archive, names[0], out, limits) {
            (t, None) => slides_text(archive, names.skip(1), t, limits),
            (t, Some(e)) => (t, Some(e)),
        }
    }
}

/// The text of a `.pptx`, slide after slide in archive order.
pub open spec fn pptx_text(archive: Seq<u8>, out: Seq<char>, limits: Limits) -> Extracted {
    match zip_count(archive) {
        Err(e) => (out, Some(Fault::Failed(e))),
        Ok(n) => match members_under(archive, "ppt/slides/slide"@, n) {
            Err(e) => (out, Some(e)),
            Ok(names) => slides_text(archive, names, out, limits),
        },
    }
}

fn extract_pptx(archive: &[u8], out: &mut String, limits: Limits) -> (r: Result<
    (),
    DocumentError,
>)
    ensures
        ends(r, final(out)@, pptx_text(archive@, old(out)@, limits)),
{
    let count: usize = match archive_count(archive) {
        Ok(n) => n,
        Err(e) => return Err(DocumentError::Failed(e)),
    };
    let names = match xml_members_under(archive, "ppt/slides/slide", count) {
        Ok(v) => v,
        Err(e) => return Err(e),
    };
    let ghost all = texts(names@);
    let ghost goal = slides_text(archive@, all, out@, limits);
    let mut k: usize = 0;
    assert(all.skip(0) =~= all);
    while k < names.len()
        invariant
            k <= names@.len(),
            all == texts(names@),
            slides_text(archive@, all.skip(k as int), out@, limits) == goal,
            goal == pptx_text(archive@, old(out)@, limits),
        decreases names@.len() - k,
    {
        proof {
            assert(all.skip(k as int)[0] == names@[k as int]@);
            assert(all.skip(k as int).skip(1) =~= all.skip(k + 1));
        }
        if byte_len(out.as_str()) >= limits.text {
            return Ok(());
        }
        match single_member(archive, names[k].as_str(), TextSpec::Pptx, out, limits) {
            Err(e) => return Err(e),
            Ok(()) => push_str(out, "\n--- New Slide ---\n"),
        }
        k += 1;
    }
    Ok(())
}

/// What the worksheets add; none is begun once the text has reached the limit.
pub open spec fn sheets_text(
    archive: Seq<u8>,
    names: Seq<Seq<char>>,
    strings: Seq<Seq<char>>,
    out: Seq<char>,
    limits: Limits,
) -> Extracted
    decreases names.len(),
{
    if names.len() == 0 || utf8_len(out) >= limits.text {
        (out, None)
    } else {
        match member_content(archive, names[0], limits.inflate as nat) {
            Err(e) => (out, Some(e)),
            Ok(xml) => match sheet_text(
                xml_events(xml),
                strings,
                false,
                false,
                out,
                limits.text as int,
            ) {
                (t, None) => sheets_text(archive, names.skip(1), strings, t, limits),
                (t, Some(e)) => (t, Some(Fault::Failed(e))),
            },
        }
    }
}

/// The workbook's shared strings; absent or unreadable is no error, since a
/// sheet of nothing but numbers has no table at all. A trap is one.
pub open spec fn workbook_strings(archive: Seq<u8>, limits: Limits) -> Result<
    Seq<Seq<char>>,
    Fault,
> {
    match member_content(archive, "xl/sharedStrings.xml"@, limits.inflate as nat) {
        Err(Fault::Panicked) => Err(Fault::Panicked),
        Err(Fault::Failed(_)) => Ok(seq![]),
        Ok(xml) => Ok(table_of(xml_events(xml), false, seq![], seq![])),
    }
}

/// The text of a `.xlsx`, sheet after sheet in archive order.
pub open spec fn xlsx_text(archive: Seq<u8>, out: Seq<char>, limits: Limits) -> Extracted {
    match (zip_count(archive), workbook_strings(archive, limits)) {
        (Err(e), _) => (out, Some(Fault::Failed(e))),
        (Ok(_), Err(e)) => (out, Some(e)),
        (Ok(n), Ok(strings)) => match members_under(archive, "xl/worksheets/sheet"@, n) {
            Err(e) => (out, Some(e)),
            Ok(names) => sheets_text(archive, names, strings, out, limits),
        },
    }
}

fn extract_xlsx(archive: &[u8], out: &mut String, limits: Limits) -> (r: Result<
    (),
    DocumentError,
>)
    ensures
        ends(r, final(out)@, xlsx_text(archive@, old(out)@, limits)),
{
    let count: usize = match archive_count(archive) {
        Ok(n) => n,
        Err(e) => return Err(DocumentError::Failed(e)),
    };
    let strings = match member_bytes(archive, "xl/sharedStrings.xml", limits.inflate) {
        Ok(xml) => shared_strings(xml.as_slice()),
        Err(DocumentError::Failed(_)) => Vec::new(),
        Err(DocumentError::Panicked) => return Err(DocumentError::Panicked),
    };
    let ghost table = texts(strings@);
    assert(workbook_strings(archive@, limits) is Ok);
    assert(table =~= workbook_strings(archive@, limits)->Ok_0);
    let names = match xml_members_under(archive, "xl/worksheets/sheet", count) {
        Ok(v) => v,
        Err(e) => return Err(e),
    };
    let ghost all = texts(names@);
    let ghost goal = sheets_text(archive@, all, table, out@, limits);
    let mut k: usize = 0;
    assert(all.skip(0) =~= all);
    while k < names.len()
        invariant
            k <= names@.len(),
            all == texts(names@),
            table == texts(strings@),
            sheets_text(archive@, all.skip(k as int), table, out@, limits) == goal,
            goal == xlsx_text(archive@, old(out)@, limits),
        decreases names@.len() - k,
    {
        proof {
            assert(all.skip(k as int)[0] == names@[k as int]@);
            assert(all.skip(k as int).skip(1) =~= all.skip(k + 1));
        }
        if byte_len(out.as_str()) >= limits.text {
            return Ok(());
        }
        let xml = match member_bytes(archive, names[k].as_str(), limits.inflate) {
            Ok(b) => b,
            Err(e) => return Err(e),
        };
        match collect_sheet(xml.as_slice(), &strings, out, limits.text) {
            Ok(()) => {},
            Err(e) => return Err(DocumentError::Failed(e)),
        }
        k += 1;
    }
    Ok(())
}

/// The text of an office document, by the lower-case extension of its file. An
/// unhandled extension yields no text: the MIME was claimed, so the file was
/// simply named unlike its type.
pub open spec fn office_text(
    body: Seq<u8>,
    extension: Seq<char>,
    rendered: Seq<Seq<char>>,
    out: Seq<char>,
    limits: Limits,
) -> Extracted {
    if extension == "docx"@ {
        member_text(body, "word/document.xml"@, TextSpec::Docx, out, limits)
    } else if extension == "xlsx"@ {
        xlsx_text(body, out, limits)
    } else if extension == "pptx"@ {
        pptx_text(body, out, limits)
    } else if extension == "odt"@ || extension == "odp"@ {
        member_text(body, "content.xml"@, TextSpec::OdfText, out, limits)
    } else if extension == "ods"@ {
        member_text(body, "content.xml"@, TextSpec::OdfSheet, out, limits)
    } else if extension == "doc"@ || extension == "xls"@ || extension == "ppt"@ {
        match ole_text(body, extension, rendered) {
            Ok(t) => (out + t, None),
            Err(e) => (out, Some(Fault::Failed(e))),
        }
    } else {
        (out, None)
    }
}

/// Extract text from an office document whose bytes are in hand. `rendered`
/// serves the number cells of a legacy workbook; see
/// [`crate::extract::ole::xls`].
pub fn extract_document_text(
    body: &[u8],
    extension: &str,
    rendered: &Vec<String>,
    out: &mut String,
    limits: Limits,
) -> (r: Result<(), DocumentError>)
    ensures
        ends(
            r,
            final(out)@,
            office_text(body@, extension@, texts(rendered@), old(out)@, limits),
        ),
{
    if same(extension, "docx") {
        single_member(body, "word/document.xml", TextSpec::Docx, out, limits)
    } else if same(extension, "xlsx") {
        extract_xlsx(body, out, limits)
    } else if same(extension, "pptx") {
        extract_pptx(body, out, limits)
    } else if same(extension, "odt") || same(extension, "odp") {
        single_member(body, "content.xml", TextSpec::OdfText, out, limits)
    } else if same(extension, "ods") {
        single_member(body, "content.xml", TextSpec::OdfSheet, out, limits)
    } else if same(extension, "doc") || same(extension, "xls") || same(extension, "ppt") {
        match extract_ole_text(body, extension, rendered) {
            Ok(t) => {
                push_str(out, t.as_str());
                Ok(())
            },
            Err(e) => Err(DocumentError::Failed(e)),
        }
    } else {
        Ok(())
    }
}

/// What an extraction leaves behind. The format comes from the path, not from
/// the MIME: `.docm` and `.docx` share a MIME.
pub open spec fn document_extracted(file: FileView, out: Seq<char>, limits: Limits) -> Walked {
    let ext = match extension(file.path, file.sep) {
        Some(e) => lower(e),
        None => seq![],
    };
    match office_text(file.body, ext, file.rendered, out, limits) {
        (t, None) => (t, None),
        (t, Some(Fault::Failed(e))) => (t, Some("office extractor "@ + file.path + ": "@ + e)),
        (t, Some(Fault::Panicked)) => (t, Some(panicked_on(file.path))),
    }
}

#[derive(Debug, Clone, Copy, PartialEq, Eq, Structural)]
pub struct OfficeExtractor;

impl Extractor for OfficeExtractor {
    open spec fn claims(&self, mime: Seq<char>) -> bool {
        ext_of_mime(mime) is Some
    }

    open spec fn parses_outside(&self, body: Seq<u8>) -> Option<Outside> {
        None
    }

    open spec fn head_parses_outside(&self, body: Seq<u8>) -> Option<Outside> {
        None
    }

    open spec fn extracted(&self, file: FileView, out: Seq<char>, limits: Limits) -> Walked {
        document_extracted(file, out, limits)
    }

    open spec fn head_extracted(&self, file: FileView, out: Seq<char>) -> Option<Walked> {
        None
    }

    open spec fn read_failure(&self, path: Seq<char>, error: Seq<char>) -> Seq<char> {
        "office extractor "@ + path + ": "@ + error
    }

    fn supports(&self, mime: &str) -> (r: bool) {
        mime_to_ext(mime).is_some()
    }

    fn read_error(&self, path: &str, error: &str) -> (r: String) {
        naming("office extractor ", path, error)
    }

    fn runs_outside(&self, body: &[u8]) -> (r: Option<Outside>) {
        None
    }

    fn head_runs_outside(&self, body: &[u8]) -> (r: Option<Outside>) {
        None
    }

    fn extract(&self, file: &SourceFile, out: &mut String, scratch: &Scratch) -> (r: Result<
        (),
        ExtractError,
    >) {
        let ext = match path_extension(file.path.as_str(), file.sep) {
            Some(e) => ascii_lowercase(e.as_str()),
            None => String::new(),
        };
        match extract_document_text(
            file.body.as_slice(),
            ext.as_str(),
            &file.rendered,
            out,
            scratch.limits(),
        ) {
            Ok(()) => Ok(()),
            Err(DocumentError::Failed(e)) => Err(
                naming("office extractor ", file.path.as_str(), e.as_str()),
            ),
            Err(DocumentError::Panicked) => Err(
                joined("extractor panicked on ", file.path.as_str()),
            ),
        }
    }

    /// The directory of an archive is at its end.
    fn extract_from_head(&self, file: &SourceFile, out: &mut String) -> (r: Option<
        Result<(), ExtractError>,
    >) {
        None
    }
}

/// How many `<t>` elements a document closes or leaves empty.
pub open spec fn text_elements(events: Seq<XmlEventView>) -> nat
    decreases events.len(),
{
    if events.len() == 0 || is_last(events[0]) {
        0
    } else {
        text_elements(events.skip(1)) + match events[0] {
            XmlEventView::End(name) | XmlEventView::Empty(name) => if name == tag("t"@) {
                1nat
            } else {
                0
            },
            _ => 0,
        }
    }
}

/// Every `<t>` gets exactly one entry of the shared-string table, an empty one
/// included: an index means the same element to the table and to the cells.
/// Text that does not decode ends the table, so there is none.
pub proof fn every_text_element_gets_an_entry(
    events: Seq<XmlEventView>,
    in_text: bool,
    current: Seq<char>,
    strings: Seq<Seq<char>>,
)
    requires
        forall|i: int|
            0 <= i < events.len() ==> (#[trigger] events[i] matches XmlEventView::Text(t) ==> t is Ok),
    ensures
        table_of(events, in_text, current, strings).len() == strings.len() + text_elements(events),
    decreases events.len(),
{
    if events.len() > 0 && !is_last(events[0]) {
        let rest = events.skip(1);
        assert forall|i: int| 0 <= i < rest.len() implies (
        #[trigger] rest[i] matches XmlEventView::Text(t) ==> t is Ok) by {
            assert(rest[i] == events[i + 1]);
        }
        match events[0] {
            XmlEventView::Start { name, .. } => if name == tag("t"@) {
                every_text_element_gets_an_entry(rest, true, seq![], strings);
            } else {
                every_text_element_gets_an_entry(rest, in_text, current, strings);
            },
            XmlEventView::Empty(name) => if name == tag("t"@) {
                every_text_element_gets_an_entry(rest, in_text, current, strings.push(seq![]));
            } else {
                every_text_element_gets_an_entry(rest, in_text, current, strings);
            },
            XmlEventView::Text(text) => if !in_text {
                every_text_element_gets_an_entry(rest, in_text, current, strings);
            } else {
                every_text_element_gets_an_entry(rest, in_text, current + text->Ok_0, strings);
            },
            XmlEventView::Reference(raw) => if in_text && raw is Ok && entity_text(
                raw->Ok_0,
            ) is Some {
                every_text_element_gets_an_entry(
                    rest,
                    in_text,
                    current + entity_text(raw->Ok_0)->Some_0,
                    strings,
                );
            } else {
                every_text_element_gets_an_entry(rest, in_text, current, strings);
            },
            XmlEventView::End(name) => if name == tag("t"@) {
                every_text_element_gets_an_entry(rest, false, seq![], strings.push(current));
            } else {
                every_text_element_gets_an_entry(rest, in_text, current, strings);
            },
            _ => {
                every_text_element_gets_an_entry(rest, in_text, current, strings);
            },
        }
    }
}

/// A text that has reached the limit is left as it is: nothing more is walked.
pub proof fn nothing_is_walked_past_the_limit(
    events: Seq<XmlEventView>,
    spec: TextSpec,
    depth: int,
    archive: Seq<u8>,
    names: Seq<Seq<char>>,
    strings: Seq<Seq<char>>,
    in_cell: bool,
    shared: bool,
    out: Seq<char>,
    limits: Limits,
)
    requires
        utf8_len(out) >= limits.text,
    ensures
        xml_text(events, spec, depth, out, limits.text as int) == (out, None::<Seq<char>>),
        sheet_text(events, strings, in_cell, shared, out, limits.text as int) == (
            out,
            None::<Seq<char>>,
        ),
        slides_text(archive, names, out, limits) == (out, None::<Fault>),
        sheets_text(archive, names, strings, out, limits) == (out, None::<Fault>),
{
}

proof fn lemma_xml_appends(
    events: Seq<XmlEventView>,
    spec: TextSpec,
    depth: int,
    out: Seq<char>,
    limit: int,
)
    ensures
        is_prefix(out, xml_text(events, spec, depth, out, limit).0),
    decreases events.len(),
{
    assert(out.take(out.len() as int) =~= out);
    if utf8_len(out) < limit && events.len() > 0 {
        let rest = events.skip(1);
        let (d, t): (int, Seq<char>) = match events[0] {
            XmlEventView::Start { name, .. } => (
                if spec.bears_text(name) {
                    deeper(depth)
                } else {
                    depth
                },
                out,
            ),
            XmlEventView::Text(Ok(t)) => (
                depth,
                if depth == 0 {
                    out
                } else {
                    out + t
                },
            ),
            XmlEventView::Reference(Ok(r)) => (
                depth,
                if depth == 0 || entity_text(r) is None {
                    out
                } else {
                    out + entity_text(r)->Some_0
                },
            ),
            XmlEventView::End(name) => if spec.bears_text(name) {
                (shallower(depth), after_close(spec, name, shallower(depth) == 0, out))
            } else {
                (depth, after_close(spec, name, false, out))
            },
            XmlEventView::Empty(name) => (
                depth,
                after_close(spec, name, depth == 0 && spec.bears_text(name), out),
            ),
            _ => (depth, out),
        };
        lemma_xml_appends(rest, spec, d, t, limit);
        lemma_prefix_chain(out, t, xml_text(rest, spec, d, t, limit).0);
    }
}

/// A text that grew twice began as it did at first.
proof fn lemma_prefix_chain(a: Seq<char>, b: Seq<char>, c: Seq<char>)
    requires
        a.len() <= b.len(),
        forall|i: int| 0 <= i < a.len() ==> a[i] == b[i],
        is_prefix(b, c),
    ensures
        is_prefix(a, c),
{
    assert forall|i: int| 0 <= i < a.len() implies a[i] == c[i] by {
        assert(c.take(b.len() as int)[i] == b[i]);
    }
    assert(c.take(a.len() as int) =~= a);
}

proof fn lemma_sheet_appends(
    events: Seq<XmlEventView>,
    strings: Seq<Seq<char>>,
    in_cell: bool,
    shared: bool,
    out: Seq<char>,
    limit: int,
)
    ensures
        is_prefix(out, sheet_text(events, strings, in_cell, shared, out, limit).0),
    decreases events.len(),
{
    assert(out.take(out.len() as int) =~= out);
    if utf8_len(out) < limit && events.len() > 0 {
        let rest = events.skip(1);
        let (c, s, t): (bool, bool, Seq<char>) = match events[0] {
            XmlEventView::Start { name, attributes } => if name == tag("c"@)
                && shared_cell(attributes) is Ok {
                (true, shared_cell(attributes)->Ok_0, out)
            } else {
                (in_cell, shared, out)
            },
            XmlEventView::Text(Ok(t)) => (
                in_cell,
                shared,
                if in_cell {
                    out + cell_text(t, shared, strings)
                } else {
                    out
                },
            ),
            XmlEventView::Reference(Ok(r)) => (
                in_cell,
                shared,
                if !in_cell || shared || entity_text(r) is None {
                    out
                } else {
                    out + entity_text(r)->Some_0
                },
            ),
            XmlEventView::End(name) => if name == tag("c"@) {
                (false, shared, out)
            } else if name == tag("row"@) {
                (in_cell, shared, out.push('\n'))
            } else {
                (in_cell, shared, out)
            },
            _ => (in_cell, shared, out),
        };
        lemma_sheet_appends(rest, strings, c, s, t, limit);
        lemma_prefix_chain(out, t, sheet_text(rest, strings, c, s, t, limit).0);
    }
}

proof fn lemma_member_appends(
    archive: Seq<u8>,
    member: Seq<char>,
    spec: TextSpec,
    out: Seq<char>,
    limits: Limits,
)
    ensures
        is_prefix(out, member_text(archive, member, spec, out, limits).0),
{
    assert(out.take(out.len() as int) =~= out);
    if let Ok(xml) = member_content(archive, member, limits.inflate as nat) {
        lemma_xml_appends(xml_events(xml), spec, 0, out, limits.text as int);
    }
}

proof fn lemma_slides_append(
    archive: Seq<u8>,
    names: Seq<Seq<char>>,
    out: Seq<char>,
    limits: Limits,
)
    ensures
        is_prefix(out, slides_text(archive, names, out, limits).0),
    decreases names.len(),
{
    assert(out.take(out.len() as int) =~= out);
    if names.len() > 0 && utf8_len(out) < limits.text {
        let w = member_text(archive, names[0], TextSpec::Pptx, out, limits);
        lemma_member_appends(archive, names[0], TextSpec::Pptx, out, limits);
        if w.1 is None {
            let t = w.0 + "\n--- New Slide ---\n"@;
            lemma_slides_append(archive, names.skip(1), t, limits);
            assert forall|i: int| 0 <= i < out.len() implies out[i] == t[i] by {
                assert(w.0.take(out.len() as int)[i] == out[i]);
            }
            lemma_prefix_chain(out, t, slides_text(archive, names.skip(1), t, limits).0);
        }
    }
}

proof fn lemma_sheets_append(
    archive: Seq<u8>,
    names: Seq<Seq<char>>,
    strings: Seq<Seq<char>>,
    out: Seq<char>,
    limits: Limits,
)
    ensures
        is_prefix(out, sheets_text(archive, names, strings, out, limits).0),
    decreases names.len(),
{
    assert(out.take(out.len() as int) =~= out);
    if names.len() > 0 && utf8_len(out) < limits.text {
        if let Ok(xml) = member_content(archive, names[0], limits.inflate as nat) {
            let w = sheet_text(
                xml_events(xml),
                strings,
                false,
                false,
                out,
                limits.text as int,
            );
            lemma_sheet_appends(
                xml_events(xml),
                strings,
                false,
                false,
                out,
                limits.text as int,
            );
            if w.1 is None {
                lemma_sheets_append(archive, names.skip(1), strings, w.0, limits);
                assert forall|i: int| 0 <= i < out.len() implies out[i] == w.0[i] by {
                    assert(w.0.take(out.len() as int)[i] == out[i]);
                }
                lemma_prefix_chain(
                    out,
                    w.0,
                    sheets_text(archive, names.skip(1), strings, w.0, limits).0,
                );
            }
        }
    }
}

/// A document's text is put after what was there, errors included.
pub proof fn a_document_only_appends(
    body: Seq<u8>,
    extension: Seq<char>,
    rendered: Seq<Seq<char>>,
    out: Seq<char>,
    limits: Limits,
)
    ensures
        is_prefix(out, office_text(body, extension, rendered, out, limits).0),
{
    assert(out.take(out.len() as int) =~= out);
    lemma_member_appends(body, "word/document.xml"@, TextSpec::Docx, out, limits);
    lemma_member_appends(body, "content.xml"@, TextSpec::OdfText, out, limits);
    lemma_member_appends(body, "content.xml"@, TextSpec::OdfSheet, out, limits);
    if let Ok(n) = zip_count(body) {
        if let Ok(names) = members_under(body, "ppt/slides/slide"@, n) {
            lemma_slides_append(body, names, out, limits);
        }
        if let Ok(names) = members_under(body, "xl/worksheets/sheet"@, n) {
            if let Ok(strings) = workbook_strings(body, limits) {
                lemma_sheets_append(body, names, strings, out, limits);
            }
        }
    }
    if let Ok(t) = ole_text(body, extension, rendered) {
        assert((out + t).take(out.len() as int) =~= out);
    }
}

/// Whether an attribute reads and has another name than `t`.
pub open spec fn other_attribute(a: Result<(Seq<u8>, Seq<u8>), Seq<char>>) -> bool {
    a matches Ok(kv) && kv.0 != tag("t"@)
}

/// A cell's type is what its first attribute named `t` says, whatever attributes
/// of other names stand around it: the cell is a shared string exactly where that
/// says `s`. A cell without one is none, and only an attribute that does not read
/// before it is an error.
pub proof fn a_cell_type_is_its_first_t(
    others: Seq<Result<(Seq<u8>, Seq<u8>), Seq<char>>>,
    value: Seq<u8>,
    rest: Seq<Result<(Seq<u8>, Seq<u8>), Seq<char>>>,
    e: Seq<char>,
)
    requires
        forall|i: int| 0 <= i < others.len() ==> other_attribute(#[trigger] others[i]),
    ensures
        shared_cell(others + seq![Ok((tag("t"@), value))] + rest) == Ok::<bool, Seq<char>>(
            value == tag("s"@),
        ),
        shared_cell(others) == Ok::<bool, Seq<char>>(false),
        shared_cell(others + seq![Err(e)] + rest) == Err::<bool, Seq<char>>(e),
    decreases others.len(),
{
    let a = others + seq![Ok((tag("t"@), value))] + rest;
    let b = others + seq![Err(e)] + rest;
    if others.len() > 0 {
        let tail = others.skip(1);
        assert(other_attribute(others[0]));
        assert forall|i: int| 0 <= i < tail.len() implies other_attribute(#[trigger] tail[i]) by {
            assert(tail[i] == others[i + 1]);
        }
        a_cell_type_is_its_first_t(tail, value, rest, e);
        assert(a[0] == others[0]);
        assert(b[0] == others[0]);
        assert(a.skip(1) =~= tail + seq![Ok((tag("t"@), value))] + rest);
        assert(b.skip(1) =~= tail + seq![Err(e)] + rest);
    } else {
        assert(a[0] == Ok::<(Seq<u8>, Seq<u8>), Seq<char>>((tag("t"@), value)));
        assert(b[0] == Err::<(Seq<u8>, Seq<u8>), Seq<char>>(e));
    }
}

/// An attribute of another name than `t` changes nothing, wherever it stands among
/// attributes that read.
pub proof fn another_attribute_changes_nothing(
    before: Seq<Result<(Seq<u8>, Seq<u8>), Seq<char>>>,
    attribute: Result<(Seq<u8>, Seq<u8>), Seq<char>>,
    after: Seq<Result<(Seq<u8>, Seq<u8>), Seq<char>>>,
)
    requires
        other_attribute(attribute),
    ensures
        shared_cell(before + seq![attribute] + after) == shared_cell(before + after),
    decreases before.len(),
{
    let with = before + seq![attribute] + after;
    let without = before + after;
    if before.len() == 0 {
        assert(with[0] == attribute);
        assert(with.skip(1) =~= without);
    } else {
        let tail = before.skip(1);
        assert(with[0] == before[0]);
        assert(without[0] == before[0]);
        assert(with.skip(1) =~= tail + seq![attribute] + after);
        assert(without.skip(1) =~= tail + after);
        another_attribute_changes_nothing(tail, attribute, after);
    }
}

/// A cell that indexes the shared strings shows the string at its index, with
/// whatever white space the number is written in, and nothing where there is none.
/// Any other cell shows its own text, and nothing where that is blank.
pub proof fn a_cell_shows_its_value(
    index: nat,
    a: Seq<char>,
    b: Seq<char>,
    strings: Seq<Seq<char>>,
    text: Seq<char>,
)
    requires
        blank(a),
        blank(b),
        index <= usize::MAX,
    ensures
        cell_text(a + crate::text::decimal(index) + b, true, strings) == (if index
            < strings.len() {
            strings[index as int] + seq![' ']
        } else {
            seq![]
        }),
        cell_text(text, false, strings) == (if blank(text) {
            seq![]
        } else {
            text + seq![' ']
        }),
{
    let d = crate::text::decimal(index);
    crate::text::a_number_reads_back(index);
    assert(48 <= d[0] as u32 <= 57);
    assert(48 <= d[d.len() - 1] as u32 <= 57);
    crate::text::trimming_takes_white_ends(a, d, b);
    crate::text::a_written_number_is_parsed(index, usize::MAX as int);
    if index < strings.len() {
        assert(strings[index as int].push(' ') =~= strings[index as int] + seq![' ']);
    }
    assert(text.push(' ') =~= text + seq![' ']);
}

/// Within the limit a cell adds what its text stands for, by its own type and
/// whatever cell came before it, and the walk goes on behind it; the end of a row
/// breaks the line.
pub proof fn a_cell_adds_its_text(
    attributes: Seq<Result<(Seq<u8>, Seq<u8>), Seq<char>>>,
    holder: Seq<u8>,
    text: Seq<char>,
    rest: Seq<XmlEventView>,
    strings: Seq<Seq<char>>,
    in_cell: bool,
    shared: bool,
    out: Seq<char>,
    limit: int,
)
    requires
        holder != tag("c"@),
        holder != tag("row"@),
        shared_cell(attributes) is Ok,
        utf8_len(out) < limit,
        utf8_len(out + cell_text(text, shared_cell(attributes)->Ok_0, strings)) < limit,
    ensures
        sheet_text(
            seq![
                XmlEventView::Start { name: tag("c"@), attributes },
                XmlEventView::Start { name: holder, attributes: seq![] },
                XmlEventView::Text(Ok(text)),
                XmlEventView::End(holder),
                XmlEventView::End(tag("c"@)),
            ] + rest,
            strings,
            in_cell,
            shared,
            out,
            limit,
        ) == sheet_text(
            rest,
            strings,
            false,
            shared_cell(attributes)->Ok_0,
            out + cell_text(text, shared_cell(attributes)->Ok_0, strings),
            limit,
        ),
        sheet_text(
            seq![XmlEventView::End(tag("row"@))] + rest,
            strings,
            in_cell,
            shared,
            out,
            limit,
        ) == sheet_text(rest, strings, in_cell, shared, out + seq!['\n'], limit),
{
    let s = shared_cell(attributes)->Ok_0;
    let t = out + cell_text(text, s, strings);
    let e5 = seq![XmlEventView::End(tag("c"@))] + rest;
    let e4 = seq![XmlEventView::End(holder)] + e5;
    let e3 = seq![XmlEventView::Text(Ok(text))] + e4;
    let e2 = seq![XmlEventView::Start { name: holder, attributes: seq![] }] + e3;
    let e1 = seq![XmlEventView::Start { name: tag("c"@), attributes }] + e2;
    assert(e1 =~= seq![
        XmlEventView::Start { name: tag("c"@), attributes },
        XmlEventView::Start { name: holder, attributes: seq![] },
        XmlEventView::Text(Ok(text)),
        XmlEventView::End(holder),
        XmlEventView::End(tag("c"@)),
    ] + rest);
    assert(e1.skip(1) =~= e2);
    assert(e2.skip(1) =~= e3);
    assert(e3.skip(1) =~= e4);
    assert(e4.skip(1) =~= e5);
    assert(e5.skip(1) =~= rest);
    assert(sheet_text(e5, strings, true, s, t, limit) == sheet_text(
        rest,
        strings,
        false,
        s,
        t,
        limit,
    ));
    assert(sheet_text(e4, strings, true, s, t, limit) == sheet_text(
        e5,
        strings,
        true,
        s,
        t,
        limit,
    ));
    assert(sheet_text(e3, strings, true, s, out, limit) == sheet_text(
        e4,
        strings,
        true,
        s,
        t,
        limit,
    ));
    assert(sheet_text(e2, strings, true, s, out, limit) == sheet_text(
        e3,
        strings,
        true,
        s,
        out,
        limit,
    ));
    lemma_row_is_no_cell();
    let r = seq![XmlEventView::End(tag("row"@))] + rest;
    assert(r.skip(1) =~= rest);
    assert(out.push('\n') =~= out + seq!['\n']);
}

proof fn lemma_row_is_no_cell()
    ensures
        tag("row"@) != tag("c"@),
{
    reveal_strlit("row");
    reveal_strlit("c");
    assert("row"@.len() == 3);
    assert("c"@.len() == 1);
    vstd::utf8::encode_utf8_decode_utf8("row"@);
    vstd::utf8::encode_utf8_decode_utf8("c"@);
}

/// What stands outside every cell of a sheet, or outside every text element of
/// another document, adds nothing.
pub proof fn text_between_elements_is_left_out(
    text: Result<Seq<char>, Seq<char>>,
    rest: Seq<XmlEventView>,
    strings: Seq<Seq<char>>,
    shared: bool,
    spec: TextSpec,
    out: Seq<char>,
    limit: int,
)
    ensures
        sheet_text(seq![XmlEventView::Text(text)] + rest, strings, false, shared, out, limit)
            == sheet_text(rest, strings, false, shared, out, limit),
        xml_text(seq![XmlEventView::Text(text)] + rest, spec, 0, out, limit) == xml_text(
            rest,
            spec,
            0,
            out,
            limit,
        ),
{
    assert((seq![XmlEventView::Text(text)] + rest).skip(1) =~= rest);
}

/// Within the limit the text of a text-bearing element is appended as it is, at
/// any depth, and the walk goes on behind the element. The outermost one of a
/// spreadsheet is followed by a space, and one that ends a paragraph by a line
/// break.
pub proof fn a_run_adds_its_text(
    spec: TextSpec,
    name: Seq<u8>,
    attributes: Seq<Result<(Seq<u8>, Seq<u8>), Seq<char>>>,
    text: Seq<char>,
    rest: Seq<XmlEventView>,
    depth: int,
    out: Seq<char>,
    limit: int,
)
    requires
        spec.bears_text(name),
        0 <= depth < usize::MAX,
        utf8_len(out) < limit,
        utf8_len(out + text) < limit,
    ensures
        xml_text(
            seq![
                XmlEventView::Start { name, attributes },
                XmlEventView::Text(Ok(text)),
                XmlEventView::End(name),
            ] + rest,
            spec,
            depth,
            out,
            limit,
        ) == xml_text(
            rest,
            spec,
            depth,
            out + text + (if depth == 0 && spec == TextSpec::OdfSheet {
                seq![' ']
            } else {
                seq![]
            }) + (if spec.breaks_line(name) {
                seq!['\n']
            } else {
                seq![]
            }),
            limit,
        ),
{
    let e3 = seq![XmlEventView::End(name)] + rest;
    let e2 = seq![XmlEventView::Text(Ok(text))] + e3;
    let e1 = seq![XmlEventView::Start { name, attributes }] + e2;
    assert(e1 =~= seq![
        XmlEventView::Start { name, attributes },
        XmlEventView::Text(Ok(text)),
        XmlEventView::End(name),
    ] + rest);
    assert(e1.skip(1) =~= e2);
    assert(e2.skip(1) =~= e3);
    assert(e3.skip(1) =~= rest);
    assert(xml_text(e1, spec, depth, out, limit) == xml_text(e2, spec, depth + 1, out, limit));
    assert(xml_text(e2, spec, depth + 1, out, limit) == xml_text(
        e3,
        spec,
        depth + 1,
        out + text,
        limit,
    ));
    assert(after_close(spec, name, depth == 0, out + text) =~= out + text + (if depth == 0 && spec
        == TextSpec::OdfSheet {
        seq![' ']
    } else {
        seq![]
    }) + (if spec.breaks_line(name) {
        seq!['\n']
    } else {
        seq![]
    }));
}

/// The elements that carry text and those that end a line, in each format: `w:t`
/// and `w:p`, `a:t` and `a:p`, and in the open formats the paragraph, the heading
/// and the span. A paragraph of an office document is no text of its own.
pub proof fn the_elements_of_each_format(name: Seq<u8>)
    ensures
        TextSpec::Docx.bears_text(name) <==> name == tag("w:t"@),
        TextSpec::Docx.breaks_line(name) <==> name == tag("w:p"@),
        TextSpec::Pptx.bears_text(name) <==> name == tag("a:t"@),
        TextSpec::Pptx.breaks_line(name) <==> name == tag("a:p"@),
        TextSpec::OdfText.breaks_line(name) ==> TextSpec::OdfText.bears_text(name),
        TextSpec::OdfSheet.breaks_line(name) ==> TextSpec::OdfSheet.bears_text(name),
        name == tag("text:p"@) ==> TextSpec::OdfText.breaks_line(name)
            && TextSpec::OdfSheet.breaks_line(name),
        name == tag("text:h"@) ==> TextSpec::OdfText.breaks_line(name),
        name == tag("text:span"@) ==> TextSpec::OdfText.bears_text(name)
            && TextSpec::OdfSheet.bears_text(name),
        TextSpec::OdfText.bears_text(name) ==> name == tag("text:p"@) || name == tag("text:h"@)
            || name == tag("text:span"@),
        TextSpec::OdfSheet.bears_text(name) ==> name == tag("text:p"@) || name == tag("text:span"@),
{
}

/// A reference by number stands for the character with that number, in decimal
/// and, after an `x`, in hexadecimal; the five names for the characters that XML
/// writes with them.
pub proof fn a_reference_is_its_character(n: nat, c: char, hex: Seq<char>)
    requires
        c as u32 == n,
        !is_control(c),
    ensures
        entity_text(seq!['#'] + crate::text::decimal(n)) == Some(seq![c]),
        hex.len() > 0 && hex[0] != '+' && crate::text::all_digits(hex, 16) && crate::text::number(
            hex,
            16,
        ) == n ==> entity_text(seq!['#', 'x'] + hex) == Some(seq![c]),
        entity_text("amp"@) == Some(seq!['&']),
        entity_text("lt"@) == Some(seq!['<']),
        entity_text("gt"@) == Some(seq!['>']),
        entity_text("quot"@) == Some(seq!['"']),
        entity_text("apos"@) == Some(seq!['\'']),
{
    vstd::utf8::char_is_scalar(c);
    let d = crate::text::decimal(n);
    crate::text::a_number_reads_back(n);
    crate::text::a_written_number_is_parsed(n, u32::MAX as int);
    assert((seq!['#'] + d).skip(1) =~= d);
    assert(d[0] as u32 != 'x' as u32 && d[0] as u32 != 'X' as u32);
    vstd::utf8::char_u32_cast(c, n as u32);
    assert((seq!['#', 'x'] + hex).skip(1) =~= seq!['x'] + hex);
    assert((seq!['x'] + hex).skip(1) =~= hex);
    reveal_strlit("amp");
    reveal_strlit("lt");
    reveal_strlit("gt");
    reveal_strlit("quot");
    reveal_strlit("apos");
    reveal_strlit("&");
    reveal_strlit("<");
    reveal_strlit(">");
    reveal_strlit("\"");
    reveal_strlit("'");
    assert("&"@ =~= seq!['&']);
    assert("<"@ =~= seq!['<']);
    assert(">"@ =~= seq!['>']);
    assert("\""@ =~= seq!['"']);
    assert("'"@ =~= seq!['\'']);
    assert("amp"@[1] != "apos"@[1]);
    assert("lt"@[0] != "gt"@[0]);
    assert("quot"@[0] != "apos"@[0]);
    assert("amp"@.len() == 3 && "lt"@.len() == 2 && "gt"@.len() == 2);
    assert("quot"@.len() == 4 && "apos"@.len() == 4);
    assert("amp"@[0] != '#' && "lt"@[0] != '#' && "gt"@[0] != '#');
    assert("quot"@[0] != '#' && "apos"@[0] != '#');
}

/// A shared string is the whole text of its element, behind those that came
/// before it, and no later element changes an entry that is there.
pub proof fn a_shared_string_is_its_text(
    attributes: Seq<Result<(Seq<u8>, Seq<u8>), Seq<char>>>,
    a: Seq<char>,
    b: Seq<char>,
    rest: Seq<XmlEventView>,
    in_text: bool,
    current: Seq<char>,
    strings: Seq<Seq<char>>,
)
    ensures
        table_of(
            seq![
                XmlEventView::Start { name: tag("t"@), attributes },
                XmlEventView::Text(Ok(a)),
                XmlEventView::Text(Ok(b)),
                XmlEventView::End(tag("t"@)),
            ] + rest,
            in_text,
            current,
            strings,
        ) == table_of(rest, false, seq![], strings.push(a + b)),
        strings.is_prefix_of(table_of(rest, in_text, current, strings)),
{
    let e4 = seq![XmlEventView::End(tag("t"@))] + rest;
    let e3 = seq![XmlEventView::Text(Ok(b))] + e4;
    let e2 = seq![XmlEventView::Text(Ok(a))] + e3;
    let e1 = seq![XmlEventView::Start { name: tag("t"@), attributes }] + e2;
    assert(e1 =~= seq![
        XmlEventView::Start { name: tag("t"@), attributes },
        XmlEventView::Text(Ok(a)),
        XmlEventView::Text(Ok(b)),
        XmlEventView::End(tag("t"@)),
    ] + rest);
    assert(e1.skip(1) =~= e2);
    assert(e2.skip(1) =~= e3);
    assert(e3.skip(1) =~= e4);
    assert(e4.skip(1) =~= rest);
    assert(Seq::<char>::empty() + a =~= a);
    assert(table_of(e2, true, seq![], strings) == table_of(e3, true, a, strings));
    assert(table_of(e3, true, a, strings) == table_of(e4, true, a + b, strings));
    lemma_table_grows(rest, in_text, current, strings);
}

proof fn lemma_table_grows(
    events: Seq<XmlEventView>,
    in_text: bool,
    current: Seq<char>,
    strings: Seq<Seq<char>>,
)
    ensures
        strings.is_prefix_of(table_of(events, in_text, current, strings)),
    decreases events.len(),
{
    if events.len() > 0 {
        let rest = events.skip(1);
        let more = match events[0] {
            XmlEventView::End(name) if name == tag("t"@) => strings.push(current),
            XmlEventView::Empty(name) if name == tag("t"@) => strings.push(seq![]),
            _ => strings,
        };
        let (t, c): (bool, Seq<char>) = match events[0] {
            XmlEventView::Start { name, .. } if name == tag("t"@) => (true, seq![]),
            XmlEventView::End(name) if name == tag("t"@) => (false, seq![]),
            XmlEventView::Text(Ok(x)) if in_text => (in_text, current + x),
            XmlEventView::Reference(Ok(r)) if in_text && entity_text(r) is Some => (
                in_text,
                current + entity_text(r)->Some_0,
            ),
            _ => (in_text, current),
        };
        lemma_table_grows(rest, t, c, more);
        let end = table_of(events, in_text, current, strings);
        assert(end == strings || end == table_of(rest, t, c, more));
        assert(strings.is_prefix_of(more));
        if end == table_of(rest, t, c, more) {
            assert forall|i: int| 0 <= i < strings.len() implies strings[i] == end[i] by {
                assert(more[i] == strings[i]);
                assert(more =~= end.take(more.len() as int));
                assert(end.take(more.len() as int)[i] == end[i]);
            }
            assert(strings =~= end.subrange(0, strings.len() as int));
        } else {
            assert(strings =~= end.subrange(0, strings.len() as int));
        }
    }
}

/// The slides and the sheets of an archive are its members under their prefix
/// that end in `.xml`: every one of them, whatever its place, and no other.
pub proof fn every_member_under_a_prefix_is_listed(
    archive: Seq<u8>,
    prefix: Seq<char>,
    n: nat,
    name: Seq<char>,
)
    requires
        members_under(archive, prefix, n) is Ok,
    ensures
        members_under(archive, prefix, n)->Ok_0.contains(name) <==> is_prefix(prefix, name)
            && is_suffix(".xml"@, name) && exists|i: nat|
            i < n && #[trigger] member_name(archive, i) == Ok::<Seq<char>, Fault>(name),
    decreases n,
{
    let all = members_under(archive, prefix, n)->Ok_0;
    if n > 0 {
        let m = (n - 1) as nat;
        every_member_under_a_prefix_is_listed(archive, prefix, m, name);
        let before = members_under(archive, prefix, m)->Ok_0;
        if before.contains(name) {
            let k = choose|k: int| 0 <= k < before.len() && before[k] == name;
            assert(all[k] == name);
        }
        if member_name(archive, m) == Ok::<Seq<char>, Fault>(name) {
            if is_prefix(prefix, name) && is_suffix(".xml"@, name) {
                assert(all[before.len() as int] == name);
            }
        }
        if all.contains(name) {
            let k = choose|k: int| 0 <= k < all.len() && all[k] == name;
            if k < before.len() {
                assert(before[k] == name);
            } else {
                assert(member_name(archive, m) == Ok::<Seq<char>, Fault>(name));
            }
        }
    }
}

/// Slides are read one after another: where the first ones gave no error, the
/// others go on from the text they left, and where one did, it is the end. A slide
/// that was read is followed by its mark.
pub proof fn slides_follow_one_another(
    archive: Seq<u8>,
    a: Seq<Seq<char>>,
    b: Seq<Seq<char>>,
    out: Seq<char>,
    limits: Limits,
    name: Seq<char>,
)
    ensures
        slides_text(archive, a + b, out, limits) == (match slides_text(archive, a, out, limits) {
            (t, None) => slides_text(archive, b, t, limits),
            (t, Some(e)) => (t, Some(e)),
        }),
        utf8_len(out) < limits.text && member_text(
            archive,
            name,
            TextSpec::Pptx,
            out,
            limits,
        ).1 is None ==> slides_text(archive, seq![name], out, limits) == (
            member_text(archive, name, TextSpec::Pptx, out, limits).0
                + "\n--- New Slide ---\n"@,
            None::<Fault>,
        ),
    decreases a.len(),
{
    assert(seq![name].skip(1) =~= seq![]);
    reveal_with_fuel(slides_text, 2);
    if a.len() == 0 {
        assert(a + b =~= b);
    } else {
        assert((a + b)[0] == a[0]);
        assert((a + b).skip(1) =~= a.skip(1) + b);
        if utf8_len(out) < limits.text {
            if let (t, None) = slide_text(archive, a[0], out, limits) {
                slides_follow_one_another(archive, a.skip(1), b, t, limits, name);
            }
        }
    }
}

/// Worksheets are read one after another: where the first ones gave no error, the
/// others go on from the text they left, and where one did, it is the end.
pub proof fn sheets_follow_one_another(
    archive: Seq<u8>,
    a: Seq<Seq<char>>,
    b: Seq<Seq<char>>,
    strings: Seq<Seq<char>>,
    out: Seq<char>,
    limits: Limits,
    name: Seq<char>,
    xml: Seq<u8>,
)
    ensures
        sheets_text(archive, a + b, strings, out, limits) == (match sheets_text(
            archive,
            a,
            strings,
            out,
            limits,
        ) {
            (t, None) => sheets_text(archive, b, strings, t, limits),
            (t, Some(e)) => (t, Some(e)),
        }),
        utf8_len(out) < limits.text && member_content(archive, name, limits.inflate as nat) == Ok::<
            Seq<u8>,
            Fault,
        >(xml) ==> sheets_text(archive, seq![name], strings, out, limits).0 == sheet_text(
            xml_events(xml),
            strings,
            false,
            false,
            out,
            limits.text as int,
        ).0,
    decreases a.len(),
{
    assert(seq![name].skip(1) =~= seq![]);
    reveal_with_fuel(sheets_text, 2);
    if a.len() == 0 {
        assert(a + b =~= b);
    } else {
        assert((a + b)[0] == a[0]);
        assert((a + b).skip(1) =~= a.skip(1) + b);
        if utf8_len(out) < limits.text {
            if let Ok(x) = member_content(archive, a[0], limits.inflate as nat) {
                let w = sheet_text(
                    xml_events(x),
                    strings,
                    false,
                    false,
                    out,
                    limits.text as int,
                );
                if w.1 is None {
                    sheets_follow_one_another(
                        archive,
                        a.skip(1),
                        b,
                        strings,
                        w.0,
                        limits,
                        name,
                        xml,
                    );
                }
            }
        }
    }
}

/// A workbook whose shared strings are missing or cannot be read is read without
/// them; one that has them is read with every one.
pub proof fn a_workbook_is_read_with_its_strings(
    archive: Seq<u8>,
    out: Seq<char>,
    limits: Limits,
    n: nat,
    names: Seq<Seq<char>>,
    e: Seq<char>,
    xml: Seq<u8>,
)
    requires
        zip_count(archive) == Ok::<nat, Seq<char>>(n),
        members_under(archive, "xl/worksheets/sheet"@, n) == Ok::<Seq<Seq<char>>, Fault>(names),
    ensures
        member_content(archive, "xl/sharedStrings.xml"@, limits.inflate as nat) == Err::<
            Seq<u8>,
            Fault,
        >(Fault::Failed(e)) ==> xlsx_text(archive, out, limits) == sheets_text(
            archive,
            names,
            seq![],
            out,
            limits,
        ),
        member_content(archive, "xl/sharedStrings.xml"@, limits.inflate as nat) == Ok::<
            Seq<u8>,
            Fault,
        >(xml) ==> xlsx_text(archive, out, limits) == sheets_text(
            archive,
            names,
            table_of(xml_events(xml), false, seq![], seq![]),
            out,
            limits,
        ),
{
}

/// Each format's text comes from the member that holds it: a text document from
/// its one member, with the elements of its own format, whatever else the archive
/// holds. What the walk of the member left, text and fault, is what is left.
pub proof fn a_document_is_read_from_its_member(
    body: Seq<u8>,
    rendered: Seq<Seq<char>>,
    out: Seq<char>,
    limits: Limits,
    xml: Seq<u8>,
)
    ensures
        member_content(body, "word/document.xml"@, limits.inflate as nat) == Ok::<Seq<u8>, Fault>(
            xml,
        ) ==> ({
            let w = xml_text(xml_events(xml), TextSpec::Docx, 0, out, limits.text as int);
            let d = office_text(body, "docx"@, rendered, out, limits);
            d.0 == w.0 && (d.1 is None <==> w.1 is None)
        }),
        member_content(body, "content.xml"@, limits.inflate as nat) == Ok::<Seq<u8>, Fault>(xml)
            ==> ({
            let w = xml_text(xml_events(xml), TextSpec::OdfText, 0, out, limits.text as int);
            let v = xml_text(xml_events(xml), TextSpec::OdfSheet, 0, out, limits.text as int);
            let t = office_text(body, "odt"@, rendered, out, limits);
            let p = office_text(body, "odp"@, rendered, out, limits);
            let s = office_text(body, "ods"@, rendered, out, limits);
            &&& t.0 == w.0 && (t.1 is None <==> w.1 is None)
            &&& p == t
            &&& s.0 == v.0 && (s.1 is None <==> v.1 is None)
        }),
        office_text(body, "xlsx"@, rendered, out, limits) == xlsx_text(body, out, limits),
        office_text(body, "pptx"@, rendered, out, limits) == pptx_text(body, out, limits),
        ole_text(body, "xls"@, rendered) matches Ok(t) ==> office_text(
            body,
            "xls"@,
            rendered,
            out,
            limits,
        ) == (out + ole_text(body, "xls"@, rendered)->Ok_0, None::<Fault>),
        ole_text(body, "doc"@, rendered) matches Ok(t) ==> office_text(
            body,
            "doc"@,
            rendered,
            out,
            limits,
        ) == (out + ole_text(body, "doc"@, rendered)->Ok_0, None::<Fault>),
        ole_text(body, "ppt"@, rendered) matches Ok(t) ==> office_text(
            body,
            "ppt"@,
            rendered,
            out,
            limits,
        ) == (out + ole_text(body, "ppt"@, rendered)->Ok_0, None::<Fault>),
{
    reveal_strlit("docx");
    reveal_strlit("xlsx");
    reveal_strlit("pptx");
    reveal_strlit("odt");
    reveal_strlit("odp");
    reveal_strlit("ods");
    reveal_strlit("doc");
    reveal_strlit("xls");
    reveal_strlit("ppt");
    assert("docx"@.len() == 4 && "xlsx"@.len() == 4 && "pptx"@.len() == 4);
    assert("docx"@[0] != "xlsx"@[0] && "docx"@[0] != "pptx"@[0] && "xlsx"@[0] != "pptx"@[0]);
    assert("odt"@.len() == 3 && "odp"@.len() == 3 && "ods"@.len() == 3);
    assert("doc"@.len() == 3 && "xls"@.len() == 3 && "ppt"@.len() == 3);
    assert("odt"@[2] != "ods"@[2] && "odp"@[2] != "ods"@[2]);
    assert("odt"@[0] != "doc"@[0] && "odt"@[0] != "xls"@[0] && "odt"@[0] != "ppt"@[0]);
    assert("odp"@[0] != "doc"@[0] && "odp"@[0] != "xls"@[0] && "odp"@[0] != "ppt"@[0]);
    assert("ods"@[0] != "doc"@[0] && "ods"@[0] != "xls"@[0] && "ods"@[0] != "ppt"@[0]);
}

/// The format of a document is the extension of its path, whatever its case: two
/// files of one content whose extensions differ only in that leave the same text.
pub proof fn the_case_of_an_extension_does_not_matter(
    a: FileView,
    b: FileView,
    out: Seq<char>,
    limits: Limits,
)
    requires
        a.body == b.body,
        a.rendered == b.rendered,
        extension(a.path, a.sep) is Some,
        extension(b.path, b.sep) is Some,
        lower(extension(a.path, a.sep)->Some_0) == lower(extension(b.path, b.sep)->Some_0),
    ensures
        document_extracted(a, out, limits).0 == document_extracted(b, out, limits).0,
        document_extracted(a, out, limits).1 is Some <==> document_extracted(b, out, limits).1 is Some,
        document_extracted(a, out, limits).0 == office_text(
            a.body,
            lower(extension(a.path, a.sep)->Some_0),
            a.rendered,
            out,
            limits,
        ).0,
        document_extracted(a, out, limits).1 is Some <==> office_text(
            a.body,
            lower(extension(a.path, a.sep)->Some_0),
            a.rendered,
            out,
            limits,
        ).1 is Some,
{
}

/// A name stands for the last member that has it.
pub proof fn a_name_stands_for_its_last_member(archive: Seq<u8>, name: Seq<char>, n: nat)
    ensures
        match last_named(archive, name, n) {
            Some(i) => {
                &&& i < n
                &&& zip_entry(archive, i) is Some
                &&& zip_entry(archive, i)->Some_0.0 == name
                &&& forall|j: nat|
                    i < j < n ==> ((#[trigger] zip_entry(archive, j)) is None || zip_entry(
                        archive,
                        j,
                    )->Some_0.0 != name)
            },
            None => forall|j: nat|
                j < n ==> ((#[trigger] zip_entry(archive, j)) is None || zip_entry(
                    archive,
                    j,
                )->Some_0.0 != name),
        },
    decreases n,
{
    if n > 0 {
        a_name_stands_for_its_last_member(archive, name, (n - 1) as nat);
    }
}

/// No two MIMEs stand for one extension, and every extension of an office format is
/// stood for by one.
pub proof fn a_mime_stands_for_one_extension(a: Seq<char>, b: Seq<char>)
    requires
        ext_of_mime(a) is Some,
        ext_of_mime(a) == ext_of_mime(b),
    ensures
        a == b,
        ext_of_mime("application/msword"@) == Some("doc"@),
        ext_of_mime("application/vnd.ms-excel"@) == Some("xls"@),
        ext_of_mime("application/vnd.ms-powerpoint"@) == Some("ppt"@),
{
    reveal_strlit("doc");
    reveal_strlit("docx");
    reveal_strlit("xls");
    reveal_strlit("xlsx");
    reveal_strlit("ppt");
    reveal_strlit("pptx");
    reveal_strlit("odt");
    reveal_strlit("ods");
    reveal_strlit("odp");
    assert("doc"@.len() == 3 && "docx"@.len() == 4 && "xls"@.len() == 3 && "xlsx"@.len() == 4
        && "ppt"@.len() == 3 && "pptx"@.len() == 4 && "odt"@.len() == 3 && "ods"@.len() == 3
        && "odp"@.len() == 3);
    assert("doc"@[0] == 'd' && "docx"@[0] == 'd' && "xls"@[0] == 'x' && "xlsx"@[0] == 'x'
        && "ppt"@[0] == 'p' && "pptx"@[0] == 'p' && "odt"@[0] == 'o' && "ods"@[0] == 'o'
        && "odp"@[0] == 'o');
    assert("odt"@[2] == 't' && "ods"@[2] == 's' && "odp"@[2] == 'p');
    reveal_strlit("application/msword");
    reveal_strlit("application/vnd.openxmlformats-officedocument.wordprocessingml.document");
    reveal_strlit("application/vnd.ms-excel");
    reveal_strlit("application/vnd.openxmlformats-officedocument.spreadsheetml.sheet");
    reveal_strlit("application/vnd.ms-powerpoint");
    assert("application/msword"@.len() == 18);
    assert("application/vnd.ms-excel"@.len() == 24);
    assert("application/vnd.ms-powerpoint"@.len() == 29);
    assert("application/vnd.openxmlformats-officedocument.wordprocessingml.document"@.len() == 71);
    assert("application/vnd.openxmlformats-officedocument.spreadsheetml.sheet"@.len() == 65);
}

/// An encryption field is its kind, its length and its vendor, byte by byte.
pub proof fn an_encryption_field_is_its_bytes(b: Seq<u8>, i: int)
    ensures
        encryption_field(b, i) <==> {
            &&& 0 <= i
            &&& i + 8 <= b.len()
            &&& b[i] == 0x01
            &&& b[i + 1] == 0x99
            &&& b[i + 2] == 7
            &&& b[i + 3] == 0
            &&& b[i + 6] == 0x41
            &&& b[i + 7] == 0x45
        },
        flagged(b, i) <==> -8 <= i && i + 10 <= b.len() && b[i + 8] % 2 == 1,
{
}

/// Only a member that the archive has, under a name that was asked for, can be one
/// that the reader panics on, and only in an archive that declares encryption.
pub proof fn only_a_member_can_trap(archive: Seq<u8>, name: Seq<char>)
    ensures
        traps_by_name(archive, name) ==> declares_encryption(archive) && zip_count(archive) is Ok
            && exists|i: nat|
            i < zip_count(archive)->Ok_0 && #[trigger] traps(archive, i) && zip_entry(
                archive,
                i,
            )->Some_0.0 == name && zip_entry(archive, i) is Some,
        (declares_encryption(archive) && zip_count(archive) is Ok && last_named(
            archive,
            name,
            zip_count(archive)->Ok_0,
        ) is Some && traps(
            archive,
            last_named(archive, name, zip_count(archive)->Ok_0)->Some_0,
        )) ==> traps_by_name(archive, name),
{
    if traps_by_name(archive, name) {
        let n = zip_count(archive)->Ok_0;
        lemma_last_named_is_named(archive, name, n);
        let i = last_named(archive, name, n)->Some_0;
        assert(traps(archive, i));
    }
}

proof fn lemma_last_named_is_named(archive: Seq<u8>, name: Seq<char>, n: nat)
    ensures
        last_named(archive, name, n) matches Some(i) ==> i < n && zip_entry(archive, i) is Some
            && zip_entry(archive, i)->Some_0.0 == name,
    decreases n,
{
    if n > 0 {
        lemma_last_named_is_named(archive, name, (n - 1) as nat);
    }
}

/// A member that the reader would panic on is never opened: it is reported as one,
/// and every other is what the reader says of it.
pub proof fn a_trap_is_never_opened(archive: Seq<u8>, index: nat)
    ensures
        traps(archive, index) <==> member_name(archive, index) == Err::<Seq<char>, Fault>(
            Fault::Panicked,
        ),
        !traps(archive, index) && zip_name(archive, index) is Ok ==> member_name(archive, index)
            == Ok::<Seq<char>, Fault>(zip_name(archive, index)->Ok_0),
        !traps(archive, index) && zip_name(archive, index) is Err ==> member_name(archive, index)
            == Err::<Seq<char>, Fault>(Fault::Failed(zip_name(archive, index)->Err_0)),
{
}

/// A walk leaves its text behind whether or not it failed, and fails exactly where
/// it says so.
pub proof fn a_walk_leaves_its_text(r: Result<(), String>, out: Seq<char>, w: Walked)
    ensures
        leaves(r, out, w) ==> out == w.0 && (r is Ok <==> w.1 is None),
        leaves(Ok(()), w.0, w) <==> w.1 is None,
        (leaves(r, out, w) && r is Err) ==> w.1 == Some(r->Err_0@),
{
}

/// A name that stands for such a member is not read either, and every other gives
/// what the reader read, or its error.
pub proof fn a_trap_is_never_read(archive: Seq<u8>, name: Seq<char>, limit: nat)
    ensures
        traps_by_name(archive, name) <==> member_content(archive, name, limit) == Err::<
            Seq<u8>,
            Fault,
        >(Fault::Panicked),
        !traps_by_name(archive, name) && zip_member(archive, name, limit) is Ok ==> member_content(
            archive,
            name,
            limit,
        ) == Ok::<Seq<u8>, Fault>(zip_member(archive, name, limit)->Ok_0),
        !traps_by_name(archive, name) && zip_member(archive, name, limit) is Err
            ==> member_content(archive, name, limit) == Err::<Seq<u8>, Fault>(
            Fault::Failed(zip_member(archive, name, limit)->Err_0),
        ),
{
}

} // verus!
