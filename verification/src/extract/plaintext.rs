//! Plain text. UTF-8 is taken as it is; everything else goes through the
//! charset detection outside this crate.
use super::audio::{tag_text, tags_text};
use super::office::{leaves, Walked};
use super::{
    naming, panicked_on, Extractor, ExtractError, FileView, Limits, Outside, Parsed, ParsedView,
    Scratch, SourceFile,
};
use crate::text::{is_prefix, joined, push_str, same, starts_with, utf8_text};
use vstd::prelude::*;
use vstd::utf8::{decode_utf8, valid_utf8};

verus! {

/// MIMEs outside `text/*` that hold plain text. Those under `audio/` and
/// `image/` rely on this extractor registering before the ones for those.
pub const EXTRA_TEXT_MIMES: [&'static str; 23] = [
    "application/geo+json",
    "application/javascript",
    "application/json",
    "application/json5",
    "application/mbox",
    "application/vnd.dart",
    "application/x-csh",
    "application/x-httpd-php",
    "application/x-perl",
    "application/x-sh",
    "application/x-sql",
    "application/x-subrip",
    "application/x-tcl",
    "application/x-tex",
    "application/x-texinfo",
    "application/x-troff",
    "application/x-troff-man",
    "application/xhtml+xml",
    "application/xml",
    "audio/scpls",
    "audio/x-mpegurl",
    "image/svg+xml",
    "message/rfc822",
];

/// Whether a MIME stands in the list.
pub open spec fn listed(mime: Seq<char>) -> bool {
    exists|i: int| 0 <= i < 23 && mime == #[trigger] EXTRA_TEXT_MIMES@[i]@
}

fn is_listed(mime: &str) -> (r: bool)
    ensures
        r == listed(mime@),
{
    let list = EXTRA_TEXT_MIMES;
    let mut i: usize = 0;
    while i < 23
        invariant
            i <= 23,
            list == EXTRA_TEXT_MIMES,
            forall|k: int| 0 <= k < i ==> mime@ != #[trigger] EXTRA_TEXT_MIMES@[k]@,
        decreases 23 - i,
    {
        if same(mime, list[i]) {
            assert(mime@ == EXTRA_TEXT_MIMES@[i as int]@);
            return true;
        }
        i += 1;
    }
    false
}

/// Text that needs no detection: valid UTF-8 without a byte-order mark and
/// without a NUL.
pub open spec fn plain_utf8(body: Seq<u8>) -> bool {
    &&& valid_utf8(body)
    &&& !body.contains(0)
    &&& !(body.len() >= 3 && body[0] == 0xEF && body[1] == 0xBB && body[2] == 0xBF)
}

fn is_plain_utf8(body: &[u8]) -> (r: Option<String>)
    ensures
        match r {
            Some(s) => plain_utf8(body@) && s@ == decode_utf8(body@),
            None => !plain_utf8(body@),
        },
{
    if body.len() >= 3 && body[0] == 0xEF && body[1] == 0xBB && body[2] == 0xBF {
        return None;
    }
    let mut i: usize = 0;
    while i < body.len()
        invariant
            i <= body@.len(),
            forall|k: int| 0 <= k < i ==> body@[k] != 0,
        decreases body@.len() - i,
    {
        if body[i] == 0 {
            assert(body@.contains(body@[i as int]));
            return None;
        }
        i += 1;
    }
    utf8_text(body)
}

/// The text of a file, after `out`.
pub open spec fn decoded(file: FileView, out: Seq<char>) -> Walked {
    if plain_utf8(file.body) {
        (out + decode_utf8(file.body), None)
    } else {
        match file.parsed {
            Some(ParsedView::Text(t)) => (out + t, None),
            Some(ParsedView::Tags(v)) => (out + tags_text(v), None),
            Some(ParsedView::Failed(e)) => (out, Some(e)),
            Some(ParsedView::Panicked(_)) => (out, Some(panicked_on(file.path))),
            None => (out, None),
        }
    }
}

fn decode(file: &SourceFile, out: &mut String) -> (r: Result<(), ExtractError>)
    requires
        !plain_utf8(file@.body) ==> file@.parsed is Some,
    ensures
        leaves(r, final(out)@, decoded(file@, old(out)@)),
{
    match is_plain_utf8(file.body.as_slice()) {
        Some(text) => {
            push_str(out, text.as_str());
            Ok(())
        },
        None => match &file.parsed {
            Some(Parsed::Text(t)) => {
                push_str(out, t.as_str());
                Ok(())
            },
            Some(Parsed::Tags(v)) => {
                let text = tag_text(v);
                push_str(out, text.as_str());
                Ok(())
            },
            Some(Parsed::Failed(e)) => Err(e.clone()),
            Some(Parsed::Panicked(_)) => Err(joined("extractor panicked on ", file.path.as_str())),
            None => Ok(()),
        },
    }
}

#[derive(Debug, Clone, Copy, PartialEq, Eq, Structural)]
pub struct PlaintextExtractor;

impl Extractor for PlaintextExtractor {
    open spec fn claims(&self, mime: Seq<char>) -> bool {
        is_prefix("text/"@, mime) || listed(mime)
    }

    open spec fn parses_outside(&self, body: Seq<u8>) -> Option<Outside> {
        if plain_utf8(body) {
            None
        } else {
            Some(Outside::Charset)
        }
    }

    open spec fn head_parses_outside(&self, body: Seq<u8>) -> Option<Outside> {
        self.parses_outside(body)
    }

    open spec fn extracted(&self, file: FileView, out: Seq<char>, limits: Limits) -> Walked {
        decoded(file, out)
    }

    open spec fn head_extracted(&self, file: FileView, out: Seq<char>) -> Option<Walked> {
        Some(decoded(file, out))
    }

    open spec fn read_failure(&self, path: Seq<char>, error: Seq<char>) -> Seq<char> {
        "plaintext read "@ + path + ": "@ + error
    }

    fn supports(&self, mime: &str) -> (r: bool) {
        starts_with(mime, "text/") || is_listed(mime)
    }

    fn read_error(&self, path: &str, error: &str) -> (r: String) {
        naming("plaintext read ", path, error)
    }

    fn runs_outside(&self, body: &[u8]) -> (r: Option<Outside>) {
        match is_plain_utf8(body) {
            Some(_) => None,
            None => Some(Outside::Charset),
        }
    }

    fn head_runs_outside(&self, body: &[u8]) -> (r: Option<Outside>) {
        self.runs_outside(body)
    }

    fn extract(&self, file: &SourceFile, out: &mut String, scratch: &Scratch) -> (r: Result<
        (),
        ExtractError,
    >) {
        decode(file, out)
    }

    fn extract_from_head(&self, file: &SourceFile, out: &mut String) -> (r: Option<
        Result<(), ExtractError>,
    >) {
        Some(decode(file, out))
    }
}

/// One step of reading a file into a buffer of a known size: how many bytes
/// are filled, and what the read said.
#[derive(Debug, Clone, Copy, PartialEq, Eq, Structural)]
pub enum ReadEvent {
    /// That many bytes came; none at the end of the file.
    Got(usize),
    /// A signal came in between; nothing was read.
    Interrupted,
    /// The read failed.
    Failed,
}

/// What to do after a read.
#[derive(Debug, Clone, Copy, PartialEq, Eq, Structural)]
pub enum ReadStep {
    /// Read again, into the buffer from this offset on.
    Again(usize),
    /// Keep this many bytes.
    Keep(usize),
    /// Give up on the file.
    Abandon,
}

/// How many bytes of a file to ask for: its size, capped.
pub fn sized_read(size: usize, cap: usize) -> (r: usize)
    ensures
        r == if size < cap {
            size
        } else {
            cap
        },
{
    if size < cap {
        size
    } else {
        cap
    }
}

/// The step after a read of a file of `size` bytes with `filled` in hand. A
/// short read is no error: a file that shrank keeps its prefix.
pub fn read_sized(size: usize, filled: usize, event: ReadEvent) -> (step: ReadStep)
    requires
        filled < size,
        event matches ReadEvent::Got(n) ==> filled + n <= size,
    ensures
        step == (match event {
            ReadEvent::Got(n) => if n == 0 {
                ReadStep::Keep(filled)
            } else if filled + n == size {
                ReadStep::Keep(size)
            } else {
                ReadStep::Again((filled + n) as usize)
            },
            ReadEvent::Interrupted => ReadStep::Again(filled),
            ReadEvent::Failed => ReadStep::Abandon,
        }),
{
    match event {
        ReadEvent::Got(n) => {
            if n == 0 {
                ReadStep::Keep(filled)
            } else if filled + n == size {
                ReadStep::Keep(size)
            } else {
                ReadStep::Again(filled + n)
            }
        },
        ReadEvent::Interrupted => ReadStep::Again(filled),
        ReadEvent::Failed => ReadStep::Abandon,
    }
}

/// Valid UTF-8 without a NUL and without a byte-order mark is taken as it is,
/// whatever the charset detection would say, which is then not asked; everything
/// else is what the detection made of it.
pub proof fn utf8_is_taken_as_it_is(file: FileView, out: Seq<char>, limits: Limits, t: Seq<char>)
    requires
        valid_utf8(file.body),
        forall|i: int| 0 <= i < file.body.len() ==> (#[trigger] file.body[i]) != 0,
        file.body.len() < 3 || file.body[0] != 0xEF || file.body[1] != 0xBB || file.body[2] != 0xBF,
    ensures
        decoded(file, out) == (out + decode_utf8(file.body), None::<Seq<char>>),
        PlaintextExtractor.parses_outside(file.body) is None,
        PlaintextExtractor.head_extracted(file, out) == Some(decoded(file, out)),
{
}

/// A file that is no plain UTF-8, by a NUL, a byte-order mark or an invalid
/// sequence, goes through the charset detection, and its text is the one that came
/// back; a failure is an error and adds nothing.
pub proof fn other_text_is_what_the_detection_made(file: FileView, out: Seq<char>, t: Seq<char>)
    requires
        !valid_utf8(file.body) || file.body.contains(0) || (file.body.len() >= 3 && file.body[0]
            == 0xEF && file.body[1] == 0xBB && file.body[2] == 0xBF),
    ensures
        PlaintextExtractor.parses_outside(file.body) == Some(Outside::Charset),
        file.parsed == Some(ParsedView::Text(t)) ==> decoded(file, out) == (
            out + t,
            None::<Seq<char>>,
        ),
        file.parsed == Some(ParsedView::Failed(t)) ==> decoded(file, out) == (out, Some(t)),
        file.parsed == Some(ParsedView::Panicked(t)) ==> decoded(file, out).1 is Some && decoded(
            file,
            out,
        ).0 == out,
{
}

/// The formats outside `text/*` that are read as plain text.
pub proof fn these_formats_are_plain_text()
    ensures
        listed("application/geo+json"@),
        listed("application/javascript"@),
        listed("application/json"@),
        listed("application/json5"@),
        listed("application/mbox"@),
        listed("application/vnd.dart"@),
        listed("application/x-csh"@),
        listed("application/x-httpd-php"@),
        listed("application/x-perl"@),
        listed("application/x-sh"@),
        listed("application/x-sql"@),
        listed("application/x-subrip"@),
        listed("application/x-tcl"@),
        listed("application/x-tex"@),
        listed("application/x-texinfo"@),
        listed("application/x-troff"@),
        listed("application/x-troff-man"@),
        listed("application/xhtml+xml"@),
        listed("application/xml"@),
        listed("audio/scpls"@),
        listed("audio/x-mpegurl"@),
        listed("image/svg+xml"@),
        listed("message/rfc822"@),
{
    assert(EXTRA_TEXT_MIMES@[0]@ == "application/geo+json"@);
    assert(EXTRA_TEXT_MIMES@[1]@ == "application/javascript"@);
    assert(EXTRA_TEXT_MIMES@[2]@ == "application/json"@);
    assert(EXTRA_TEXT_MIMES@[3]@ == "application/json5"@);
    assert(EXTRA_TEXT_MIMES@[4]@ == "application/mbox"@);
    assert(EXTRA_TEXT_MIMES@[5]@ == "application/vnd.dart"@);
    assert(EXTRA_TEXT_MIMES@[6]@ == "application/x-csh"@);
    assert(EXTRA_TEXT_MIMES@[7]@ == "application/x-httpd-php"@);
    assert(EXTRA_TEXT_MIMES@[8]@ == "application/x-perl"@);
    assert(EXTRA_TEXT_MIMES@[9]@ == "application/x-sh"@);
    assert(EXTRA_TEXT_MIMES@[10]@ == "application/x-sql"@);
    assert(EXTRA_TEXT_MIMES@[11]@ == "application/x-subrip"@);
    assert(EXTRA_TEXT_MIMES@[12]@ == "application/x-tcl"@);
    assert(EXTRA_TEXT_MIMES@[13]@ == "application/x-tex"@);
    assert(EXTRA_TEXT_MIMES@[14]@ == "application/x-texinfo"@);
    assert(EXTRA_TEXT_MIMES@[15]@ == "application/x-troff"@);
    assert(EXTRA_TEXT_MIMES@[16]@ == "application/x-troff-man"@);
    assert(EXTRA_TEXT_MIMES@[17]@ == "application/xhtml+xml"@);
    assert(EXTRA_TEXT_MIMES@[18]@ == "application/xml"@);
    assert(EXTRA_TEXT_MIMES@[19]@ == "audio/scpls"@);
    assert(EXTRA_TEXT_MIMES@[20]@ == "audio/x-mpegurl"@);
    assert(EXTRA_TEXT_MIMES@[21]@ == "image/svg+xml"@);
    assert(EXTRA_TEXT_MIMES@[22]@ == "message/rfc822"@);
}

/// Everything under the type of texts is plain text, and so is every listed format;
/// nothing else is.
pub proof fn texts_and_listed_formats_are_claimed(subtype: Seq<char>, mime: Seq<char>)
    ensures
        PlaintextExtractor.claims("text/"@ + subtype),
        listed(mime) ==> PlaintextExtractor.claims(mime),
        PlaintextExtractor.claims(mime) ==> listed(mime) || mime == "text/"@ + mime.skip(
            "text/"@.len() as int,
        ),
{
    assert(("text/"@ + subtype).take("text/"@.len() as int) =~= "text/"@);
    if is_prefix("text/"@, mime) {
        assert(mime =~= "text/"@ + mime.skip("text/"@.len() as int));
    }
}

} // verus!
