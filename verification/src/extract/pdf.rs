//! PDF. The parser is documented to panic on malformed files, so it always
//! runs outside this crate, inside a panic boundary.
use super::audio::{tag_text, tags_text};
use super::office::Walked;
use super::{
    Extractor, ExtractError, FileView, Limits, Outside, Parsed, ParsedView, Scratch, SourceFile,
};
use crate::text::{joined, push_str, same};
use vstd::prelude::*;

verus! {

/// What the outcome of a parse leaves behind.
pub open spec fn parse_outcome(parsed: Option<ParsedView>, out: Seq<char>) -> Walked {
    match parsed {
        Some(ParsedView::Text(t)) => (out + t, None),
        Some(ParsedView::Tags(v)) => (out + tags_text(v), None),
        Some(ParsedView::Failed(e)) => (out, Some("pdf_extract: "@ + e)),
        Some(ParsedView::Panicked(m)) => (out, Some("pdf_extract panicked: "@ + m)),
        None => (out, None),
    }
}

#[derive(Debug, Clone, Copy, PartialEq, Eq, Structural)]
pub struct PdfExtractor;

impl Extractor for PdfExtractor {
    open spec fn claims(&self, mime: Seq<char>) -> bool {
        mime == "application/pdf"@
    }

    open spec fn parses_outside(&self, body: Seq<u8>) -> Option<Outside> {
        Some(Outside::Pdf)
    }

    open spec fn head_parses_outside(&self, body: Seq<u8>) -> Option<Outside> {
        None
    }

    open spec fn extracted(&self, file: FileView, out: Seq<char>, limits: Limits) -> Walked {
        parse_outcome(file.parsed, out)
    }

    open spec fn head_extracted(&self, file: FileView, out: Seq<char>) -> Option<Walked> {
        None
    }

    open spec fn read_failure(&self, path: Seq<char>, error: Seq<char>) -> Seq<char> {
        "pdf_extract: "@ + error
    }

    fn supports(&self, mime: &str) -> (r: bool) {
        same(mime, "application/pdf")
    }

    fn read_error(&self, path: &str, error: &str) -> (r: String) {
        joined("pdf_extract: ", error)
    }

    fn runs_outside(&self, body: &[u8]) -> (r: Option<Outside>) {
        Some(Outside::Pdf)
    }

    fn head_runs_outside(&self, body: &[u8]) -> (r: Option<Outside>) {
        None
    }

    fn extract(&self, file: &SourceFile, out: &mut String, scratch: &Scratch) -> (r: Result<
        (),
        ExtractError,
    >) {
        match &file.parsed {
            Some(Parsed::Text(t)) => {
                push_str(out, t.as_str());
                Ok(())
            },
            Some(Parsed::Tags(v)) => {
                let text = tag_text(v);
                push_str(out, text.as_str());
                Ok(())
            },
            Some(Parsed::Failed(e)) => Err(joined("pdf_extract: ", e.as_str())),
            Some(Parsed::Panicked(m)) => Err(joined("pdf_extract panicked: ", m.as_str())),
            None => Ok(()),
        }
    }

    /// The trailer is at the end of the file, and the parser seeks.
    fn extract_from_head(&self, file: &SourceFile, out: &mut String) -> (r: Option<
        Result<(), ExtractError>,
    >) {
        None
    }
}

/// What the parser made of a document is its text, behind what was there; a parse
/// that failed or panicked is an error and adds nothing.
pub proof fn a_parse_is_the_text(out: Seq<char>, t: Seq<char>)
    ensures
        parse_outcome(Some(ParsedView::Text(t)), out) == (out + t, None::<Seq<char>>),
        parse_outcome(Some(ParsedView::Failed(t)), out).0 == out,
        parse_outcome(Some(ParsedView::Failed(t)), out).1 is Some,
        parse_outcome(Some(ParsedView::Panicked(t)), out).0 == out,
        parse_outcome(Some(ParsedView::Panicked(t)), out).1 is Some,
{
}

} // verus!
