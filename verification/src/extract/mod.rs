//! Content extractors: the searchable text of a file. The [`Registry`] runs
//! the first registered [`Extractor`] that accepts the MIME.
//!
//! An extractor works on bytes in hand. Some formats go through a parser that
//! may panic on malformed input, or through the charset detection; those run
//! outside this crate, inside a panic boundary, and what came back is part of
//! the [`SourceFile`]. [`Registry::runs_outside`] says when, and which.
pub mod audio;
pub mod image;
pub mod office;
pub mod ole;
pub mod pdf;
pub mod plaintext;
pub mod rtf;

use crate::config::Config;
use crate::paths::Separator;
use crate::text::{ascii_lowercase, joined, lower, maybe, texts};
use audio::{AudioExtractor, TagSet, TagsView};
use image::ImageExtractor;
use office::{OfficeExtractor, Walked};
use pdf::PdfExtractor;
use plaintext::PlaintextExtractor;
use rtf::RtfExtractor;
use vstd::prelude::*;

verus! {

/// The reason is stored on the file row, so it is meant for people to read.
pub type ExtractError = String;

/// The ceilings one extraction works under.
#[derive(Debug, Clone, Copy, PartialEq, Eq, Structural)]
pub struct Limits {
    /// Largest file body to read. A backstop rather than a policy: it catches
    /// a file that grew since the walk sized it.
    pub read: usize,
    /// Largest text an extraction may produce. Past this the caller truncates,
    /// so extractors stop here instead.
    pub text: usize,
    /// Largest a single container member may inflate to.
    pub inflate: usize,
}

/// Headroom between the text kept and the markup carrying it.
pub const INFLATE_FACTOR: usize = 16;

/// Absolute ceiling on the inflation budget: it is held per worker, so it
/// cannot be allowed to scale with a setting freely.
pub const MAX_INFLATE: usize = 67108864;

impl Limits {
    /// The limits that two settings make.
    pub open spec fn of(text: usize, file: u64) -> Limits {
        let text = if text == 0 {
            1
        } else {
            text
        };
        Limits {
            read: if file <= usize::MAX {
                file as usize
            } else {
                usize::MAX
            },
            text,
            inflate: if text * INFLATE_FACTOR < MAX_INFLATE {
                (text * INFLATE_FACTOR) as usize
            } else {
                MAX_INFLATE
            },
        }
    }

    pub fn for_config(config: &Config) -> (r: Limits)
        ensures
            r == Limits::of(
                config.processing.maximum_text_size,
                config.processing.maximum_text_file_size,
            ),
    {
        let text: usize = if config.processing.maximum_text_size == 0 {
            1
        } else {
            config.processing.maximum_text_size
        };
        let file: u64 = config.processing.maximum_text_file_size;
        let read: usize = if file <= usize::MAX as u64 {
            file as usize
        } else {
            usize::MAX
        };
        let inflate: usize = if text < MAX_INFLATE / INFLATE_FACTOR {
            text * INFLATE_FACTOR
        } else {
            MAX_INFLATE
        };
        Limits { read, text, inflate }
    }
}

/// What one worker reuses for every file it handles.
#[derive(Debug)]
pub struct Scratch {
    /// The head bytes a walk worker hashes and sniffs each file from.
    head: Vec<u8>,
    limits: Limits,
}

impl Scratch {
    /// The head bytes.
    pub closed spec fn head_view(&self) -> Seq<u8> {
        self.head@
    }

    /// The limits.
    pub closed spec fn limits_view(&self) -> Limits {
        self.limits
    }

    pub fn new(config: &Config) -> (r: Scratch)
        ensures
            r.head_view() == Seq::<u8>::empty(),
            r.limits_view() == Limits::of(
                config.processing.maximum_text_size,
                config.processing.maximum_text_file_size,
            ),
    {
        Scratch { head: Vec::new(), limits: Limits::for_config(config) }
    }

    pub fn limits(&self) -> (r: Limits)
        ensures
            r == self.limits_view(),
    {
        self.limits
    }

    /// The head buffer, to be read into. Reused across files.
    pub fn head_buffer(&mut self) -> (r: &mut Vec<u8>)
        ensures
            r@ == old(self).head_view(),
            final(self).head_view() == final(r)@,
            final(self).limits_view() == old(self).limits_view(),
    {
        &mut self.head
    }

    pub fn head(&self) -> (r: &[u8])
        ensures
            r@ == self.head_view(),
    {
        self.head.as_slice()
    }
}

/// The parsers that run outside this crate.
#[derive(Debug, Clone, Copy, PartialEq, Eq, Structural)]
pub enum Outside {
    /// The text of a PDF.
    Pdf,
    /// Text in whatever charset it seems to be in.
    Charset,
    /// The tags of an audio file.
    Tags,
}

/// What a parser outside this crate made of a file.
#[derive(Debug)]
pub enum Parsed {
    Text(String),
    Tags(TagSet),
    Failed(String),
    /// It panicked; the message is the panic's.
    Panicked(String),
}

/// A [`Parsed`] by its contents.
pub enum ParsedView {
    Text(Seq<char>),
    Tags(TagsView),
    Failed(Seq<char>),
    Panicked(Seq<char>),
}

impl View for Parsed {
    type V = ParsedView;

    open spec fn view(&self) -> ParsedView {
        match *self {
            Parsed::Text(t) => ParsedView::Text(t@),
            Parsed::Tags(v) => ParsedView::Tags(v@),
            Parsed::Failed(e) => ParsedView::Failed(e@),
            Parsed::Panicked(m) => ParsedView::Panicked(m@),
        }
    }
}

/// A file to take the text of.
#[derive(Debug)]
pub struct SourceFile {
    /// Names the file in messages, and its extension picks the format where
    /// the MIME does not.
    pub path: String,
    /// What divides its path.
    pub sep: Separator,
    /// Its contents.
    pub body: Vec<u8>,
    /// What the parser outside made of them, where it was asked.
    pub parsed: Option<Parsed>,
    /// What the floating-point formatter wrote for the number cells of a
    /// legacy workbook; see [`ole::xls`].
    pub rendered: Vec<String>,
}

/// A [`SourceFile`] by its contents.
pub struct FileView {
    pub path: Seq<char>,
    pub sep: Separator,
    pub body: Seq<u8>,
    pub parsed: Option<ParsedView>,
    pub rendered: Seq<Seq<char>>,
}

impl View for SourceFile {
    type V = FileView;

    open spec fn view(&self) -> FileView {
        FileView {
            path: self.path@,
            sep: self.sep,
            body: self.body@,
            parsed: match self.parsed {
                Some(p) => Some(p@),
                None => None,
            },
            rendered: texts(self.rendered@),
        }
    }
}

/// The error for a file on which a parser panicked.
pub open spec fn panicked_on(path: Seq<char>) -> Seq<char> {
    "extractor panicked on "@ + path
}

/// A message that names the file.
fn naming(head: &str, path: &str, error: &str) -> (r: String)
    ensures
        r@ == head@ + path@ + ": "@ + error@,
{
    let named = joined(head, path);
    let named = joined(named.as_str(), ": ");
    joined(named.as_str(), error)
}

/// A content extractor; stateless. Text is appended to `out` rather than
/// returned.
pub trait Extractor {
    /// Whether it takes files of this MIME, which is in lower case.
    spec fn claims(&self, mime: Seq<char>) -> bool;

    /// The parser outside that a file goes through.
    spec fn parses_outside(&self, body: Seq<u8>) -> Option<Outside>;

    /// The one that a complete head goes through. Formats that leave a head
    /// alone have none.
    spec fn head_parses_outside(&self, body: Seq<u8>) -> Option<Outside>;

    /// What an extraction leaves behind.
    spec fn extracted(&self, file: FileView, out: Seq<char>, limits: Limits) -> Walked;

    /// What an extraction from a complete head leaves behind; nothing where
    /// the format needs the file on disk.
    spec fn head_extracted(&self, file: FileView, out: Seq<char>) -> Option<Walked>;

    /// What the row of a file that cannot be read records.
    spec fn read_failure(&self, path: Seq<char>, error: Seq<char>) -> Seq<char>;

    /// `mime` is normalized to lower case before dispatch.
    fn supports(&self, mime: &str) -> (r: bool)
        ensures
            r == self.claims(mime@),
    ;

    /// The reason to record for a file that cannot be read.
    fn read_error(&self, path: &str, error: &str) -> (r: String)
        ensures
            r@ == self.read_failure(path@, error@),
    ;

    /// The parser outside that the file with this body has to go through
    /// before its text is extracted.
    fn runs_outside(&self, body: &[u8]) -> (r: Option<Outside>)
        ensures
            r == self.parses_outside(body@),
    ;

    /// The one before its text is extracted from its head.
    fn head_runs_outside(&self, body: &[u8]) -> (r: Option<Outside>)
        ensures
            r == self.head_parses_outside(body@),
    ;

    /// Extract this file's searchable text into `out`. An error marks the
    /// file's content failed. Empty text is fine: filename search still works.
    fn extract(&self, file: &SourceFile, out: &mut String, scratch: &Scratch) -> (r: Result<
        (),
        ExtractError,
    >)
        requires
            self.parses_outside(file@.body) is Some ==> file@.parsed is Some,
        ensures
            office::leaves(
                r,
                final(out)@,
                self.extracted(file@, old(out)@, scratch.limits_view()),
            ),
    ;

    /// Extract from bytes that are the file's entire contents, already in
    /// memory at walk time. `None` means the file has to be read from disk:
    /// formats that seek or read a trailer.
    fn extract_from_head(&self, file: &SourceFile, out: &mut String) -> (r: Option<
        Result<(), ExtractError>,
    >)
        requires
            self.head_parses_outside(file@.body) is Some ==> file@.parsed is Some,
        ensures
            match (r, self.head_extracted(file@, old(out)@)) {
                (Some(x), Some(w)) => office::leaves(x, final(out)@, w),
                (None, None) => final(out)@ == old(out)@,
                _ => false,
            },
    ;
}

/// The extractors there are.
#[derive(Debug, Clone, Copy, PartialEq, Eq, Structural)]
pub enum AnyExtractor {
    Rtf(RtfExtractor),
    Plaintext(PlaintextExtractor),
    Office(OfficeExtractor),
    Pdf(PdfExtractor),
    Audio(AudioExtractor),
    Image(ImageExtractor),
}

impl Extractor for AnyExtractor {
    open spec fn claims(&self, mime: Seq<char>) -> bool {
        match *self {
            AnyExtractor::Rtf(e) => e.claims(mime),
            AnyExtractor::Plaintext(e) => e.claims(mime),
            AnyExtractor::Office(e) => e.claims(mime),
            AnyExtractor::Pdf(e) => e.claims(mime),
            AnyExtractor::Audio(e) => e.claims(mime),
            AnyExtractor::Image(e) => e.claims(mime),
        }
    }

    open spec fn parses_outside(&self, body: Seq<u8>) -> Option<Outside> {
        match *self {
            AnyExtractor::Rtf(e) => e.parses_outside(body),
            AnyExtractor::Plaintext(e) => e.parses_outside(body),
            AnyExtractor::Office(e) => e.parses_outside(body),
            AnyExtractor::Pdf(e) => e.parses_outside(body),
            AnyExtractor::Audio(e) => e.parses_outside(body),
            AnyExtractor::Image(e) => e.parses_outside(body),
        }
    }

    open spec fn head_parses_outside(&self, body: Seq<u8>) -> Option<Outside> {
        match *self {
            AnyExtractor::Rtf(e) => e.head_parses_outside(body),
            AnyExtractor::Plaintext(e) => e.head_parses_outside(body),
            AnyExtractor::Office(e) => e.head_parses_outside(body),
            AnyExtractor::Pdf(e) => e.head_parses_outside(body),
            AnyExtractor::Audio(e) => e.head_parses_outside(body),
            AnyExtractor::Image(e) => e.head_parses_outside(body),
        }
    }

    open spec fn extracted(&self, file: FileView, out: Seq<char>, limits: Limits) -> Walked {
        match *self {
            AnyExtractor::Rtf(e) => e.extracted(file, out, limits),
            AnyExtractor::Plaintext(e) => e.extracted(file, out, limits),
            AnyExtractor::Office(e) => e.extracted(file, out, limits),
            AnyExtractor::Pdf(e) => e.extracted(file, out, limits),
            AnyExtractor::Audio(e) => e.extracted(file, out, limits),
            AnyExtractor::Image(e) => e.extracted(file, out, limits),
        }
    }

    open spec fn head_extracted(&self, file: FileView, out: Seq<char>) -> Option<Walked> {
        match *self {
            AnyExtractor::Rtf(e) => e.head_extracted(file, out),
            AnyExtractor::Plaintext(e) => e.head_extracted(file, out),
            AnyExtractor::Office(e) => e.head_extracted(file, out),
            AnyExtractor::Pdf(e) => e.head_extracted(file, out),
            AnyExtractor::Audio(e) => e.head_extracted(file, out),
            AnyExtractor::Image(e) => e.head_extracted(file, out),
        }
    }

    open spec fn read_failure(&self, path: Seq<char>, error: Seq<char>) -> Seq<char> {
        match *self {
            AnyExtractor::Rtf(e) => e.read_failure(path, error),
            AnyExtractor::Plaintext(e) => e.read_failure(path, error),
            AnyExtractor::Office(e) => e.read_failure(path, error),
            AnyExtractor::Pdf(e) => e.read_failure(path, error),
            AnyExtractor::Audio(e) => e.read_failure(path, error),
            AnyExtractor::Image(e) => e.read_failure(path, error),
        }
    }

    fn supports(&self, mime: &str) -> (r: bool) {
        match self {
            AnyExtractor::Rtf(e) => e.supports(mime),
            AnyExtractor::Plaintext(e) => e.supports(mime),
            AnyExtractor::Office(e) => e.supports(mime),
            AnyExtractor::Pdf(e) => e.supports(mime),
            AnyExtractor::Audio(e) => e.supports(mime),
            AnyExtractor::Image(e) => e.supports(mime),
        }
    }

    fn read_error(&self, path: &str, error: &str) -> (r: String) {
        match self {
            AnyExtractor::Rtf(e) => e.read_error(path, error),
            AnyExtractor::Plaintext(e) => e.read_error(path, error),
            AnyExtractor::Office(e) => e.read_error(path, error),
            AnyExtractor::Pdf(e) => e.read_error(path, error),
            AnyExtractor::Audio(e) => e.read_error(path, error),
            AnyExtractor::Image(e) => e.read_error(path, error),
        }
    }

    fn runs_outside(&self, body: &[u8]) -> (r: Option<Outside>) {
        match self {
            AnyExtractor::Rtf(e) => e.runs_outside(body),
            AnyExtractor::Plaintext(e) => e.runs_outside(body),
            AnyExtractor::Office(e) => e.runs_outside(body),
            AnyExtractor::Pdf(e) => e.runs_outside(body),
            AnyExtractor::Audio(e) => e.runs_outside(body),
            AnyExtractor::Image(e) => e.runs_outside(body),
        }
    }

    fn head_runs_outside(&self, body: &[u8]) -> (r: Option<Outside>) {
        match self {
            AnyExtractor::Rtf(e) => e.head_runs_outside(body),
            AnyExtractor::Plaintext(e) => e.head_runs_outside(body),
            AnyExtractor::Office(e) => e.head_runs_outside(body),
            AnyExtractor::Pdf(e) => e.head_runs_outside(body),
            AnyExtractor::Audio(e) => e.head_runs_outside(body),
            AnyExtractor::Image(e) => e.head_runs_outside(body),
        }
    }

    fn extract(&self, file: &SourceFile, out: &mut String, scratch: &Scratch) -> (r: Result<
        (),
        ExtractError,
    >) {
        match self {
            AnyExtractor::Rtf(e) => e.extract(file, out, scratch),
            AnyExtractor::Plaintext(e) => e.extract(file, out, scratch),
            AnyExtractor::Office(e) => e.extract(file, out, scratch),
            AnyExtractor::Pdf(e) => e.extract(file, out, scratch),
            AnyExtractor::Audio(e) => e.extract(file, out, scratch),
            AnyExtractor::Image(e) => e.extract(file, out, scratch),
        }
    }

    fn extract_from_head(&self, file: &SourceFile, out: &mut String) -> (r: Option<
        Result<(), ExtractError>,
    >) {
        match self {
            AnyExtractor::Rtf(e) => e.extract_from_head(file, out),
            AnyExtractor::Plaintext(e) => e.extract_from_head(file, out),
            AnyExtractor::Office(e) => e.extract_from_head(file, out),
            AnyExtractor::Pdf(e) => e.extract_from_head(file, out),
            AnyExtractor::Audio(e) => e.extract_from_head(file, out),
            AnyExtractor::Image(e) => e.extract_from_head(file, out),
        }
    }
}

/// The first extractor that claims a MIME, in any case of its letters.
pub open spec fn claimant(extractors: Seq<AnyExtractor>, mime: Seq<char>) -> Option<AnyExtractor>
    decreases extractors.len(),
{
    if extractors.len() == 0 {
        None
    } else if extractors[0].claims(lower(mime)) {
        Some(extractors[0])
    } else {
        claimant(extractors.skip(1), mime)
    }
}

/// An ordered dispatch table: the first extractor claiming the MIME wins.
#[derive(Debug, Clone)]
pub struct Registry {
    extractors: Vec<AnyExtractor>,
}

impl View for Registry {
    type V = Seq<AnyExtractor>;

    closed spec fn view(&self) -> Seq<AnyExtractor> {
        self.extractors@
    }
}

/// The text of a file, or why it has none; nothing where no extractor claims
/// its MIME.
pub open spec fn extracted_text(
    extractors: Seq<AnyExtractor>,
    file: FileView,
    mime: Seq<char>,
    limits: Limits,
) -> Result<Option<Seq<char>>, Seq<char>> {
    match claimant(extractors, mime) {
        None => Ok(None),
        Some(e) => {
            let w = e.extracted(file, seq![], limits);
            match w.1 {
                Some(reason) => Err(reason),
                None => Ok(Some(w.0)),
            }
        },
    }
}

/// Whether a file that goes through the parser outside has been through it.
pub open spec fn ready(extractors: Seq<AnyExtractor>, mime: Seq<char>, file: FileView) -> bool {
    match claimant(extractors, mime) {
        Some(e) => e.parses_outside(file.body) is Some ==> file.parsed is Some,
        None => true,
    }
}

/// Whether a complete head that goes through the parser outside has been
/// through it.
pub open spec fn ready_head(
    extractors: Seq<AnyExtractor>,
    mime: Seq<char>,
    file: FileView,
) -> bool {
    match claimant(extractors, mime) {
        Some(e) => e.head_parses_outside(file.body) is Some ==> file.parsed is Some,
        None => true,
    }
}

impl Registry {
    /// A registry that claims nothing.
    pub fn new() -> (r: Self)
        ensures
            r@ == Seq::<AnyExtractor>::empty(),
    {
        Registry { extractors: Vec::new() }
    }

    fn find(&self, mime: &str) -> (r: Option<AnyExtractor>)
        ensures
            r == claimant(self@, mime@),
    {
        let lowered = ascii_lowercase(mime);
        let mut i: usize = 0;
        assert(self@.skip(0) =~= self@);
        while i < self.extractors.len()
            invariant
                i <= self.extractors@.len(),
                lowered@ == lower(mime@),
                claimant(self@.skip(i as int), mime@) == claimant(self@, mime@),
            decreases self.extractors@.len() - i,
        {
            proof {
                assert(self@.skip(i as int)[0] == self.extractors@[i as int]);
                assert(self@.skip(i as int).skip(1) =~= self@.skip(i + 1));
            }
            let e = self.extractors[i];
            if e.supports(lowered.as_str()) {
                return Some(e);
            }
            i += 1;
        }
        None
    }

    /// Whether any extractor claims `mime`, without touching the file.
    pub fn supports(&self, mime: &str) -> (r: bool)
        ensures
            r == (claimant(self@, mime@) is Some),
    {
        self.find(mime).is_some()
    }

    /// The parser outside that a file has to go through before its text can be
    /// extracted.
    pub fn runs_outside(&self, mime: &str, body: &[u8]) -> (r: Option<Outside>)
        ensures
            r == (match claimant(self@, mime@) {
                Some(e) => e.parses_outside(body@),
                None => None,
            }),
    {
        match self.find(mime) {
            Some(e) => e.runs_outside(body),
            None => None,
        }
    }

    /// The one that a complete head has to go through.
    pub fn head_runs_outside(&self, mime: &str, head: &[u8]) -> (r: Option<Outside>)
        ensures
            r == (match claimant(self@, mime@) {
                Some(e) => e.head_parses_outside(head@),
                None => None,
            }),
    {
        match self.find(mime) {
            Some(e) => e.head_runs_outside(head),
            None => None,
        }
    }

    /// The reason to record for a file of this MIME that cannot be read;
    /// nothing where no extractor would have read it.
    pub fn read_error(&self, mime: &str, path: &str, error: &str) -> (r: Option<String>)
        ensures
            maybe(r) == (match claimant(self@, mime@) {
                Some(e) => Some(e.read_failure(path@, error@)),
                None => None,
            }),
    {
        match self.find(mime) {
            Some(e) => Some(e.read_error(path, error)),
            None => None,
        }
    }

    /// Run the handler for `mime`, appending the file's text to `out`.
    /// `Ok(false)` means no extractor claims the MIME and `out` was not
    /// touched.
    pub fn extract(&self, file: &SourceFile, mime: &str, out: &mut String, scratch: &Scratch) -> (r:
        Result<bool, ExtractError>)
        requires
            ready(self@, mime@, file@),
        ensures
            match claimant(self@, mime@) {
                None => r == Ok::<bool, ExtractError>(false) && final(out)@ == old(out)@,
                Some(e) => {
                    let w = e.extracted(file@, old(out)@, scratch.limits_view());
                    &&& final(out)@ == w.0
                    &&& match r {
                        Ok(b) => b && w.1 is None,
                        Err(x) => w.1 == Some(x@),
                    }
                },
            },
    {
        match self.find(mime) {
            None => Ok(false),
            Some(e) => match e.extract(file, out, scratch) {
                Ok(()) => Ok(true),
                Err(x) => Err(x),
            },
        }
    }

    /// [`Registry::extract`] for a file whose complete contents the caller
    /// already holds. `None` means "leave this to the content pass".
    pub fn extract_complete_head(&self, file: &SourceFile, mime: &str, out: &mut String) -> (r:
        Option<Result<(), ExtractError>>)
        requires
            ready_head(self@, mime@, file@),
        ensures
            match claimant(self@, mime@) {
                None => r is None && final(out)@ == old(out)@,
                Some(e) => match (r, e.head_extracted(file@, old(out)@)) {
                    (Some(x), Some(w)) => office::leaves(x, final(out)@, w),
                    (None, None) => final(out)@ == old(out)@,
                    _ => false,
                },
            },
    {
        match self.find(mime) {
            None => None,
            Some(e) => e.extract_from_head(file, out),
        }
    }

    /// [`Registry::extract`] into a `String` of its own, for callers holding
    /// one file.
    pub fn extract_to_string(&self, file: &SourceFile, mime: &str, config: &Config) -> (r: Result<
        Option<String>,
        ExtractError,
    >)
        requires
            ready(self@, mime@, file@),
        ensures
            (match r {
                Ok(t) => Ok(maybe(t)),
                Err(x) => Err(x@),
            }) == extracted_text(
                self@,
                file@,
                mime@,
                Limits::of(
                    config.processing.maximum_text_size,
                    config.processing.maximum_text_file_size,
                ),
            ),
    {
        let mut out = String::new();
        let scratch = Scratch::new(config);
        match self.extract(file, mime, &mut out, &scratch) {
            Ok(true) => Ok(Some(out)),
            Ok(false) => Ok(None),
            Err(e) => Err(e),
        }
    }

    /// [`Registry::extract_complete_head`] into a `String` of its own.
    pub fn extract_head_to_string(&self, file: &SourceFile, mime: &str) -> (r: Option<
        Result<String, ExtractError>,
    >)
        requires
            ready_head(self@, mime@, file@),
        ensures
            match claimant(self@, mime@) {
                None => r is None,
                Some(e) => match (r, e.head_extracted(file@, seq![])) {
                    (Some(Ok(t)), Some(w)) => w == (t@, None::<Seq<char>>),
                    (Some(Err(x)), Some(w)) => w.1 == Some(x@),
                    (None, None) => true,
                    _ => false,
                },
            },
    {
        let mut out = String::new();
        match self.extract_complete_head(file, mime, &mut out) {
            Some(Ok(())) => Some(Ok(out)),
            Some(Err(e)) => Some(Err(e)),
            None => None,
        }
    }

    /// The default set. Order matters: RTF precedes plain text, which claims
    /// every `text/*`; plain text precedes audio because it deliberately
    /// claims playlists. There is no image extractor in it, deliberately: an
    /// unclaimed `image/*` keeps the content pass from opening images.
    pub fn default_set() -> (r: Self)
        ensures
            r@ == default_extractors(),
    {
        let mut extractors: Vec<AnyExtractor> = Vec::new();
        extractors.push(AnyExtractor::Rtf(RtfExtractor));
        extractors.push(AnyExtractor::Plaintext(PlaintextExtractor));
        extractors.push(AnyExtractor::Office(OfficeExtractor));
        extractors.push(AnyExtractor::Pdf(PdfExtractor));
        extractors.push(AnyExtractor::Audio(AudioExtractor));
        let r = Registry { extractors };
        assert(r@ =~= default_extractors());
        r
    }
}

/// The default set, in order.
pub open spec fn default_extractors() -> Seq<AnyExtractor> {
    seq![
        AnyExtractor::Rtf(RtfExtractor),
        AnyExtractor::Plaintext(PlaintextExtractor),
        AnyExtractor::Office(OfficeExtractor),
        AnyExtractor::Pdf(PdfExtractor),
        AnyExtractor::Audio(AudioExtractor),
    ]
}

impl Default for Registry {
    fn default() -> (r: Self)
        ensures
            r@ == default_extractors(),
    {
        Registry::default_set()
    }
}

/// Dispatch does not depend on the case of a MIME's letters.
pub proof fn dispatch_ignores_case(extractors: Seq<AnyExtractor>, a: Seq<char>, b: Seq<char>)
    requires
        lower(a) == lower(b),
    ensures
        claimant(extractors, a) == claimant(extractors, b),
    decreases extractors.len(),
{
    if extractors.len() > 0 {
        dispatch_ignores_case(extractors.skip(1), a, b);
    }
}

/// A MIME is supported exactly where an extraction has something to say of a
/// file of that MIME: its text, or why it has none. Neither answer depends on
/// the case of the MIME's letters, so it may be lowered before either.
pub proof fn a_supported_mime_is_extracted(
    extractors: Seq<AnyExtractor>,
    file: FileView,
    mime: Seq<char>,
    limits: Limits,
)
    ensures
        claimant(extractors, mime) is Some <==> extracted_text(extractors, file, mime, limits)
            != Ok::<Option<Seq<char>>, Seq<char>>(None),
        claimant(extractors, lower(mime)) == claimant(extractors, mime),
        extracted_text(extractors, file, lower(mime), limits) == extracted_text(
            extractors,
            file,
            mime,
            limits,
        ),
{
    assert(lower(lower(mime)) =~= lower(mime));
    dispatch_ignores_case(extractors, lower(mime), mime);
}

/// The claimant is registered, claims the MIME, and nothing before it does.
pub proof fn the_first_claim_wins(extractors: Seq<AnyExtractor>, mime: Seq<char>)
    ensures
        match claimant(extractors, mime) {
            Some(e) => exists|i: int|
                0 <= i < extractors.len() && #[trigger] extractors[i] == e && e.claims(lower(mime))
                    && forall|k: int| 0 <= k < i ==> !(#[trigger] extractors[k]).claims(lower(mime)),
            None => forall|k: int|
                0 <= k < extractors.len() ==> !(#[trigger] extractors[k]).claims(lower(mime)),
        },
    decreases extractors.len(),
{
    if extractors.len() > 0 && !extractors[0].claims(lower(mime)) {
        let rest = extractors.skip(1);
        the_first_claim_wins(rest, mime);
        match claimant(rest, mime) {
            Some(e) => {
                let i = choose|i: int|
                    0 <= i < rest.len() && #[trigger] rest[i] == e && e.claims(lower(mime))
                        && forall|k: int| 0 <= k < i ==> !(#[trigger] rest[k]).claims(lower(mime));
                assert(extractors[i + 1] == e);
                assert forall|k: int| 0 <= k < i + 1 implies !(#[trigger] extractors[k]).claims(
                    lower(mime),
                ) by {
                    if k > 0 {
                        assert(rest[k - 1] == extractors[k]);
                    }
                }
            },
            None => {
                assert forall|k: int| 0 <= k < extractors.len() implies !(
                #[trigger] extractors[k]).claims(lower(mime)) by {
                    if k > 0 {
                        assert(rest[k - 1] == extractors[k]);
                    }
                }
            },
        }
    }
}

/// In the default set `text/rtf` goes to the RTF extractor, every other
/// `text/*` to the plain-text one.
pub proof fn text_is_plain_unless_rtf(mime: Seq<char>)
    requires
        crate::text::is_prefix("text/"@, lower(mime)),
    ensures
        claimant(default_extractors(), mime) == Some(
            if lower(mime) == "text/rtf"@ {
                AnyExtractor::Rtf(RtfExtractor)
            } else {
                AnyExtractor::Plaintext(PlaintextExtractor)
            },
        ),
{
    let all = default_extractors();
    reveal_with_fuel(claimant, 3);
    reveal_strlit("text/");
    reveal_strlit("application/rtf");
    assert(all.skip(1)[0] == all[1]);
    if lower(mime) == "application/rtf"@ {
        assert(lower(mime).take(5)[0] == "application/rtf"@[0]);
    }
}

/// No image is claimed in the default set, in whatever case its MIME is
/// written. A vector drawing is no exception: it is claimed as text.
pub proof fn images_are_not_claimed(mime: Seq<char>)
    requires
        crate::text::is_prefix("image/"@, lower(mime)),
    ensures
        claimant(default_extractors(), mime) == (if lower(mime) == "image/svg+xml"@ {
            Some(AnyExtractor::Plaintext(PlaintextExtractor))
        } else {
            None
        }),
{
    let all = default_extractors();
    let m = lower(mime);
    reveal_with_fuel(claimant, 6);
    reveal_strlit("application/geo+json");
    reveal_strlit("application/javascript");
    reveal_strlit("application/json");
    reveal_strlit("application/json5");
    reveal_strlit("application/mbox");
    reveal_strlit("application/vnd.dart");
    reveal_strlit("application/x-csh");
    reveal_strlit("application/x-httpd-php");
    reveal_strlit("application/x-perl");
    reveal_strlit("application/x-sh");
    reveal_strlit("application/x-sql");
    reveal_strlit("application/x-subrip");
    reveal_strlit("application/x-tcl");
    reveal_strlit("application/x-tex");
    reveal_strlit("application/x-texinfo");
    reveal_strlit("application/x-troff");
    reveal_strlit("application/x-troff-man");
    reveal_strlit("application/xhtml+xml");
    reveal_strlit("application/xml");
    reveal_strlit("audio/scpls");
    reveal_strlit("audio/x-mpegurl");
    reveal_strlit("image/svg+xml");
    reveal_strlit("message/rfc822");
    reveal_strlit("application/msword");
    reveal_strlit("application/vnd.openxmlformats-officedocument.wordprocessingml.document");
    reveal_strlit("application/vnd.ms-excel");
    reveal_strlit("application/vnd.openxmlformats-officedocument.spreadsheetml.sheet");
    reveal_strlit("application/vnd.ms-powerpoint");
    reveal_strlit("application/vnd.openxmlformats-officedocument.presentationml.presentation");
    reveal_strlit("application/vnd.oasis.opendocument.text");
    reveal_strlit("application/vnd.oasis.opendocument.spreadsheet");
    reveal_strlit("application/vnd.oasis.opendocument.presentation");
    reveal_strlit("application/rtf");
    reveal_strlit("text/rtf");
    reveal_strlit("application/pdf");
    reveal_strlit("text/");
    reveal_strlit("audio/");
    reveal_strlit("image/");
    assert(m.take(6)[0] == 'i');
    assert(m[0] == 'i');
    assert(all.skip(1)[0] == all[1]);
    assert(all.skip(1).skip(1)[0] == all[2]);
    assert(all.skip(1).skip(1).skip(1)[0] == all[3]);
    assert(all.skip(1).skip(1).skip(1).skip(1)[0] == all[4]);
    if crate::text::is_prefix("text/"@, m) {
        assert(m.take(5)[0] == 't');
    }
    if crate::text::is_prefix("audio/"@, m) {
        assert(m.take(6)[0] == 'a');
    }
    if plaintext::listed(m) && m != "image/svg+xml"@ {
        let i = choose|i: int| 0 <= i < 23 && m == #[trigger] plaintext::EXTRA_TEXT_MIMES@[i]@;
        assert(plaintext::EXTRA_TEXT_MIMES@[i]@[0] == 'i');
    }
    if m == "image/svg+xml"@ {
        assert(plaintext::EXTRA_TEXT_MIMES@[21]@ == m);
        assert(plaintext::listed(m));
    }
}

/// What is extracted from a complete head is what an extraction from the file
/// would leave, so a file's text does not depend on which pass handled it.
pub proof fn head_and_file_agree(
    e: AnyExtractor,
    file: FileView,
    out: Seq<char>,
    limits: Limits,
)
    ensures
        e.head_extracted(file, out) matches Some(w) ==> w == e.extracted(file, out, limits),
{
}

/// Whatever becomes of a file, its text is put after what `out` held: nothing
/// of that is lost or changed.
pub proof fn an_extraction_only_appends(
    e: AnyExtractor,
    file: FileView,
    out: Seq<char>,
    limits: Limits,
)
    ensures
        crate::text::is_prefix(out, e.extracted(file, out, limits).0),
{
    let after = e.extracted(file, out, limits).0;
    if let AnyExtractor::Office(_) = e {
        let ext = match crate::parts::extension(file.path, file.sep) {
            Some(x) => lower(x),
            None => seq![],
        };
        office::a_document_only_appends(file.body, ext, file.rendered, out, limits);
    } else {
        assert(after.take(out.len() as int) =~= out);
    }
}

/// The limits follow the settings: at least one byte of text, as much as is set;
/// a body as large as is set, as far as memory can address; and members that
/// inflate to sixteen times the text, but to no more than 64 MiB.
pub proof fn limits_follow_the_settings(text: usize, file: u64)
    ensures
        Limits::of(text, file).text >= 1,
        text >= 1 ==> Limits::of(text, file).text == text,
        file <= usize::MAX ==> Limits::of(text, file).read == file,
        Limits::of(text, file).inflate <= 64 * 1024 * 1024,
        Limits::of(text, file).inflate <= 16 * Limits::of(text, file).text,
        Limits::of(text, file).inflate == 64 * 1024 * 1024 || Limits::of(text, file).inflate == 16
            * Limits::of(text, file).text,
{
}

/// A MIME of an application that is listed as plain text has another letter or
/// another length than those of the office formats and of PDF; an audio MIME that
/// is listed is a playlist.
proof fn lemma_listed(m: Seq<char>)
    requires
        plaintext::listed(m),
    ensures
        m.len() > 10,
        m[0] == 'a' && m[1] == 'p' && m.len() > 12 && m[12] == 'm' ==> m.len() == 16,
        m[0] == 'a' && m[1] == 'p' && m.len() > 12 && m[12] == 'v' ==> m.len() == 20,
        m[0] == 'a' && m[1] == 'p' && m.len() > 12 ==> m[12] != 'p',
        m[0] == 'a' && m[1] == 'u' ==> m == "audio/scpls"@ || m == "audio/x-mpegurl"@,
{
    reveal_strlit("application/geo+json");
    reveal_strlit("application/javascript");
    reveal_strlit("application/json");
    reveal_strlit("application/json5");
    reveal_strlit("application/mbox");
    reveal_strlit("application/vnd.dart");
    reveal_strlit("application/x-csh");
    reveal_strlit("application/x-httpd-php");
    reveal_strlit("application/x-perl");
    reveal_strlit("application/x-sh");
    reveal_strlit("application/x-sql");
    reveal_strlit("application/x-subrip");
    reveal_strlit("application/x-tcl");
    reveal_strlit("application/x-tex");
    reveal_strlit("application/x-texinfo");
    reveal_strlit("application/x-troff");
    reveal_strlit("application/x-troff-man");
    reveal_strlit("application/xhtml+xml");
    reveal_strlit("application/xml");
    reveal_strlit("audio/scpls");
    reveal_strlit("audio/x-mpegurl");
    reveal_strlit("image/svg+xml");
    reveal_strlit("message/rfc822");
    let i = choose|i: int| 0 <= i < 23 && m == #[trigger] plaintext::EXTRA_TEXT_MIMES@[i]@;
    assert(plaintext::EXTRA_TEXT_MIMES@[i]@ == m);
}

/// In the default set each office format goes to the office extractor, by the
/// extension that its MIME stands for.
pub proof fn every_office_format_is_claimed(mime: Seq<char>)
    ensures
        lower(mime) == "application/msword"@ ==> office::ext_of_mime(
            lower(mime),
        ) == Some("doc"@),
        lower(mime) == "application/vnd.openxmlformats-officedocument.wordprocessingml.document"@ ==> office::ext_of_mime(
            lower(mime),
        ) == Some("docx"@),
        lower(mime) == "application/vnd.ms-excel"@ ==> office::ext_of_mime(
            lower(mime),
        ) == Some("xls"@),
        lower(mime) == "application/vnd.openxmlformats-officedocument.spreadsheetml.sheet"@ ==> office::ext_of_mime(
            lower(mime),
        ) == Some("xlsx"@),
        lower(mime) == "application/vnd.ms-powerpoint"@ ==> office::ext_of_mime(
            lower(mime),
        ) == Some("ppt"@),
        lower(mime) == "application/vnd.openxmlformats-officedocument.presentationml.presentation"@ ==> office::ext_of_mime(
            lower(mime),
        ) == Some("pptx"@),
        lower(mime) == "application/vnd.oasis.opendocument.text"@ ==> office::ext_of_mime(
            lower(mime),
        ) == Some("odt"@),
        lower(mime) == "application/vnd.oasis.opendocument.spreadsheet"@ ==> office::ext_of_mime(
            lower(mime),
        ) == Some("ods"@),
        lower(mime) == "application/vnd.oasis.opendocument.presentation"@ ==> office::ext_of_mime(
            lower(mime),
        ) == Some("odp"@),
        office::ext_of_mime(lower(mime)) is Some ==> claimant(default_extractors(), mime) == Some(
            AnyExtractor::Office(OfficeExtractor),
        ),
{
    let m = lower(mime);
    reveal_strlit("application/msword");
    reveal_strlit("application/vnd.openxmlformats-officedocument.wordprocessingml.document");
    reveal_strlit("application/vnd.ms-excel");
    reveal_strlit("application/vnd.openxmlformats-officedocument.spreadsheetml.sheet");
    reveal_strlit("application/vnd.ms-powerpoint");
    reveal_strlit("application/vnd.openxmlformats-officedocument.presentationml.presentation");
    reveal_strlit("application/vnd.oasis.opendocument.text");
    reveal_strlit("application/vnd.oasis.opendocument.spreadsheet");
    reveal_strlit("application/vnd.oasis.opendocument.presentation");
    reveal_strlit("application/rtf");
    reveal_strlit("text/rtf");
    reveal_strlit("text/");
    assert("application/msword"@.len() == 18);
    assert("application/vnd.openxmlformats-officedocument.wordprocessingml.document"@.len() == 71);
    assert("application/vnd.ms-excel"@.len() == 24);
    assert("application/vnd.openxmlformats-officedocument.spreadsheetml.sheet"@.len() == 65);
    assert("application/vnd.ms-powerpoint"@.len() == 29);
    assert("application/vnd.openxmlformats-officedocument.presentationml.presentation"@.len() == 73);
    assert("application/vnd.oasis.opendocument.text"@.len() == 39);
    assert("application/vnd.oasis.opendocument.spreadsheet"@.len() == 46);
    assert("application/vnd.oasis.opendocument.presentation"@.len() == 47);
    assert("application/msword"@[12] == 'm');
    assert("application/vnd.openxmlformats-officedocument.wordprocessingml.document"@[12] == 'v');
    assert("application/vnd.ms-excel"@[12] == 'v');
    assert("application/vnd.openxmlformats-officedocument.spreadsheetml.sheet"@[12] == 'v');
    assert("application/vnd.ms-powerpoint"@[12] == 'v');
    assert("application/vnd.openxmlformats-officedocument.presentationml.presentation"@[12] == 'v');
    assert("application/vnd.oasis.opendocument.text"@[12] == 'v');
    assert("application/vnd.oasis.opendocument.spreadsheet"@[12] == 'v');
    assert("application/vnd.oasis.opendocument.presentation"@[12] == 'v');
    if office::ext_of_mime(m) is Some {
        assert(m[0] == 'a' && m[1] == 'p');
        assert(m.len() != 16 && m.len() != 20);
        assert(m[12] == 'm' || m[12] == 'v');
        if plaintext::listed(m) {
            lemma_listed(m);
        }
        if crate::text::is_prefix("text/"@, m) {
            assert(m.take(5)[0] == 't');
        }
        let all = default_extractors();
        reveal_with_fuel(claimant, 4);
        assert(all.skip(1)[0] == all[1]);
        assert(all.skip(1).skip(1)[0] == all[2]);
    }
}

/// In the default set a PDF goes to the PDF extractor, and audio to the one for
/// its tags, but for the two playlist formats, which are text.
pub proof fn pdf_and_audio_are_claimed(mime: Seq<char>)
    ensures
        lower(mime) == "application/pdf"@ ==> claimant(default_extractors(), mime) == Some(
            AnyExtractor::Pdf(PdfExtractor),
        ),
        crate::text::is_prefix("audio/"@, lower(mime)) ==> claimant(default_extractors(), mime)
            == Some(
            if lower(mime) == "audio/scpls"@ || lower(mime) == "audio/x-mpegurl"@ {
                AnyExtractor::Plaintext(PlaintextExtractor)
            } else {
                AnyExtractor::Audio(AudioExtractor)
            },
        ),
{
    let m = lower(mime);
    let all = default_extractors();
    reveal_strlit("application/msword");
    reveal_strlit("application/vnd.openxmlformats-officedocument.wordprocessingml.document");
    reveal_strlit("application/vnd.ms-excel");
    reveal_strlit("application/vnd.openxmlformats-officedocument.spreadsheetml.sheet");
    reveal_strlit("application/vnd.ms-powerpoint");
    reveal_strlit("application/vnd.openxmlformats-officedocument.presentationml.presentation");
    reveal_strlit("application/vnd.oasis.opendocument.text");
    reveal_strlit("application/vnd.oasis.opendocument.spreadsheet");
    reveal_strlit("application/vnd.oasis.opendocument.presentation");
    reveal_strlit("application/rtf");
    reveal_strlit("text/rtf");
    reveal_strlit("text/");
    reveal_strlit("application/pdf");
    reveal_strlit("audio/");
    reveal_with_fuel(claimant, 6);
    assert(all.skip(1)[0] == all[1]);
    assert(all.skip(1).skip(1)[0] == all[2]);
    assert(all.skip(1).skip(1).skip(1)[0] == all[3]);
    assert(all.skip(1).skip(1).skip(1).skip(1)[0] == all[4]);
    if crate::text::is_prefix("text/"@, m) {
        assert(m.take(5)[0] == 't');
        assert(m[0] == 't');
    }
    if plaintext::listed(m) {
        lemma_listed(m);
    }
    plaintext::these_formats_are_plain_text();
    if m == "application/pdf"@ {
        assert(m.len() == 15);
        assert(m[12] == 'p');
    }
    if crate::text::is_prefix("audio/"@, m) {
        assert(m.take(6)[0] == 'a');
        assert(m.take(6)[1] == 'u');
        assert(m[0] == 'a' && m[1] == 'u');
    }
}

} // verus!
