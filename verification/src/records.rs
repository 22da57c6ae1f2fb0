//! Building one file's index record: classification against stored rows,
//! hashing, and the decisions about its content.
use crate::config::Config;
use crate::extract::{
    claimant, extracted_text, ready, ready_head, AnyExtractor, Extractor, FileView, Limits, Parsed,
    ParsedView, Registry, Scratch, SourceFile,
};
use crate::log::Throttle;
use crate::paths::{split_db_path, split_path, Separator};
use crate::text::{byte_len, is_prefix, joined, maybe, push_str, str_view, texts, utf8_len};
use vstd::hash_map::StringHashMap;
use vstd::prelude::*;
use vstd::string::*;
use vstd::utf8::*;

verus! {

/// One directory's indexed files, as `name -> mtime`.
pub type DirRows = StringHashMap<u64>;

#[derive(Debug, Clone, Copy, PartialEq, Eq, Structural)]
pub enum FileIndexAction {
    Skip,
    Update,
    Insert,
}

/// What to do with a file by the modified time stored for it.
pub open spec fn action(stored: Option<u64>, mtime: u64) -> FileIndexAction {
    match stored {
        Some(known) => if known == mtime {
            FileIndexAction::Skip
        } else {
            FileIndexAction::Update
        },
        None => FileIndexAction::Insert,
    }
}

/// Decide what a walk should do with a file of the directory that `rows`
/// describes. A file whose parent is another directory, a resolved symlink
/// target, must not be classified here; see [`classify_by_mtime`].
pub fn classify_for_indexing(name: &str, mtime: u64, rows: &DirRows) -> (r: FileIndexAction)
    ensures
        r == action(
            if rows@.contains_key(name@) {
                Some(rows@[name@])
            } else {
                None
            },
            mtime,
        ),
{
    match rows.get(name) {
        Some(known) => classify_by_mtime(Some(*known), mtime),
        None => classify_by_mtime(None, mtime),
    }
}

pub fn classify_by_mtime(stored: Option<u64>, mtime: u64) -> (r: FileIndexAction)
    ensures
        r == action(stored, mtime),
{
    match stored {
        Some(known) => {
            if known == mtime {
                FileIndexAction::Skip
            } else {
                FileIndexAction::Update
            }
        },
        None => FileIndexAction::Insert,
    }
}

/// Whether `t` is the longest prefix of `s` that takes at most `max` bytes.
pub open spec fn longest_prefix(t: Seq<char>, s: Seq<char>, max: int) -> bool {
    &&& t.len() <= s.len()
    &&& t == s.take(t.len() as int)
    &&& utf8_len(t) <= max
    &&& t.len() == s.len() || utf8_len(s.take(t.len() as int + 1)) > max
}

/// Prefixes of a text take more bytes the longer they are.
proof fn lemma_prefix_grows(s: Seq<char>, i: int, j: int)
    requires
        0 <= i <= j <= s.len(),
    ensures
        utf8_len(s.take(i)) <= utf8_len(s.take(j)),
        i < j ==> utf8_len(s.take(i)) < utf8_len(s.take(j)),
    decreases s.len(),
{
    if i == 0 {
        assert(s.take(0) =~= seq![]);
        assert(encode_utf8(seq![]).len() == 0);
        if j > 0 {
            let t = s.take(j);
            assert(encode_utf8(t) == encode_scalar(t[0] as u32) + encode_utf8(t.drop_first()));
            assert(encode_scalar(t[0] as u32).len() > 0) by {
                char_is_scalar(t[0]);
            }
        }
    } else {
        let r = s.drop_first();
        lemma_prefix_grows(r, i - 1, j - 1);
        assert(s.take(i).drop_first() =~= r.take(i - 1));
        assert(s.take(j).drop_first() =~= r.take(j - 1));
        assert(s.take(i)[0] == s.take(j)[0]);
        assert(encode_utf8(s.take(i)) == encode_scalar(s[0] as u32) + encode_utf8(r.take(i - 1)));
        assert(encode_utf8(s.take(j)) == encode_scalar(s[0] as u32) + encode_utf8(r.take(j - 1)));
    }
}

/// At most one prefix is the longest.
proof fn lemma_longest_is_unique(a: Seq<char>, b: Seq<char>, s: Seq<char>, max: int)
    requires
        longest_prefix(a, s, max),
        longest_prefix(b, s, max),
    ensures
        a == b,
{
    if a.len() < b.len() {
        lemma_prefix_grows(s, a.len() as int + 1, b.len() as int);
    } else if b.len() < a.len() {
        lemma_prefix_grows(s, b.len() as int + 1, a.len() as int);
    }
}

/// The longest prefix of a text that takes at most `max` bytes.
pub open spec fn truncated(s: Seq<char>, max: int) -> Seq<char> {
    choose|t: Seq<char>| longest_prefix(t, s, max)
}

/// A text has a longest prefix, beyond any prefix that fits.
proof fn lemma_longest_exists(s: Seq<char>, max: int, n: int)
    requires
        0 <= n <= s.len(),
        utf8_len(s.take(n)) <= max,
    ensures
        longest_prefix(truncated(s, max), s, max),
    decreases s.len() - n,
{
    if n < s.len() && utf8_len(s.take(n + 1)) <= max {
        lemma_longest_exists(s, max, n + 1);
    } else {
        assert(longest_prefix(s.take(n), s, max));
    }
}

/// The bytes of two texts side by side are their bytes side by side.
proof fn lemma_encode_concat(a: Seq<char>, b: Seq<char>)
    ensures
        encode_utf8(a + b) == encode_utf8(a) + encode_utf8(b),
    decreases a.len(),
{
    if a.len() == 0 {
        assert(a + b =~= b);
        assert(encode_utf8(a) + encode_utf8(b) =~= encode_utf8(b));
    } else {
        assert((a + b).drop_first() =~= a.drop_first() + b);
        lemma_encode_concat(a.drop_first(), b);
        assert(encode_utf8(a + b) =~= encode_utf8(a) + encode_utf8(b));
    }
}

/// A cut at the last character boundary within `max` bytes is the longest
/// prefix there is.
proof fn lemma_cut(s: Seq<char>, t: Seq<char>, rest: Seq<char>, end: int, max: int)
    requires
        s == t + rest,
        encode_utf8(t) == encode_utf8(s).subrange(0, end),
        0 <= end <= max < encode_utf8(s).len(),
        forall|k: int| end < k <= max ==> !is_char_boundary(encode_utf8(s), k),
    ensures
        longest_prefix(t, s, max),
{
    assert(t =~= s.take(t.len() as int));
    assert(utf8_len(t) == end);
    if t.len() < s.len() {
        let u = s.take(t.len() as int + 1);
        let v = s.skip(t.len() as int + 1);
        assert(s =~= u + v);
        lemma_encode_concat(u, v);
        let b = encode_utf8(s);
        let k = utf8_len(u) as int;
        lemma_prefix_grows(s, t.len() as int, t.len() as int + 1);
        if k <= max {
            encode_utf8_valid_utf8(u);
            encode_utf8_valid_utf8(v);
            encode_utf8_valid_utf8(s);
            lemma_boundary(u, v);
            assert(is_char_boundary(b, k));
            assert(false);
        }
    }
}

/// The end of a prefix is a character boundary.
proof fn lemma_boundary(u: Seq<char>, v: Seq<char>)
    ensures
        is_char_boundary(encode_utf8(u + v), utf8_len(u) as int),
    decreases u.len(),
{
    let b = encode_utf8(u + v);
    encode_utf8_valid_utf8(u + v);
    lemma_encode_concat(u, v);
    if u.len() == 0 {
        assert(utf8_len(u) == 0);
    } else {
        let rest = u.drop_first();
        lemma_boundary(rest, v);
        assert((u + v).drop_first() =~= rest + v);
        encode_utf8_first_scalar(u + v);
        let first = encode_scalar(u[0] as u32);
        assert(encode_utf8(u) == first + encode_utf8(rest));
        assert(pop_first_scalar(b) =~= encode_utf8(rest + v));
        assert(length_of_first_scalar(b) == first.len());
    }
}

/// Truncate to at most `max_bytes`, backing up to a character boundary.
pub fn safe_truncate(s: &mut String, max_bytes: usize)
    ensures
        final(s)@ == truncated(old(s)@, max_bytes as int),
        longest_prefix(final(s)@, old(s)@, max_bytes as int),
{
    let ghost all = s@;
    let n: usize = byte_len(s.as_str());
    if n <= max_bytes {
        proof {
            assert(all.take(all.len() as int) =~= all);
            assert(longest_prefix(all, all, max_bytes as int));
            lemma_longest_is_unique(all, truncated(all, max_bytes as int), all, max_bytes as int);
        }
        return;
    }
    let mut end: usize = max_bytes;
    proof {
        encode_utf8_valid_utf8(all);
        is_char_boundary_start_end_of_seq(encode_utf8(all));
    }
    while !s.as_str().is_char_boundary(end)
        invariant
            s@ == all,
            end <= max_bytes < n,
            n == encode_utf8(all).len(),
            is_char_boundary(encode_utf8(all), 0),
            forall|k: int| end < k <= max_bytes ==> !is_char_boundary(encode_utf8(all), k),
        decreases end,
    {
        end -= 1;
    }
    let (head, tail) = s.as_str().split_at(end);
    proof {
        lemma_encode_concat(head@, tail@);
        assert(encode_utf8(head@ + tail@) =~= encode_utf8(all));
        encode_utf8_decode_utf8(head@ + tail@);
        encode_utf8_decode_utf8(all);
        lemma_cut(all, head@, tail@, end as int, max_bytes as int);
        lemma_longest_is_unique(head@, truncated(all, max_bytes as int), all, max_bytes as int);
    }
    let cut = head.to_owned();
    *s = cut;
}

/// A SHA-256 digest.
pub type FileHash = [u8; 32];

/// The SHA-256 digest of some bytes, as `sha2` computes it.
pub uninterp spec fn sha256(data: Seq<u8>) -> Seq<u8>;

/// Calls `sha2::Sha256::digest`. The claim: the digest depends on the bytes
/// alone.
#[verifier::external_body]
fn digest(data: &[u8]) -> (r: FileHash)
    ensures
        r@ == sha256(data@),
{
    <sha2::Sha256 as sha2::Digest>::digest(data).into()
}

/// How many bytes of a file its identity covers.
pub open spec fn head_len(size: u64, hash_length: usize) -> int {
    if size <= hash_length {
        size as int
    } else {
        hash_length as int
    }
}

/// How many bytes to read from the front of a file for its identity.
pub fn head_length(size: u64, hash_length: usize) -> (r: usize)
    ensures
        r == head_len(size, hash_length),
{
    if size <= hash_length as u64 {
        size as usize
    } else {
        hash_length
    }
}

/// What a file's identity is the digest of: its size, little-endian, and its
/// head.
pub open spec fn digested(size: u64, head: Seq<u8>) -> Seq<u8> {
    vstd::bytes::spec_u64_to_le_bytes(size) + head
}

/// A file's identity.
pub open spec fn file_identity(size: u64, head: Seq<u8>) -> Seq<u8> {
    sha256(digested(size, head))
}

/// Identify a file by its size and the bytes at its front. The cost is a
/// collision class: same-size files with identical heads read as duplicates.
pub fn get_file_hash(size: u64, head: &[u8]) -> (r: FileHash)
    ensures
        r@ == file_identity(size, head@),
{
    let mut data: Vec<u8> = vstd::bytes::u64_to_le_bytes(size);
    let ghost front = data@;
    let mut i: usize = 0;
    while i < head.len()
        invariant
            i <= head@.len(),
            data@ == front + head@.take(i as int),
        decreases head@.len() - i,
    {
        data.push(head[i]);
        assert(data@ =~= front + head@.take(i + 1));
        i += 1;
    }
    assert(head@.take(head@.len() as int) =~= head@);
    digest(data.as_slice())
}

/// A set of file categories, one bit each.
#[derive(Debug, Clone, Copy, PartialEq, Eq, Structural)]
pub struct FileType {
    pub bits: u32,
}

/// The `files` row to write for one file.
#[derive(Debug, Clone, Copy)]
pub struct NewFile<'a> {
    pub name: &'a str,
    pub parent: &'a str,
    pub size: u64,
    pub mtime: u64,
    pub mime: Option<&'a str>,
    pub ftype: FileType,
    pub hash: Option<&'a [u8]>,
    pub needs_content: bool,
}

/// An owned, fully-derived file record, produced by [`prepare_file_record`].
#[derive(Debug)]
pub struct OwnedNewFile {
    pub name: String,
    /// The containing directory, ending in the platform separator.
    pub parent: String,
    pub size: u64,
    pub mtime: u64,
    pub mime: Option<String>,
    pub ftype: FileType,
    /// `None` only for a dehydrated cloud placeholder, which keeps such files
    /// out of duplicate detection.
    pub hash: Option<FileHash>,
    /// Text extracted from the head during the walk, for files small enough
    /// that the head was the whole file.
    pub inline_text: Option<String>,
    /// `false` means the row is born with no content to extract.
    pub needs_content: bool,
}

/// An [`OwnedNewFile`] by its contents.
pub struct RecordView {
    pub name: Seq<char>,
    pub parent: Seq<char>,
    pub size: u64,
    pub mtime: u64,
    pub mime: Option<Seq<char>>,
    pub ftype: FileType,
    pub hash: Option<Seq<u8>>,
    pub inline_text: Option<Seq<char>>,
    pub needs_content: bool,
}

impl View for OwnedNewFile {
    type V = RecordView;

    open spec fn view(&self) -> RecordView {
        RecordView {
            name: self.name@,
            parent: self.parent@,
            size: self.size,
            mtime: self.mtime,
            mime: maybe(self.mime),
            ftype: self.ftype,
            hash: match self.hash {
                Some(h) => Some(h@),
                None => None,
            },
            inline_text: maybe(self.inline_text),
            needs_content: self.needs_content,
        }
    }
}

impl OwnedNewFile {
    /// The stored path: the directory and the name joined back.
    pub fn path(&self) -> (r: String)
        ensures
            r@ == self@.parent + self@.name,
    {
        joined(self.parent.as_str(), self.name.as_str())
    }

    /// The row to write, without its content.
    pub fn as_new_file(&self) -> (r: NewFile<'_>)
        ensures
            r.name@ == self@.name,
            r.parent@ == self@.parent,
            r.size == self@.size,
            r.mtime == self@.mtime,
            match (r.mime, self@.mime) {
                (Some(a), Some(b)) => a@ == b,
                (None, None) => true,
                _ => false,
            },
            r.ftype == self@.ftype,
            match (r.hash, self@.hash) {
                (Some(a), Some(b)) => a@ == b,
                (None, None) => true,
                _ => false,
            },
            r.needs_content == self@.needs_content,
    {
        NewFile {
            name: self.name.as_str(),
            parent: self.parent.as_str(),
            size: self.size,
            mtime: self.mtime,
            mime: match &self.mime {
                Some(m) => Some(m.as_str()),
                None => None,
            },
            ftype: self.ftype,
            hash: match &self.hash {
                Some(h) => Some(h.as_slice()),
                None => None,
            },
            needs_content: self.needs_content,
        }
    }
}

/// "Cannot hash" warnings allowed per run before only the count is kept.
pub const HASH_FAILURE_LIMIT: u64 = 20;

/// Arm the per-run warning throttle, at the start of an indexing run.
pub fn reset_run_warnings(failures: &mut Throttle)
    ensures
        final(failures).count() == 0,
        final(failures).limit() == old(failures).limit(),
{
    failures.reset();
}

/// How many files could not be hashed this run, and how many went unlogged.
pub fn hash_failure_counts(failures: &Throttle) -> (r: (u64, u64))
    ensures
        r.0 == failures.count(),
        r.1 == if failures.count() > failures.limit() {
            (failures.count() - failures.limit()) as u64
        } else {
            0
        },
{
    (failures.seen(), failures.suppressed())
}

/// Count a file that could not be read to hash, and word the warning where one
/// is still due.
pub fn hash_failure(failures: &mut Throttle, path: &str, error: &str) -> (r: Option<String>)
    ensures
        final(failures).limit() == old(failures).limit(),
        final(failures).count() == if old(failures).count() < u64::MAX {
            (old(failures).count() + 1) as u64
        } else {
            0
        },
        maybe(r) == if old(failures).count() < old(failures).limit() {
            Some("Skipping file (cannot hash) "@ + path@ + ": "@ + error@)
        } else {
            None::<Seq<char>>
        },
{
    if failures.allow() {
        let mut line = joined("Skipping file (cannot hash) ", path);
        push_str(&mut line, ": ");
        push_str(&mut line, error);
        Some(line)
    } else {
        None
    }
}

/// What a `stat` says of a file.
#[derive(Debug, Clone, Copy, PartialEq, Eq, Structural)]
pub struct FileStat {
    pub is_file: bool,
    pub size: u64,
    /// Seconds since the epoch; nothing where the system cannot say, or says a
    /// time before it.
    pub mtime: Option<u64>,
    /// A cloud file whose contents are not on this machine: reading even its
    /// first byte would block on downloading it.
    pub dehydrated: bool,
}

/// What the head and the name of a file say it is.
#[derive(Debug)]
pub struct Sniffed {
    pub mime: Option<String>,
    /// The categories of that MIME.
    pub ftype: FileType,
    /// Whether the settings let its content be indexed.
    pub content_allowed: bool,
}

/// A [`Sniffed`] by its contents.
pub struct SniffedView {
    pub mime: Option<Seq<char>>,
    pub ftype: FileType,
    pub content_allowed: bool,
}

impl View for Sniffed {
    type V = SniffedView;

    open spec fn view(&self) -> SniffedView {
        SniffedView {
            mime: maybe(self.mime),
            ftype: self.ftype,
            content_allowed: self.content_allowed,
        }
    }
}

/// What came of preparing a file's record.
#[derive(Debug)]
pub enum Prepared {
    /// Not a regular file with a modified time and a path that can be stored.
    Skipped,
    /// Its head could not be read; see [`hash_failure`].
    Unhashed(String),
    Record(OwnedNewFile),
}

/// A [`Prepared`] by its contents.
pub enum PreparedView {
    Skipped,
    Unhashed(Seq<char>),
    Record(RecordView),
}

impl View for Prepared {
    type V = PreparedView;

    open spec fn view(&self) -> PreparedView {
        match *self {
            Prepared::Skipped => PreparedView::Skipped,
            Prepared::Unhashed(e) => PreparedView::Unhashed(e@),
            Prepared::Record(r) => PreparedView::Record(r@),
        }
    }
}

/// Whether extraction will produce anything for a file.
pub open spec fn extractable(
    allowed: bool,
    mime: Option<Seq<char>>,
    extractors: Seq<AnyExtractor>,
) -> bool {
    match mime {
        Some(m) => allowed && claimant(extractors, m) is Some,
        None => false,
    }
}

/// Whether extraction will produce anything for a file. The single predicate
/// behind both the state a row is born with and [`decide_content`]'s
/// early-out.
pub fn content_extractable(allowed: bool, mime: Option<&str>, registry: &Registry) -> (r: bool)
    ensures
        r == extractable(allowed, str_view(mime), registry@),
{
    match mime {
        Some(m) => allowed && registry.supports(m),
        None => false,
    }
}

/// Whether a row is born with content to extract.
pub open spec fn wants_content(
    stat: FileStat,
    sniffed: SniffedView,
    maximum: u64,
    extractors: Seq<AnyExtractor>,
) -> bool {
    !stat.dehydrated && stat.size <= maximum && extractable(
        sniffed.content_allowed,
        sniffed.mime,
        extractors,
    )
}

/// The text that the head alone gives, where the head is the whole file. Size
/// 0 is excluded: some filesystems report it for files that do have content.
pub open spec fn inlined(
    file: FileView,
    stat: FileStat,
    mime: Seq<char>,
    config: Config,
    extractors: Seq<AnyExtractor>,
) -> Option<Seq<char>> {
    if stat.size == 0 || stat.size > config.processing.hash_length {
        None
    } else {
        match claimant(extractors, mime) {
            None => None,
            Some(e) => match e.head_extracted(file, seq![]) {
                Some(w) => match w.1 {
                    None => Some(truncated(w.0, config.processing.maximum_text_size as int)),
                    Some(_) => None,
                },
                None => None,
            },
        }
    }
}

/// What comes of preparing a file's record.
pub open spec fn prepared(
    path: Seq<char>,
    stat: FileStat,
    head: Result<Seq<u8>, Seq<char>>,
    parsed: Option<ParsedView>,
    sniffed: SniffedView,
    sep: Separator,
    config: Config,
    extractors: Seq<AnyExtractor>,
) -> PreparedView {
    match stat.mtime {
        None => PreparedView::Skipped,
        Some(mtime) => if !stat.is_file {
            PreparedView::Skipped
        } else {
            match head {
                Err(e) if !stat.dehydrated => PreparedView::Unhashed(e),
                _ => match split_path(path, sep.symbol()) {
                    None => PreparedView::Skipped,
                    Some(parts) => {
                        let body = if stat.dehydrated {
                            seq![]
                        } else {
                            head->Ok_0
                        };
                        let wanted = wants_content(
                            stat,
                            sniffed,
                            config.processing.maximum_text_file_size,
                            extractors,
                        );
                        let file = FileView { path, sep, body, parsed, rendered: seq![] };
                        PreparedView::Record(
                            RecordView {
                                name: parts.1,
                                parent: parts.0,
                                size: stat.size,
                                mtime,
                                mime: sniffed.mime,
                                ftype: match sniffed.mime {
                                    Some(_) => sniffed.ftype,
                                    None => FileType { bits: 0 },
                                },
                                hash: if stat.dehydrated {
                                    None
                                } else {
                                    Some(file_identity(stat.size, body))
                                },
                                inline_text: match sniffed.mime {
                                    Some(m) if wanted => inlined(
                                        file,
                                        stat,
                                        m,
                                        config,
                                        extractors,
                                    ),
                                    _ => None,
                                },
                                needs_content: wanted,
                            },
                        )
                    },
                },
            }
        },
    }
}

/// What reading a head gave, by its contents.
pub open spec fn head_view(head: Result<Vec<u8>, String>) -> Result<Seq<u8>, Seq<char>> {
    match head {
        Ok(b) => Ok(b@),
        Err(e) => Err(e@),
    }
}

/// Whether the parser outside has seen a head that goes through it.
pub open spec fn head_ready(
    extractors: Seq<AnyExtractor>,
    mime: Option<Seq<char>>,
    path: Seq<char>,
    sep: Separator,
    head: Result<Seq<u8>, Seq<char>>,
    parsed: Option<ParsedView>,
) -> bool {
    match (mime, head) {
        (Some(m), Ok(body)) => ready_head(
            extractors,
            m,
            FileView { path, sep, body, parsed, rendered: seq![] },
        ),
        _ => true,
    }
}

/// Build the `files` row for one on-disk file from a `stat` the caller already
/// holds, the bytes read from its front, and what those bytes say it is.
///
/// `path` must be canonical, in stored spelling. The head is not looked at for
/// a dehydrated file, which is indexed from its metadata alone.
pub fn prepare_file_record(
    path: &str,
    stat: &FileStat,
    head: Result<Vec<u8>, String>,
    parsed: Option<Parsed>,
    sniffed: Sniffed,
    sep: Separator,
    config: &Config,
    registry: &Registry,
) -> (r: Prepared)
    requires
        head_ready(registry@, sniffed@.mime, path@, sep, head_view(head), parsed_view(parsed)),
    ensures
        r@ == prepared(
            path@,
            *stat,
            head_view(head),
            parsed_view(parsed),
            sniffed@,
            sep,
            *config,
            registry@,
        ),
{
    let mtime: u64 = match stat.mtime {
        Some(m) => m,
        None => return Prepared::Skipped,
    };
    if !stat.is_file {
        return Prepared::Skipped;
    }
    let body: Vec<u8> = if stat.dehydrated {
        Vec::new()
    } else {
        match head {
            Ok(b) => b,
            Err(e) => return Prepared::Unhashed(e),
        }
    };
    let (parent, name) = match split_db_path(path, sep) {
        Some(parts) => parts,
        None => return Prepared::Skipped,
    };
    let hash = if stat.dehydrated {
        None
    } else {
        Some(get_file_hash(stat.size, body.as_slice()))
    };
    let file = SourceFile { path: path.to_owned(), sep, body, parsed, rendered: Vec::new() };
    proof {
        assert(texts(file.rendered@) =~= seq![]);
    }
    let mime: Option<&str> = match &sniffed.mime {
        Some(m) => Some(m.as_str()),
        None => None,
    };
    let needs_content: bool = !stat.dehydrated && stat.size
        <= config.processing.maximum_text_file_size && content_extractable(
        sniffed.content_allowed,
        mime,
        registry,
    );
    let ftype = match mime {
        Some(_) => sniffed.ftype,
        None => FileType { bits: 0 },
    };
    let inline_text = match mime {
        Some(m) => {
            if needs_content {
                inline_text(&file, stat, m, config, registry)
            } else {
                None
            }
        },
        None => None,
    };
    Prepared::Record(
        OwnedNewFile {
            name,
            parent,
            size: stat.size,
            mtime,
            mime: sniffed.mime,
            ftype,
            hash,
            inline_text,
            needs_content,
        },
    )
}

/// The optional parse by its contents.
pub open spec fn parsed_view(parsed: Option<Parsed>) -> Option<ParsedView> {
    match parsed {
        Some(p) => Some(p@),
        None => None,
    }
}

/// When the head is the whole file, an extractor that works from bytes can
/// finish the job during the walk; otherwise the file stays pending. A failure
/// stays pending too, which keeps failure reporting in one place.
fn inline_text(
    file: &SourceFile,
    stat: &FileStat,
    mime: &str,
    config: &Config,
    registry: &Registry,
) -> (r: Option<String>)
    requires
        ready_head(registry@, mime@, file@),
    ensures
        maybe(r) == inlined(file@, *stat, mime@, *config, registry@),
{
    if stat.size == 0 || stat.size > config.processing.hash_length as u64 {
        return None;
    }
    match registry.extract_head_to_string(file, mime) {
        Some(Ok(t)) => {
            let mut text = t;
            safe_truncate(&mut text, config.processing.maximum_text_size);
            Some(text)
        },
        _ => None,
    }
}

/// What should be written for one file's content, decided without touching the
/// database.
#[derive(Debug, Clone, PartialEq, Eq)]
pub enum ContentOutcome {
    /// Text, already truncated to the largest size kept.
    Done { text: String },
    NotApplicable,
    Failed(String),
}

/// A [`ContentOutcome`] by its contents.
pub enum OutcomeView {
    Done(Seq<char>),
    NotApplicable,
    Failed(Seq<char>),
}

impl View for ContentOutcome {
    type V = OutcomeView;

    open spec fn view(&self) -> OutcomeView {
        match *self {
            ContentOutcome::Done { text } => OutcomeView::Done(text@),
            ContentOutcome::NotApplicable => OutcomeView::NotApplicable,
            ContentOutcome::Failed(e) => OutcomeView::Failed(e@),
        }
    }
}

/// What should be written for one file's content.
pub open spec fn decided(
    file: FileView,
    mime: Option<Seq<char>>,
    allowed: bool,
    extractors: Seq<AnyExtractor>,
    limits: Limits,
    maximum: int,
) -> OutcomeView {
    if !extractable(allowed, mime, extractors) {
        OutcomeView::NotApplicable
    } else {
        let w = claimant(extractors, mime->Some_0)->Some_0.extracted(file, seq![], limits);
        match w.1 {
            Some(reason) => OutcomeView::Failed(reason),
            None => OutcomeView::Done(truncated(w.0, maximum)),
        }
    }
}

/// Decide what a file's content row should say. `mime` is authoritative,
/// including when there is none. `allowed` is whether the settings let its
/// content be indexed.
pub fn decide_content(
    file: &SourceFile,
    mime: Option<&str>,
    allowed: bool,
    registry: &Registry,
    config: &Config,
    scratch: &Scratch,
) -> (r: ContentOutcome)
    requires
        mime is Some ==> ready(registry@, mime->Some_0@, file@),
    ensures
        r@ == decided(
            file@,
            str_view(mime),
            allowed,
            registry@,
            scratch.limits_view(),
            config.processing.maximum_text_size as int,
        ),
{
    if !content_extractable(allowed, mime, registry) {
        return ContentOutcome::NotApplicable;
    }
    let mut text = String::new();
    let result = match mime {
        Some(m) => registry.extract(file, m, &mut text, scratch),
        None => Ok(false),
    };
    match result {
        Ok(true) => {
            // Extractors stop at the limit themselves; this is the backstop
            // for the ones that can overshoot by a run or a slide.
            safe_truncate(&mut text, config.processing.maximum_text_size);
            ContentOutcome::Done { text }
        },
        Ok(false) => ContentOutcome::NotApplicable,
        Err(reason) => ContentOutcome::Failed(reason),
    }
}

/// The body a [`ContentOutcome`] would store, if any.
pub fn outcome_body(outcome: &ContentOutcome) -> (r: Option<&str>)
    ensures
        str_view(r) == (match outcome@ {
            OutcomeView::Done(t) => Some(t),
            _ => None,
        }),
{
    match outcome {
        ContentOutcome::Done { text } => Some(text.as_str()),
        _ => None,
    }
}

/// The content pass has something to record of a file exactly where the walk
/// left it to the pass: a text that fits the settings, or the reason that its
/// extraction gave. A file that the walk writes off is one for which the pass
/// would find nothing to do, and the other way round.
pub proof fn the_walk_and_the_content_pass_agree(
    file: FileView,
    mime: Option<Seq<char>>,
    allowed: bool,
    extractors: Seq<AnyExtractor>,
    limits: Limits,
    maximum: nat,
)
    ensures
        ({
            let d = decided(file, mime, allowed, extractors, limits, maximum as int);
            if !extractable(allowed, mime, extractors) {
                d is NotApplicable
            } else {
                match extracted_text(extractors, file, mime->Some_0, limits) {
                    Ok(Some(whole)) => d is Done && utf8_len(d->Done_0) <= maximum && is_prefix(
                        d->Done_0,
                        whole,
                    ),
                    Ok(None) => false,
                    Err(reason) => d == OutcomeView::Failed(reason),
                }
            }
        }),
{
    if extractable(allowed, mime, extractors) {
        a_stored_text_fits(file, mime, allowed, extractors, limits, maximum);
    }
}

/// A text that the walk finished is the one the content pass would store, so
/// which of the two handled a file does not show.
pub proof fn an_inlined_text_is_what_the_pass_would_store(
    file: FileView,
    stat: FileStat,
    mime: Seq<char>,
    config: Config,
    extractors: Seq<AnyExtractor>,
    limits: Limits,
)
    requires
        inlined(file, stat, mime, config, extractors) is Some,
    ensures
        decided(
            file,
            Some(mime),
            true,
            extractors,
            limits,
            config.processing.maximum_text_size as int,
        ) == OutcomeView::Done(inlined(file, stat, mime, config, extractors)->Some_0),
{
    let e = claimant(extractors, mime)->Some_0;
    crate::extract::head_and_file_agree(e, file, seq![], limits);
}

/// What is digested tells two files apart exactly where their sizes or their
/// heads differ: identical heads of files of two sizes are not one identity by
/// construction, and the bytes past the head never count.
pub proof fn identity_covers_size_and_head(size: u64, head: Seq<u8>, other: u64, front: Seq<u8>)
    ensures
        digested(size, head) == digested(other, front) <==> size == other && head == front,
{
    vstd::bytes::lemma_auto_spec_u64_to_from_le_bytes();
    let a = digested(size, head);
    let b = digested(other, front);
    if a == b {
        assert(a.take(8) =~= vstd::bytes::spec_u64_to_le_bytes(size));
        assert(b.take(8) =~= vstd::bytes::spec_u64_to_le_bytes(other));
        assert(a.skip(8) =~= head);
        assert(b.skip(8) =~= front);
    }
}

/// Truncating what was truncated changes nothing.
pub proof fn truncating_twice_is_truncating_once(s: Seq<char>, t: Seq<char>, max: int)
    requires
        longest_prefix(t, s, max),
    ensures
        longest_prefix(t, t, max),
        truncated(t, max) == t,
{
    assert(t.take(t.len() as int) =~= t);
    assert(longest_prefix(t, t, max));
    lemma_longest_is_unique(t, truncated(t, max), t, max);
}

/// A text that is stored takes no more bytes than the settings allow, whatever
/// an extractor produced, and is the beginning of what it produced.
pub proof fn a_stored_text_fits(
    file: FileView,
    mime: Option<Seq<char>>,
    allowed: bool,
    extractors: Seq<AnyExtractor>,
    limits: Limits,
    maximum: nat,
)
    ensures
        match decided(file, mime, allowed, extractors, limits, maximum as int) {
            OutcomeView::Done(text) => {
                let whole = claimant(extractors, mime->Some_0)->Some_0.extracted(
                    file,
                    seq![],
                    limits,
                ).0;
                &&& utf8_len(text) <= maximum
                &&& is_prefix(text, whole)
                &&& utf8_len(whole) <= maximum ==> text == whole
            },
            _ => true,
        },
{
    if let OutcomeView::Done(text) = decided(
        file,
        mime,
        allowed,
        extractors,
        limits,
        maximum as int,
    ) {
        let whole = claimant(extractors, mime->Some_0)->Some_0.extracted(file, seq![], limits).0;
        assert(whole.take(0) =~= seq![]);
        assert(encode_utf8(seq![]).len() == 0);
        lemma_longest_exists(whole, maximum as int, 0);
        if utf8_len(whole) <= maximum && text.len() < whole.len() {
            lemma_prefix_grows(whole, text.len() as int + 1, whole.len() as int);
            assert(whole.take(whole.len() as int) =~= whole);
        }
        assert(whole.take(text.len() as int) =~= text);
    }
}

/// A file is left alone exactly where its modified time is the one stored,
/// inserted exactly where none is stored, and updated otherwise, whether the time
/// went forward or back.
pub proof fn only_an_unchanged_file_is_skipped(stored: Option<u64>, mtime: u64)
    ensures
        action(stored, mtime) == FileIndexAction::Skip <==> stored == Some(mtime),
        action(stored, mtime) == FileIndexAction::Insert <==> stored is None,
        action(stored, mtime) == FileIndexAction::Update <==> stored is Some && stored->Some_0
            != mtime,
{
}

/// The head is the whole file where the file is no longer than the settings ask,
/// and as long as they ask otherwise.
pub proof fn a_head_is_as_long_as_it_can_be(size: u64, hash_length: usize)
    ensures
        0 <= head_len(size, hash_length) <= size,
        head_len(size, hash_length) <= hash_length,
        head_len(size, hash_length) == size || head_len(size, hash_length) == hash_length,
{
}

/// Every record of a file that is not dehydrated carries a hash, and it is the
/// digest of the file's size and of the head that was read, whatever the size and
/// the settings. A record has no hash exactly where the file is dehydrated. Its
/// size, time and type are those of the file, and its directory and name make up
/// its path.
pub proof fn a_record_describes_its_file(
    path: Seq<char>,
    stat: FileStat,
    head: Result<Seq<u8>, Seq<char>>,
    parsed: Option<ParsedView>,
    sniffed: SniffedView,
    sep: Separator,
    config: Config,
    extractors: Seq<AnyExtractor>,
)
    ensures
        prepared(path, stat, head, parsed, sniffed, sep, config, extractors) matches PreparedView::Record(
            rec,
        ) ==> {
            &&& rec.hash is None <==> stat.dehydrated
            &&& !stat.dehydrated ==> head is Ok && rec.hash == Some(
                sha256(vstd::bytes::spec_u64_to_le_bytes(stat.size) + head->Ok_0),
            )
            &&& rec.size == stat.size
            &&& Some(rec.mtime) == stat.mtime
            &&& rec.mime == sniffed.mime
            &&& sniffed.mime is Some ==> rec.ftype == sniffed.ftype
            &&& sniffed.mime is None ==> rec.ftype.bits == 0
            &&& rec.parent + rec.name == path
        },
{
    if split_path(path, sep.symbol()) is Some {
        crate::paths::a_split_path_joins_back(path, sep.symbol());
    }
}

/// A regular file with a modified time, whose path divides and whose head could
/// be read or need not be, gets a record; one whose head could not be read is
/// reported with the reason; anything else is skipped.
pub proof fn every_readable_file_gets_a_record(
    path: Seq<char>,
    stat: FileStat,
    head: Result<Seq<u8>, Seq<char>>,
    parsed: Option<ParsedView>,
    sniffed: SniffedView,
    sep: Separator,
    config: Config,
    extractors: Seq<AnyExtractor>,
)
    ensures
        ({
            let r = prepared(path, stat, head, parsed, sniffed, sep, config, extractors);
            let regular = stat.is_file && stat.mtime is Some;
            &&& r is Record <==> regular && (stat.dehydrated || head is Ok) && split_path(
                path,
                sep.symbol(),
            ) is Some
            &&& r is Unhashed <==> regular && !stat.dehydrated && head is Err
            &&& r matches PreparedView::Unhashed(e) ==> head == Err::<Seq<u8>, Seq<char>>(e)
        }),
{
}

/// A row is born with content to extract exactly where its bytes are here, it is
/// not too large, the settings allow it and an extractor claims its type. A text
/// is inlined only in such a row, and only where the head is the whole file.
pub proof fn a_row_waits_for_content_that_can_be_had(
    path: Seq<char>,
    stat: FileStat,
    head: Result<Seq<u8>, Seq<char>>,
    parsed: Option<ParsedView>,
    sniffed: SniffedView,
    sep: Separator,
    config: Config,
    extractors: Seq<AnyExtractor>,
)
    ensures
        prepared(path, stat, head, parsed, sniffed, sep, config, extractors) matches PreparedView::Record(
            rec,
        ) ==> {
            let claimed = sniffed.mime is Some && claimant(extractors, sniffed.mime->Some_0) is Some;
            &&& rec.needs_content <==> !stat.dehydrated && stat.size
                <= config.processing.maximum_text_file_size && sniffed.content_allowed && claimed
            &&& rec.inline_text is Some ==> rec.needs_content && 0 < stat.size
                <= config.processing.hash_length
        },
{
}

/// Where the head is the whole file and the extractor that claims it reads it
/// without error, the walk finishes its text: what was read, cut to the largest
/// size kept.
pub proof fn a_small_file_is_finished_by_the_walk(
    file: FileView,
    stat: FileStat,
    mime: Seq<char>,
    config: Config,
    extractors: Seq<AnyExtractor>,
    text: Seq<char>,
)
    requires
        0 < stat.size <= config.processing.hash_length,
        claimant(extractors, mime) is Some,
        claimant(extractors, mime)->Some_0.head_extracted(file, seq![]) == Some(
            (text, None::<Seq<char>>),
        ),
    ensures
        inlined(file, stat, mime, config, extractors) is Some,
        longest_prefix(
            inlined(file, stat, mime, config, extractors)->Some_0,
            text,
            config.processing.maximum_text_size as int,
        ),
{
    assert(text.take(0) =~= seq![]);
    assert(encode_utf8(seq![]).len() == 0);
    lemma_longest_exists(text, config.processing.maximum_text_size as int, 0);
}

/// Content is extracted only with leave, of a known type, that an extractor
/// claims; each of the three is needed and together they are enough.
pub proof fn extraction_needs_leave_and_a_claim(
    allowed: bool,
    mime: Option<Seq<char>>,
    extractors: Seq<AnyExtractor>,
)
    ensures
        !allowed ==> !extractable(allowed, mime, extractors),
        mime is None ==> !extractable(allowed, mime, extractors),
        mime matches Some(m) && claimant(extractors, m) is None ==> !extractable(
            allowed,
            mime,
            extractors,
        ),
        mime matches Some(m) && claimant(extractors, m) is Some && allowed ==> extractable(
            allowed,
            mime,
            extractors,
        ),
{
}

/// A text that is stored is cut no shorter than the settings ask: one more
/// character of what the extractor produced would take too many bytes.
pub proof fn a_stored_text_is_as_long_as_allowed(
    file: FileView,
    mime: Option<Seq<char>>,
    allowed: bool,
    extractors: Seq<AnyExtractor>,
    limits: Limits,
    maximum: nat,
)
    ensures
        decided(file, mime, allowed, extractors, limits, maximum as int) matches OutcomeView::Done(
            text,
        ) ==> {
            let whole = claimant(extractors, mime->Some_0)->Some_0.extracted(
                file,
                seq![],
                limits,
            ).0;
            text.len() < whole.len() ==> utf8_len(whole.take(text.len() as int + 1)) > maximum
        },
{
    if decided(file, mime, allowed, extractors, limits, maximum as int) is Done {
        let whole = claimant(extractors, mime->Some_0)->Some_0.extracted(file, seq![], limits).0;
        assert(whole.take(0) =~= seq![]);
        assert(encode_utf8(seq![]).len() == 0);
        lemma_longest_exists(whole, maximum as int, 0);
    }
}

} // verus!
