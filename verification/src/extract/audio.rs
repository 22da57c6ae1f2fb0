//! Audio tags: title, artist, album, genre and comment become the text, so
//! full-text search works across them. The tag reader panics on some malformed
//! files, so it always runs outside this crate, inside a panic boundary.
use super::office::Walked;
use super::{
    naming, panicked_on, Extractor, ExtractError, FileView, Limits, Outside, Parsed, ParsedView,
    Scratch, SourceFile,
};
use crate::text::{is_prefix, joined, maybe, push_str, starts_with};
use vstd::prelude::*;

verus! {

/// The values of a tag that are searched for, those it has.
#[derive(Debug)]
pub struct TagValues {
    pub title: Option<String>,
    pub artist: Option<String>,
    pub album: Option<String>,
    pub genre: Option<String>,
    pub comment: Option<String>,
}

/// The tags of a file: the one its format prefers, and the first it has.
#[derive(Debug)]
pub struct TagSet {
    pub primary: Option<TagValues>,
    pub first: Option<TagValues>,
}

/// A [`TagValues`] by its contents.
pub struct TagView {
    pub title: Option<Seq<char>>,
    pub artist: Option<Seq<char>>,
    pub album: Option<Seq<char>>,
    pub genre: Option<Seq<char>>,
    pub comment: Option<Seq<char>>,
}

impl View for TagValues {
    type V = TagView;

    open spec fn view(&self) -> TagView {
        TagView {
            title: maybe(self.title),
            artist: maybe(self.artist),
            album: maybe(self.album),
            genre: maybe(self.genre),
            comment: maybe(self.comment),
        }
    }
}

/// A [`TagSet`] by its contents.
pub struct TagsView {
    pub primary: Option<TagView>,
    pub first: Option<TagView>,
}

pub open spec fn tag_view(t: Option<TagValues>) -> Option<TagView> {
    match t {
        Some(v) => Some(v@),
        None => None,
    }
}

impl View for TagSet {
    type V = TagsView;

    open spec fn view(&self) -> TagsView {
        TagsView { primary: tag_view(self.primary), first: tag_view(self.first) }
    }
}

/// A text with one more value, after a space; one that holds nothing adds
/// nothing.
pub open spec fn with_value(before: Seq<char>, value: Option<Seq<char>>) -> Seq<char> {
    match value {
        None => before,
        Some(v) => if v.len() == 0 {
            before
        } else if before.len() == 0 {
            v
        } else {
            before.push(' ') + v
        },
    }
}

fn add_value(s: &mut String, value: &Option<String>)
    ensures
        final(s)@ == with_value(old(s)@, maybe(*value)),
{
    match value {
        Some(v) => {
            if !v.as_str().is_empty() {
                if s.as_str().is_empty() {
                    *s = v.clone();
                } else {
                    s.push(' ');
                    push_str(s, v.as_str());
                }
            }
        },
        None => {},
    }
}

/// The searchable text of a tag: title, artist, album, genre and comment, in
/// this order, so that the stored text does not change from run to run.
pub open spec fn values_text(t: TagView) -> Seq<char> {
    with_value(
        with_value(
            with_value(with_value(with_value(seq![], t.title), t.artist), t.album),
            t.genre,
        ),
        t.comment,
    )
}

/// The searchable text of a file's tags: of the one its format prefers, or,
/// without one, of the first. A file without a tag has none.
pub open spec fn tags_text(t: TagsView) -> Seq<char> {
    match (t.primary, t.first) {
        (Some(v), _) => values_text(v),
        (None, Some(v)) => values_text(v),
        (None, None) => seq![],
    }
}

fn values_to_text(t: &TagValues) -> (s: String)
    ensures
        s@ == values_text(t@),
{
    let mut s = String::new();
    assert(s@ =~= seq![]);
    add_value(&mut s, &t.title);
    add_value(&mut s, &t.artist);
    add_value(&mut s, &t.album);
    add_value(&mut s, &t.genre);
    add_value(&mut s, &t.comment);
    s
}

/// The searchable text of a file's tags.
pub fn tag_text(tags: &TagSet) -> (s: String)
    ensures
        s@ == tags_text(tags@),
{
    match &tags.primary {
        Some(t) => values_to_text(t),
        None => match &tags.first {
            Some(t) => values_to_text(t),
            None => {
                let s = String::new();
                assert(s@ =~= seq![]);
                s
            },
        },
    }
}

/// What the outcome of a parse leaves behind: no tag at all is a success with
/// nothing to store.
pub open spec fn tagged_text(file: FileView, out: Seq<char>) -> Walked {
    match file.parsed {
        Some(ParsedView::Tags(v)) => (out + tags_text(v), None),
        Some(ParsedView::Text(t)) => (out + t, None),
        Some(ParsedView::Failed(e)) => (out, Some("lofty read "@ + file.path + ": "@ + e)),
        Some(ParsedView::Panicked(_)) => (out, Some(panicked_on(file.path))),
        None => (out, None),
    }
}

#[derive(Debug, Clone, Copy, PartialEq, Eq, Structural)]
pub struct AudioExtractor;

impl Extractor for AudioExtractor {
    open spec fn claims(&self, mime: Seq<char>) -> bool {
        is_prefix("audio/"@, mime)
    }

    open spec fn parses_outside(&self, body: Seq<u8>) -> Option<Outside> {
        Some(Outside::Tags)
    }

    open spec fn head_parses_outside(&self, body: Seq<u8>) -> Option<Outside> {
        None
    }

    open spec fn extracted(&self, file: FileView, out: Seq<char>, limits: Limits) -> Walked {
        tagged_text(file, out)
    }

    open spec fn head_extracted(&self, file: FileView, out: Seq<char>) -> Option<Walked> {
        None
    }

    open spec fn read_failure(&self, path: Seq<char>, error: Seq<char>) -> Seq<char> {
        "lofty probe "@ + path + ": "@ + error
    }

    fn supports(&self, mime: &str) -> (r: bool) {
        starts_with(mime, "audio/")
    }

    fn read_error(&self, path: &str, error: &str) -> (r: String) {
        naming("lofty probe ", path, error)
    }

    fn runs_outside(&self, body: &[u8]) -> (r: Option<Outside>) {
        Some(Outside::Tags)
    }

    fn head_runs_outside(&self, body: &[u8]) -> (r: Option<Outside>) {
        None
    }

    fn extract(&self, file: &SourceFile, out: &mut String, scratch: &Scratch) -> (r: Result<
        (),
        ExtractError,
    >) {
        match &file.parsed {
            Some(Parsed::Tags(v)) => {
                let text = tag_text(v);
                push_str(out, text.as_str());
                Ok(())
            },
            Some(Parsed::Text(t)) => {
                push_str(out, t.as_str());
                Ok(())
            },
            Some(Parsed::Failed(e)) => Err(naming("lofty read ", file.path.as_str(), e.as_str())),
            Some(Parsed::Panicked(_)) => Err(joined("extractor panicked on ", file.path.as_str())),
            None => Ok(()),
        }
    }

    /// Some formats keep their tags at the end of the file.
    fn extract_from_head(&self, file: &SourceFile, out: &mut String) -> (r: Option<
        Result<(), ExtractError>,
    >) {
        None
    }
}

/// A text with one more value holds the value, behind what was there and apart
/// from it.
pub proof fn a_value_joins_behind_a_space(before: Seq<char>, v: Seq<char>)
    requires
        v.len() > 0,
    ensures
        before.len() == 0 ==> with_value(before, Some(v)) == v,
        before.len() > 0 ==> with_value(before, Some(v)) == before + seq![' '] + v,
        with_value(before, None) == before,
        with_value(before, Some(seq![])) == before,
{
    assert(before.push(' ') + v =~= before + seq![' '] + v);
}

proof fn lemma_value_holds(before: Seq<char>, v: Seq<char>)
    requires
        v.len() > 0,
    ensures
        crate::text::contains(with_value(before, Some(v)), v),
{
    let all = with_value(before, Some(v));
    let at = all.len() - v.len();
    assert(all.subrange(at, at + v.len()) =~= v);
    assert(crate::text::occurs_at(all, v, at));
}

proof fn lemma_value_keeps(before: Seq<char>, value: Option<Seq<char>>, v: Seq<char>)
    requires
        v.len() > 0,
        crate::text::contains(before, v),
    ensures
        crate::text::contains(with_value(before, value), v),
{
    let i = choose|i: int| crate::text::occurs_at(before, v, i);
    let all = with_value(before, value);
    assert(all.subrange(i, i + v.len()) =~= before.subrange(i, i + v.len()));
    assert(crate::text::occurs_at(all, v, i));
}

/// Every value that a tag has is in its text, whichever others it has; a tag
/// without values has no text.
pub proof fn every_value_is_in_the_text(t: TagView, v: Seq<char>)
    requires
        v.len() > 0,
        t.title == Some(v) || t.artist == Some(v) || t.album == Some(v) || t.genre == Some(v)
            || t.comment == Some(v),
    ensures
        crate::text::contains(values_text(t), v),
{
    let a = with_value(seq![], t.title);
    let b = with_value(a, t.artist);
    let c = with_value(b, t.album);
    let d = with_value(c, t.genre);
    if t.title == Some(v) {
        lemma_value_holds(seq![], v);
    }
    if t.artist == Some(v) {
        lemma_value_holds(a, v);
    } else if crate::text::contains(a, v) {
        lemma_value_keeps(a, t.artist, v);
    }
    if t.album == Some(v) {
        lemma_value_holds(b, v);
    } else if crate::text::contains(b, v) {
        lemma_value_keeps(b, t.album, v);
    }
    if t.genre == Some(v) {
        lemma_value_holds(c, v);
    } else if crate::text::contains(c, v) {
        lemma_value_keeps(c, t.genre, v);
    }
    if t.comment == Some(v) {
        lemma_value_holds(d, v);
    } else if crate::text::contains(d, v) {
        lemma_value_keeps(d, t.comment, v);
    }
}

/// The values come in one order: title, artist, album, genre and comment.
pub proof fn the_values_come_in_order(
    title: Seq<char>,
    artist: Seq<char>,
    album: Seq<char>,
    genre: Seq<char>,
    comment: Seq<char>,
)
    requires
        title.len() > 0,
        artist.len() > 0,
        album.len() > 0,
        genre.len() > 0,
        comment.len() > 0,
    ensures
        values_text(
            TagView {
                title: Some(title),
                artist: Some(artist),
                album: Some(album),
                genre: Some(genre),
                comment: Some(comment),
            },
        ) == title + seq![' '] + artist + seq![' '] + album + seq![' '] + genre + seq![' ']
            + comment,
{
    assert(title.push(' ') + artist =~= title + seq![' '] + artist);
    let b = title + seq![' '] + artist;
    assert(b.push(' ') + album =~= b + seq![' '] + album);
    let c = b + seq![' '] + album;
    assert(c.push(' ') + genre =~= c + seq![' '] + genre);
    let d = c + seq![' '] + genre;
    assert(d.push(' ') + comment =~= d + seq![' '] + comment);
}

/// The tag that the format prefers is the one that is read, and the first tag
/// only where there is no such one; a file without tags has no text and is no
/// failure.
pub proof fn the_preferred_tag_is_read(
    file: FileView,
    t: TagView,
    other: Option<TagView>,
    out: Seq<char>,
)
    ensures
        file.parsed == Some(ParsedView::Tags(TagsView { primary: Some(t), first: other }))
            ==> tagged_text(file, out) == (out + values_text(t), None::<Seq<char>>),
        file.parsed == Some(ParsedView::Tags(TagsView { primary: None, first: Some(t) }))
            ==> tagged_text(file, out) == (out + values_text(t), None::<Seq<char>>),
        file.parsed == Some(ParsedView::Tags(TagsView { primary: None, first: None }))
            ==> tagged_text(file, out) == (out, None::<Seq<char>>),
        file.parsed matches Some(ParsedView::Failed(_)) ==> tagged_text(file, out).1 is Some
            && tagged_text(file, out).0 == out,
        file.parsed matches Some(ParsedView::Panicked(_)) ==> tagged_text(file, out).1 is Some
            && tagged_text(file, out).0 == out,
{
    assert(out + Seq::<char>::empty() =~= out);
}

} // verus!
