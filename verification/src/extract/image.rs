//! Image metadata: EXIF tags become properties. The text is left empty; this
//! extractor does not read pictures.
use super::office::Walked;
use super::{naming, ExtractError, Extractor, FileView, Limits, Outside, Scratch, SourceFile};
use crate::text::{is_prefix, push_str, starts_with};
use vstd::prelude::*;

verus! {

/// The directory of an image's metadata a tag belongs to.
#[derive(Debug, Clone, Copy, PartialEq, Eq, Structural)]
pub enum TagContext {
    Tiff,
    Exif,
    Gps,
}

/// The value of a tag: byte strings, or any other value as it is displayed.
#[derive(Debug)]
pub enum FieldValue {
    Ascii(Vec<Vec<u8>>),
    Other(String),
}

/// A [`FieldValue`] by its contents.
pub enum FieldView {
    Ascii(Seq<Seq<u8>>),
    Other(Seq<char>),
}

impl View for FieldValue {
    type V = FieldView;

    open spec fn view(&self) -> FieldView {
        match *self {
            FieldValue::Ascii(v) => FieldView::Ascii(v@.map_values(|b: Vec<u8>| b@)),
            FieldValue::Other(s) => FieldView::Other(s@),
        }
    }
}

/// What a tag of an image's main picture holds, by its context and number;
/// nothing where the image has no such tag or no metadata at all.
pub uninterp spec fn exif_field(body: Seq<u8>, context: u8, number: u16) -> Option<FieldView>;

/// The number of a context.
pub open spec fn context_number(c: TagContext) -> u8 {
    match c {
        TagContext::Tiff => 0,
        TagContext::Exif => 1,
        TagContext::Gps => 2,
    }
}

/// `exif::Reader::read_from_container` on bytes in hand and
/// `exif::Exif::get_field` for the main picture; `exif::Value::display_as`
/// writes out a value that is no byte string. What comes out is a function of
/// the bytes and the tag.
#[verifier::external_body]
fn read_field(body: &[u8], context: TagContext, number: u16) -> (r: Option<FieldValue>)
    ensures
        match r {
            Some(f) => exif_field(body@, context_number(context), number) == Some(f@),
            None => exif_field(body@, context_number(context), number) is None,
        },
{
    let exif = exif::Reader::new().read_from_container(&mut std::io::Cursor::new(body)).ok()?;
    let context = match context {
        TagContext::Tiff => exif::Context::Tiff,
        TagContext::Exif => exif::Context::Exif,
        TagContext::Gps => exif::Context::Gps,
    };
    let field = exif.get_field(exif::Tag(context, number), exif::In::PRIMARY)?;
    Some(match &field.value {
        exif::Value::Ascii(parts) => FieldValue::Ascii(parts.clone()),
        other => FieldValue::Other(other.display_as(exif::Tag::Copyright).to_string()),
    })
}

/// The bytes of a part up to the first NUL, each as the character with its
/// number.
pub open spec fn part_text(bytes: Seq<u8>) -> Seq<char>
    decreases bytes.len(),
{
    if bytes.len() == 0 || bytes[0] == 0 {
        seq![]
    } else {
        seq![bytes[0] as char] + part_text(bytes.skip(1))
    }
}

/// The parts that hold anything among the first `n`, one space between them.
pub open spec fn parts_text(parts: Seq<Seq<u8>>, n: int) -> Seq<char>
    decreases n,
{
    if n <= 0 {
        seq![]
    } else {
        let before = parts_text(parts, n - 1);
        let part = part_text(parts[n - 1]);
        if part.len() == 0 {
            before
        } else if before.len() == 0 {
            part
        } else {
            before.push(' ') + part
        }
    }
}

/// The text of a value.
pub open spec fn field_text(f: FieldView) -> Seq<char> {
    match f {
        FieldView::Ascii(parts) => parts_text(parts, parts.len() as int),
        FieldView::Other(s) => s,
    }
}

fn part_to_string(bytes: &Vec<u8>) -> (s: String)
    ensures
        s@ == part_text(bytes@),
{
    let mut s = String::new();
    let mut i: usize = 0;
    assert(bytes@.skip(0) =~= bytes@);
    assert(s@ + part_text(bytes@) =~= part_text(bytes@));
    while i < bytes.len() && bytes[i] != 0
        invariant
            i <= bytes@.len(),
            s@ + part_text(bytes@.skip(i as int)) == part_text(bytes@),
        decreases bytes@.len() - i,
    {
        let c = bytes[i] as char;
        let ghost before = s@;
        s.push(c);
        proof {
            let t = bytes@.skip(i as int);
            assert(t.skip(1) =~= bytes@.skip(i + 1));
            assert(s@ + part_text(bytes@.skip(i + 1)) =~= before + part_text(t));
        }
        i += 1;
    }
    assert(s@ + part_text(bytes@.skip(i as int)) =~= s@);
    s
}

/// The text of a value, with empty parts left out.
pub fn field_to_string(value: &FieldValue) -> (s: String)
    ensures
        s@ == field_text(value@),
{
    match value {
        FieldValue::Other(s) => s.clone(),
        FieldValue::Ascii(parts) => {
            let ghost all = parts@.map_values(|b: Vec<u8>| b@);
            let mut s = String::new();
            let mut i: usize = 0;
            while i < parts.len()
                invariant
                    i <= parts@.len(),
                    all == parts@.map_values(|b: Vec<u8>| b@),
                    s@ == parts_text(all, i as int),
                decreases parts@.len() - i,
            {
                assert(all[i as int] == parts@[i as int]@);
                let part = part_to_string(&parts[i]);
                if !part.as_str().is_empty() {
                    if s.as_str().is_empty() {
                        s = part;
                    } else {
                        s.push(' ');
                        push_str(&mut s, part.as_str());
                    }
                }
                i += 1;
            }
            s
        },
    }
}

/// The tags that become properties: key, context and number.
pub const TAGS: [(&'static str, TagContext, u16); 13] = [
    ("make", TagContext::Tiff, 0x10f),
    ("model", TagContext::Tiff, 0x110),
    ("date_taken", TagContext::Exif, 0x9003),
    ("software", TagContext::Tiff, 0x131),
    ("orientation", TagContext::Tiff, 0x112),
    ("width", TagContext::Exif, 0xa002),
    ("height", TagContext::Exif, 0xa003),
    ("iso", TagContext::Exif, 0x8827),
    ("f_number", TagContext::Exif, 0x829d),
    ("exposure", TagContext::Exif, 0x829a),
    ("focal_length", TagContext::Exif, 0x920a),
    ("gps_latitude", TagContext::Gps, 0x2),
    ("gps_longitude", TagContext::Gps, 0x4),
];

/// The properties that the first `n` tags make: those with any text.
pub open spec fn properties_of(body: Seq<u8>, n: int) -> Seq<(Seq<char>, Seq<char>)>
    decreases n,
{
    if n <= 0 {
        seq![]
    } else {
        let before = properties_of(body, n - 1);
        let (key, context, number) = TAGS@[n - 1];
        match exif_field(body, context_number(context), number) {
            None => before,
            Some(f) => if field_text(f).len() == 0 {
                before
            } else {
                before.push((key@, field_text(f)))
            },
        }
    }
}

pub open spec fn pairs(v: Seq<(String, String)>) -> Seq<(Seq<char>, Seq<char>)> {
    v.map_values(|p: (String, String)| (p.0@, p.1@))
}

#[derive(Debug, Clone, Copy, PartialEq, Eq, Structural)]
pub struct ImageExtractor;

impl ImageExtractor {
    /// The properties of an image. One without metadata has none, which is no
    /// failure.
    pub fn properties(&self, body: &[u8]) -> (r: Vec<(String, String)>)
        ensures
            pairs(r@) == properties_of(body@, 13),
    {
        let tags = TAGS;
        let mut r: Vec<(String, String)> = Vec::new();
        let mut i: usize = 0;
        assert(pairs(r@) =~= seq![]);
        while i < 13
            invariant
                i <= 13,
                tags == TAGS,
                pairs(r@) == properties_of(body@, i as int),
            decreases 13 - i,
        {
            let (key, context, number): (&'static str, TagContext, u16) = tags[i];
            match read_field(body, context, number) {
                Some(f) => {
                    let s = field_to_string(&f);
                    if !s.as_str().is_empty() {
                        let ghost before = pairs(r@);
                        r.push((key.to_owned(), s));
                        assert(pairs(r@) =~= before.push((key@, s@)));
                    }
                },
                None => {},
            }
            i += 1;
        }
        r
    }
}

impl Extractor for ImageExtractor {
    open spec fn claims(&self, mime: Seq<char>) -> bool {
        is_prefix("image/"@, mime)
    }

    open spec fn parses_outside(&self, body: Seq<u8>) -> Option<Outside> {
        None
    }

    open spec fn head_parses_outside(&self, body: Seq<u8>) -> Option<Outside> {
        None
    }

    open spec fn extracted(&self, file: FileView, out: Seq<char>, limits: Limits) -> Walked {
        (out, None)
    }

    open spec fn head_extracted(&self, file: FileView, out: Seq<char>) -> Option<Walked> {
        None
    }

    open spec fn read_failure(&self, path: Seq<char>, error: Seq<char>) -> Seq<char> {
        "image open "@ + path + ": "@ + error
    }

    fn supports(&self, mime: &str) -> (r: bool) {
        starts_with(mime, "image/")
    }

    fn read_error(&self, path: &str, error: &str) -> (r: String) {
        naming("image open ", path, error)
    }

    fn runs_outside(&self, body: &[u8]) -> (r: Option<Outside>) {
        None
    }

    fn head_runs_outside(&self, body: &[u8]) -> (r: Option<Outside>) {
        None
    }

    fn extract(&self, file: &SourceFile, out: &mut String, scratch: &Scratch) -> (r: Result<
        (),
        ExtractError,
    >) {
        Ok(())
    }

    fn extract_from_head(&self, file: &SourceFile, out: &mut String) -> (r: Option<
        Result<(), ExtractError>,
    >) {
        None
    }
}

/// A part of a value is read up to its first NUL, byte for character, and no
/// further.
pub proof fn a_part_ends_at_its_first_nul(bytes: Seq<u8>, rest: Seq<u8>)
    requires
        forall|i: int| 0 <= i < bytes.len() ==> (#[trigger] bytes[i]) != 0,
    ensures
        part_text(bytes).len() == bytes.len(),
        forall|i: int|
            0 <= i < bytes.len() ==> (#[trigger] part_text(bytes)[i]) as u32 == bytes[i] as u32,
        part_text(bytes + seq![0u8] + rest) == part_text(bytes),
    decreases bytes.len(),
{
    let all = bytes + seq![0u8] + rest;
    if bytes.len() == 0 {
        assert(all[0] == 0);
    } else {
        let tail = bytes.skip(1);
        assert forall|i: int| 0 <= i < tail.len() implies (#[trigger] tail[i]) != 0 by {
            assert(tail[i] == bytes[i + 1]);
        }
        a_part_ends_at_its_first_nul(tail, rest);
        assert(all[0] == bytes[0]);
        assert(all.skip(1) =~= tail + seq![0u8] + rest);
        assert forall|i: int| 0 <= i < bytes.len() implies (#[trigger] part_text(bytes)[i]) as u32
            == bytes[i] as u32 by {
            if i > 0 {
                assert(part_text(bytes)[i] == part_text(tail)[i - 1]);
                assert(tail[i - 1] == bytes[i]);
            }
        }
    }
}

/// Every tag of the table that the image has with any text becomes a property
/// under its own key, and nothing else does.
pub proof fn every_tag_with_text_is_a_property(body: Seq<u8>, n: int, k: int, p: (Seq<char>, Seq<char>))
    requires
        0 <= n <= 13,
    ensures
        0 <= k < n && exif_field(body, context_number(TAGS@[k].1), TAGS@[k].2) is Some && field_text(
            exif_field(body, context_number(TAGS@[k].1), TAGS@[k].2)->Some_0,
        ).len() > 0 ==> properties_of(body, n).contains(
            (
                TAGS@[k].0@,
                field_text(exif_field(body, context_number(TAGS@[k].1), TAGS@[k].2)->Some_0),
            ),
        ),
        properties_of(body, n).contains(p) ==> p.1.len() > 0 && exists|j: int|
            {
                &&& 0 <= j < n
                &&& (#[trigger] TAGS@[j]).0@ == p.0
                &&& exif_field(body, context_number(TAGS@[j].1), TAGS@[j].2) is Some
                &&& field_text(exif_field(body, context_number(TAGS@[j].1), TAGS@[j].2)->Some_0)
                    == p.1
            },
    decreases n,
{
    if n > 0 {
        every_tag_with_text_is_a_property(body, n - 1, k, p);
        let before = properties_of(body, n - 1);
        let all = properties_of(body, n);
        assert forall|x: (Seq<char>, Seq<char>)| before.contains(x) implies all.contains(x) by {
            let i = choose|i: int| 0 <= i < before.len() && before[i] == x;
            assert(all[i] == x);
        }
        let (key, context, number) = TAGS@[n - 1];
        if let Some(f) = exif_field(body, context_number(context), number) {
            if field_text(f).len() > 0 {
                assert(all[before.len() as int] == (key@, field_text(f)));
            }
        }
        if all.contains(p) {
            let i = choose|i: int| 0 <= i < all.len() && all[i] == p;
            if i < before.len() {
                assert(before[i] == p);
            } else {
                assert(TAGS@[n - 1].0@ == p.0);
            }
        }
    }
}

/// The tags that are looked up, under the key that each becomes.
pub proof fn these_tags_become_properties(body: Seq<u8>, f: FieldView)
    requires
        field_text(f).len() > 0,
    ensures
        exif_field(body, 0, 0x10f) == Some(f) ==> properties_of(body, 13).contains(
            ("make"@, field_text(f)),
        ),
        exif_field(body, 0, 0x110) == Some(f) ==> properties_of(body, 13).contains(
            ("model"@, field_text(f)),
        ),
        exif_field(body, 1, 0x9003) == Some(f) ==> properties_of(body, 13).contains(
            ("date_taken"@, field_text(f)),
        ),
        exif_field(body, 0, 0x131) == Some(f) ==> properties_of(body, 13).contains(
            ("software"@, field_text(f)),
        ),
        exif_field(body, 0, 0x112) == Some(f) ==> properties_of(body, 13).contains(
            ("orientation"@, field_text(f)),
        ),
        exif_field(body, 1, 0xa002) == Some(f) ==> properties_of(body, 13).contains(
            ("width"@, field_text(f)),
        ),
        exif_field(body, 1, 0xa003) == Some(f) ==> properties_of(body, 13).contains(
            ("height"@, field_text(f)),
        ),
        exif_field(body, 1, 0x8827) == Some(f) ==> properties_of(body, 13).contains(
            ("iso"@, field_text(f)),
        ),
        exif_field(body, 1, 0x829d) == Some(f) ==> properties_of(body, 13).contains(
            ("f_number"@, field_text(f)),
        ),
        exif_field(body, 1, 0x829a) == Some(f) ==> properties_of(body, 13).contains(
            ("exposure"@, field_text(f)),
        ),
        exif_field(body, 1, 0x920a) == Some(f) ==> properties_of(body, 13).contains(
            ("focal_length"@, field_text(f)),
        ),
        exif_field(body, 2, 2) == Some(f) ==> properties_of(body, 13).contains(
            ("gps_latitude"@, field_text(f)),
        ),
        exif_field(body, 2, 4) == Some(f) ==> properties_of(body, 13).contains(
            ("gps_longitude"@, field_text(f)),
        ),
{
    let p = (seq![], seq![]);
    every_tag_with_text_is_a_property(body, 13, 0, p);
    every_tag_with_text_is_a_property(body, 13, 1, p);
    every_tag_with_text_is_a_property(body, 13, 2, p);
    every_tag_with_text_is_a_property(body, 13, 3, p);
    every_tag_with_text_is_a_property(body, 13, 4, p);
    every_tag_with_text_is_a_property(body, 13, 5, p);
    every_tag_with_text_is_a_property(body, 13, 6, p);
    every_tag_with_text_is_a_property(body, 13, 7, p);
    every_tag_with_text_is_a_property(body, 13, 8, p);
    every_tag_with_text_is_a_property(body, 13, 9, p);
    every_tag_with_text_is_a_property(body, 13, 10, p);
    every_tag_with_text_is_a_property(body, 13, 11, p);
    every_tag_with_text_is_a_property(body, 13, 12, p);
}

} // verus!
