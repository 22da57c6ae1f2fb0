//! RTF. It registers before the plain-text extractor, which claims every
//! `text/*` and would index `text/rtf` raw.
//!
//! The source is written so that the parser can take it before it is handed
//! over: see [`source`]. What the parser would still panic on is told apart by
//! [`parsable`] and counts as a panic without being tried.
use super::office::{leaves, Walked};
use super::{
    naming, panicked_on, Extractor, ExtractError, FileView, Limits, Outside, Scratch, SourceFile,
};
use crate::text::{
    chars_of, joined, lossy_text, parse_chars, parse_unsigned, push_str, same, string_from,
    text_view, utf8_lossy,
};
use vstd::prelude::*;

verus! {

/// Whether a character goes on with a control word or its number.
pub open spec fn goes_on(c: char) -> bool {
    ('a' <= c <= 'z') || ('A' <= c <= 'Z') || ('0' <= c <= '9') || c == '-'
}

/// Whether the control word that ends a paragraph stands at `i`.
pub open spec fn par_at(s: Seq<char>, i: int) -> bool {
    &&& 0 <= i
    &&& i + 4 <= s.len()
    &&& s[i] == '\\'
    &&& s[i + 1] == 'p'
    &&& s[i + 2] == 'a'
    &&& s[i + 3] == 'r'
    &&& i + 4 < s.len() ==> !goes_on(s[i + 4])
}

/// Whether a character belongs to the number of a control word.
pub open spec fn in_number(c: char) -> bool {
    ('0' <= c <= '9') || c == '-'
}

/// Where the number that stands at `i` ends.
pub open spec fn number_end(s: Seq<char>, i: int) -> int
    decreases s.len() - i,
{
    if 0 <= i < s.len() && in_number(s[i]) {
        number_end(s, i + 1)
    } else {
        i
    }
}

/// The UTF-16 code unit that the number of a Unicode escape stands for. Units
/// from 32768 on are also written as negative numbers.
pub open spec fn unit_of(t: Seq<char>) -> Option<int> {
    if t.len() > 0 && t[0] == '-' {
        match parse_unsigned(t.skip(1), 10, 65536) {
            Some(n) => Some(
                if n == 0 {
                    0
                } else {
                    65536 - n
                },
            ),
            None => None,
        }
    } else {
        parse_unsigned(t, 10, 65535)
    }
}

/// The first half of a surrogate pair.
pub open spec fn is_high(u: int) -> bool {
    0xD800 <= u <= 0xDBFF
}

/// The second half of a surrogate pair.
pub open spec fn is_low(u: int) -> bool {
    0xDC00 <= u <= 0xDFFF
}

/// The Unicode escape at `i`: its code unit, and where its number ends.
pub open spec fn escape_at(s: Seq<char>, i: int) -> Option<(int, int)> {
    let e = number_end(s, i + 2);
    if 0 <= i && i + 2 < s.len() && s[i] == '\\' && s[i + 1] == 'u' && i + 2 <= e <= s.len() {
        match unit_of(s.subrange(i + 2, e)) {
            Some(u) => Some((u, e)),
            None => None,
        }
    } else {
        None
    }
}

/// Where the text after an escape goes on once its delimiter and its one
/// fallback are passed over: a question mark, or a byte in hexadecimal.
pub open spec fn after_fallback(s: Seq<char>, e: int) -> int {
    let a = if e < s.len() && s[e] == ' ' {
        e + 1
    } else {
        e
    };
    if a < s.len() && s[a] == '?' {
        a + 1
    } else if a + 4 <= s.len() && s[a] == '\\' && s[a + 1] == '\'' {
        a + 4
    } else {
        a
    }
}

/// The second half that completes a pair whose first half ends at `e`: where
/// it starts and ends.
pub open spec fn mate(s: Seq<char>, e: int) -> Option<(int, int)> {
    let f = after_fallback(s, e);
    match escape_at(s, f) {
        Some((u, end)) => if is_low(u) {
            Some((f, end))
        } else {
            None
        },
        None => None,
    }
}

/// Whether a number that ends at `e` is seen to end there.
pub open spec fn delimited(s: Seq<char>, e: int) -> bool {
    e >= s.len() || s[e] == ' ' || s[e] == '\t' || s[e] == '\n' || s[e] == '\r' || s[e] == '{'
        || s[e] == '}' || s[e] == '\\'
}

/// What ends an escape whose number ends at `e`, and where the source goes on:
/// a question mark there is its fallback and goes; other text is kept off by a
/// space, without which the parser takes it for part of the word.
pub open spec fn closing(s: Seq<char>, e: int) -> (Seq<char>, int) {
    if e < s.len() && s[e] == '?' {
        (seq![' '], e + 1)
    } else if delimited(s, e) {
        (seq![], e)
    } else {
        (seq![' '], e)
    }
}

/// What an escape becomes, and where the source goes on. The halves of a pair
/// are put side by side; a half alone becomes the replacement character.
pub open spec fn rewritten(s: Seq<char>, i: int, u: int, e: int) -> (Seq<char>, int) {
    match mate(s, e) {
        Some((f, end)) if is_high(u) => (
            s.subrange(i, e) + s.subrange(f, end) + closing(s, end).0,
            closing(s, end).1,
        ),
        _ => (
            (if is_high(u) || is_low(u) {
                "\\u65533"@
            } else {
                s.subrange(i, e)
            }) + closing(s, e).0,
            closing(s, e).1,
        ),
    }
}

/// A source from `i` on as the parser takes it: every end of a paragraph is
/// written as a line break, the one kind of break that the parser puts into
/// the text, and every Unicode escape is one that it decodes. A backslash
/// before anything but a lower-case letter escapes it, and begins no word.
pub open spec fn source_from(s: Seq<char>, i: int) -> Seq<char>
    decreases s.len() - i,
{
    if i < 0 || i >= s.len() {
        seq![]
    } else if par_at(s, i) {
        "\\line"@ + source_from(s, i + 4)
    } else if s[i] == '\\' && i + 1 < s.len() && !('a' <= s[i + 1] <= 'z') {
        seq![s[i], s[i + 1]] + source_from(s, i + 2)
    } else {
        match escape_at(s, i) {
            Some((u, e)) => {
                let w = rewritten(s, i, u, e);
                w.0 + source_from(s, w.1)
            },
            None => seq![s[i]] + source_from(s, i + 1),
        }
    }
}

/// The source that a file's bytes hold, as it is handed to the parser.
pub open spec fn source_of(body: Seq<u8>) -> Seq<char> {
    source_from(lossy_text(body), 0)
}

fn end_of_number(v: &Vec<char>, from: usize) -> (r: usize)
    requires
        from <= v@.len(),
    ensures
        r == number_end(v@, from as int),
        from <= r <= v@.len(),
{
    let mut i: usize = from;
    while i < v.len() && (('0' <= v[i] && v[i] <= '9') || v[i] == '-')
        invariant
            from <= i <= v@.len(),
            number_end(v@, i as int) == number_end(v@, from as int),
        decreases v@.len() - i,
    {
        i += 1;
    }
    i
}

fn read_unit(v: &Vec<char>, from: usize, to: usize) -> (r: Option<u64>)
    requires
        from <= to <= v@.len(),
    ensures
        match r {
            Some(u) => unit_of(v@.subrange(from as int, to as int)) == Some(u as int),
            None => unit_of(v@.subrange(from as int, to as int)) is None,
        },
{
    let text = string_from(v, from, to);
    let t = chars_of(text.as_str());
    assert(t@ == v@.subrange(from as int, to as int));
    assert(t@.skip(0) =~= t@);
    if t.len() > 0 && t[0] == '-' {
        match parse_chars(&t, 1, 10, 65536) {
            Some(n) => Some(
                if n == 0 {
                    0
                } else {
                    65536 - n
                },
            ),
            None => None,
        }
    } else {
        parse_chars(&t, 0, 10, 65535)
    }
}

fn read_escape(v: &Vec<char>, i: usize) -> (r: Option<(u64, usize)>)
    requires
        i <= v@.len(),
    ensures
        match r {
            Some((u, e)) => escape_at(v@, i as int) == Some((u as int, e as int)) && i + 2 <= e
                <= v@.len(),
            None => escape_at(v@, i as int) is None,
        },
{
    let n: usize = v.len();
    if n - i < 3 || v[i] != '\\' || v[i + 1] != 'u' {
        return None;
    }
    let e: usize = end_of_number(v, i + 2);
    match read_unit(v, i + 2, e) {
        Some(u) => Some((u, e)),
        None => None,
    }
}

fn past_fallback(v: &Vec<char>, e: usize) -> (r: usize)
    requires
        e <= v@.len(),
    ensures
        r == after_fallback(v@, e as int),
        e <= r <= v@.len(),
{
    let n: usize = v.len();
    let a: usize = if e < n && v[e] == ' ' {
        e + 1
    } else {
        e
    };
    if a < n && v[a] == '?' {
        a + 1
    } else if n - a >= 4 && v[a] == '\\' && v[a + 1] == '\'' {
        a + 4
    } else {
        a
    }
}

fn find_mate(v: &Vec<char>, e: usize) -> (r: Option<(usize, usize)>)
    requires
        e <= v@.len(),
    ensures
        match r {
            Some((f, end)) => mate(v@, e as int) == Some((f as int, end as int)) && e <= f <= end
                <= v@.len(),
            None => mate(v@, e as int) is None,
        },
{
    let f: usize = past_fallback(v, e);
    match read_escape(v, f) {
        Some((u, end)) => if 0xDC00 <= u && u <= 0xDFFF {
            Some((f, end))
        } else {
            None
        },
        None => None,
    }
}

fn ends_number(v: &Vec<char>, e: usize) -> (r: bool)
    requires
        e <= v@.len(),
    ensures
        r == delimited(v@, e as int),
{
    e == v.len() || v[e] == ' ' || v[e] == '\t' || v[e] == '\n' || v[e] == '\r' || v[e] == '{'
        || v[e] == '}' || v[e] == '\\'
}

/// End an escape whose number ends at `e`, and say where the source goes on.
fn close_escape(r: &mut String, v: &Vec<char>, e: usize) -> (next: usize)
    requires
        e <= v@.len(),
    ensures
        final(r)@ == old(r)@ + closing(v@, e as int).0,
        next == closing(v@, e as int).1,
        e <= next <= v@.len(),
{
    let ghost before = r@;
    if e < v.len() && v[e] == '?' {
        r.push(' ');
        assert(r@ =~= before + seq![' ']);
        e + 1
    } else if ends_number(v, e) {
        assert(r@ =~= before + seq![]);
        e
    } else {
        r.push(' ');
        assert(r@ =~= before + seq![' ']);
        e
    }
}

/// Write the escape at `i`, and say where the source goes on.
fn write_escape(r: &mut String, v: &Vec<char>, i: usize, u: u64, e: usize) -> (next: usize)
    requires
        i < e <= v@.len(),
    ensures
        final(r)@ == old(r)@ + rewritten(v@, i as int, u as int, e as int).0,
        next == rewritten(v@, i as int, u as int, e as int).1,
        e <= next <= v@.len(),
{
    let ghost before = r@;
    let high: bool = 0xD800 <= u && u <= 0xDBFF;
    let low: bool = 0xDC00 <= u && u <= 0xDFFF;
    if high {
        match find_mate(v, e) {
            Some((f, end)) => {
                push_str(r, string_from(v, i, e).as_str());
                push_str(r, string_from(v, f, end).as_str());
                let next: usize = close_escape(r, v, end);
                assert(r@ =~= before + rewritten(v@, i as int, u as int, e as int).0);
                return next;
            },
            None => {},
        }
    }
    if high || low {
        push_str(r, "\\u65533");
    } else {
        push_str(r, string_from(v, i, e).as_str());
    }
    let next: usize = close_escape(r, v, e);
    assert(r@ =~= before + rewritten(v@, i as int, u as int, e as int).0);
    next
}

/// The source to hand to the parser. RTF is 7-bit by design, so the lossy view
/// of its bytes loses nothing from a well-formed file.
pub fn source(body: &[u8]) -> (r: String)
    ensures
        r@ == source_of(body@),
{
    let text = utf8_lossy(body);
    let v = chars_of(text.as_str());
    let n: usize = v.len();
    let mut r = String::new();
    let mut i: usize = 0;
    while i < n
        invariant
            n == v@.len(),
            i <= n,
            r@ + source_from(v@, i as int) == source_from(v@, 0),
        decreases n - i,
    {
        let ghost so_far = r@;
        if v[i] == '\\' && i + 1 < n && !('a' <= v[i + 1] && v[i + 1] <= 'z') {
            r.push(v[i]);
            r.push(v[i + 1]);
            assert(r@ + source_from(v@, i + 2) =~= so_far + (seq![v@[i as int], v@[i + 1]]
                + source_from(v@, i + 2)));
            i += 2;
        } else if ends_paragraph(&v, i) {
            push_str(&mut r, "\\line");
            assert(r@ + source_from(v@, i + 4) =~= so_far + ("\\line"@ + source_from(v@, i + 4)));
            i += 4;
        } else {
            match read_escape(&v, i) {
                Some((u, e)) => {
                    let next: usize = write_escape(&mut r, &v, i, u, e);
                    let ghost w = rewritten(v@, i as int, u as int, e as int);
                    assert(r@ + source_from(v@, next as int) =~= so_far + (w.0 + source_from(
                        v@,
                        next as int,
                    )));
                    i = next;
                },
                None => {
                    r.push(v[i]);
                    assert(r@ + source_from(v@, i + 1) =~= so_far + (seq![v@[i as int]]
                        + source_from(v@, i + 1)));
                    i += 1;
                },
            }
        }
    }
    assert(r@ + source_from(v@, n as int) =~= r@);
    r
}

fn ends_paragraph(v: &Vec<char>, i: usize) -> (r: bool)
    requires
        i < v@.len(),
    ensures
        r == par_at(v@, i as int),
{
    let n: usize = v.len();
    if n - i < 4 {
        return false;
    }
    if !(v[i] == '\\' && v[i + 1] == 'p' && v[i + 2] == 'a' && v[i + 3] == 'r') {
        return false;
    }
    if n - i == 4 {
        return true;
    }
    let c = v[i + 4];
    !(('a' <= c && c <= 'z') || ('A' <= c && c <= 'Z') || ('0' <= c && c <= '9') || c == '-')
}

/// Whether a backslash at `i` begins a word for the parser, which never takes
/// one for a beginning that stands behind another.
pub open spec fn begins_word(s: Seq<char>, i: int) -> bool {
    0 <= i < s.len() && s[i] == '\\' && (i == 0 || s[i - 1] != '\\')
}

/// Whether a second half of a pair stands at `e` and is seen to end.
pub open spec fn completed(s: Seq<char>, e: int) -> bool {
    match escape_at(s, e) {
        Some((u, end)) => is_low(u) && delimited(s, end),
        None => false,
    }
}

/// The largest count of fallbacks for which the parser can make room.
pub const MAX_FALLBACKS: u64 = 0x3FFF_FFFE;

/// Whether the control word that sets how many fallbacks follow an escape
/// stands at `i` with a number for which there is no room.
pub open spec fn bad_count(s: Seq<char>, i: int) -> bool {
    let e = number_end(s, i + 3);
    &&& i + 3 < s.len()
    &&& s[i + 2] == 'c'
    &&& i + 3 < e <= s.len()
    &&& parse_unsigned(s.subrange(i + 3, e), 10, MAX_FALLBACKS as int) is None
}

/// Whether from `i` on every half of a surrogate pair stands beside the other
/// half, and every count of fallbacks has room.
pub open spec fn paired_from(s: Seq<char>, i: int) -> bool
    decreases s.len() - i,
{
    if i < 0 || i >= s.len() {
        true
    } else if !begins_word(s, i) || i + 1 >= s.len() || s[i + 1] != 'u' {
        paired_from(s, i + 1)
    } else if bad_count(s, i) {
        false
    } else {
        match escape_at(s, i) {
            Some((u, e)) => if is_high(u) {
                completed(s, e) && paired_from(s, escape_at(s, e)->Some_0.1)
            } else {
                !is_low(u) && paired_from(s, i + 1)
            },
            None => paired_from(s, i + 1),
        }
    }
}

/// Whether the control word that completes a color stands at `i`.
pub open spec fn color_at(s: Seq<char>, i: int) -> bool {
    &&& 0 <= i
    &&& i + 5 <= s.len()
    &&& s[i] == '\\'
    &&& s[i + 1] == 'b'
    &&& s[i + 2] == 'l'
    &&& s[i + 3] == 'u'
    &&& s[i + 4] == 'e'
}

/// How many colors a source completes from `i` on.
pub open spec fn colors_from(s: Seq<char>, i: int) -> nat
    decreases s.len() - i,
{
    if i < 0 || i >= s.len() {
        0
    } else {
        colors_from(s, i + 1) + if color_at(s, i) {
            1nat
        } else {
            0
        }
    }
}

/// The size of the one line spacing that the parser cannot turn around.
pub const WORST_SPACING: u64 = 2_147_483_648;

/// Whether the control word for the space between lines stands at `i` with the
/// number that has no counterpart.
pub open spec fn bad_spacing(s: Seq<char>, i: int) -> bool {
    let e = number_end(s, i + 3);
    &&& begins_word(s, i)
    &&& i + 3 < s.len()
    &&& s[i + 1] == 's'
    &&& s[i + 2] == 'l'
    &&& s[i + 3] == '-'
    &&& i + 3 < e <= s.len()
    &&& parse_unsigned(s.subrange(i + 4, e), 10, WORST_SPACING as int) == Some(
        WORST_SPACING as int,
    )
}

/// The most colors that the parser can number.
pub const MAX_COLORS: usize = 65_534;

/// The longest source whose groups the parser can count.
pub const MAX_SOURCE: usize = 0x7FFF_FFFF;

/// Whether the parser takes a source without a panic.
pub open spec fn parsable(s: Seq<char>) -> bool {
    &&& s.len() <= MAX_SOURCE
    &&& paired_from(s, 0)
    &&& colors_from(s, 0) <= MAX_COLORS
    &&& forall|i: int| 0 <= i < s.len() ==> !#[trigger] bad_spacing(s, i)
}

fn has_bad_spacing(v: &Vec<char>, i: usize) -> (r: bool)
    requires
        i < v@.len(),
    ensures
        r == bad_spacing(v@, i as int),
{
    let n: usize = v.len();
    if n - i < 4 || v[i] != '\\' || (i > 0 && v[i - 1] == '\\') {
        return false;
    }
    if v[i + 1] != 's' || v[i + 2] != 'l' || v[i + 3] != '-' {
        return false;
    }
    let e: usize = end_of_number(v, i + 3);
    if e <= i + 4 {
        assert(v@.subrange(i + 4, i + 4).len() == 0);
        return false;
    }
    let text = string_from(v, i + 4, e);
    let t = chars_of(text.as_str());
    assert(t@.skip(0) =~= t@);
    match parse_chars(&t, 0, 10, WORST_SPACING) {
        Some(k) => k == WORST_SPACING,
        None => false,
    }
}

fn is_spaced(v: &Vec<char>) -> (r: bool)
    ensures
        r == forall|i: int| 0 <= i < v@.len() ==> !#[trigger] bad_spacing(v@, i),
{
    let n: usize = v.len();
    let mut i: usize = 0;
    while i < n
        invariant
            n == v@.len(),
            i <= n,
            forall|k: int| 0 <= k < i ==> !#[trigger] bad_spacing(v@, k),
        decreases n - i,
    {
        if has_bad_spacing(v, i) {
            return false;
        }
        i += 1;
    }
    true
}

fn has_bad_count(v: &Vec<char>, i: usize) -> (r: bool)
    requires
        i < v@.len(),
    ensures
        r == bad_count(v@, i as int),
{
    let n: usize = v.len();
    if n - i < 4 || v[i + 2] != 'c' {
        return false;
    }
    let e: usize = end_of_number(v, i + 3);
    if e == i + 3 {
        return false;
    }
    let text = string_from(v, i + 3, e);
    let t = chars_of(text.as_str());
    assert(t@.skip(0) =~= t@);
    parse_chars(&t, 0, 10, MAX_FALLBACKS).is_none()
}

fn completes(v: &Vec<char>, e: usize) -> (r: Option<usize>)
    requires
        e <= v@.len(),
    ensures
        match r {
            Some(end) => completed(v@, e as int) && escape_at(v@, e as int)->Some_0.1 == end
                && e < end <= v@.len(),
            None => !completed(v@, e as int),
        },
{
    match read_escape(v, e) {
        Some((u, end)) => if 0xDC00 <= u && u <= 0xDFFF && ends_number(v, end) {
            Some(end)
        } else {
            None
        },
        None => None,
    }
}

fn is_paired(v: &Vec<char>) -> (r: bool)
    ensures
        r == paired_from(v@, 0),
{
    let n: usize = v.len();
    let mut i: usize = 0;
    while i < n
        invariant
            n == v@.len(),
            i <= n,
            paired_from(v@, i as int) == paired_from(v@, 0),
        decreases n - i,
    {
        let word: bool = v[i] == '\\' && (i == 0 || v[i - 1] != '\\') && i + 1 < n && v[i + 1]
            == 'u';
        if !word {
            i += 1;
        } else if has_bad_count(v, i) {
            return false;
        } else {
            match read_escape(v, i) {
                Some((u, e)) => {
                    if 0xD800 <= u && u <= 0xDBFF {
                        match completes(v, e) {
                            Some(end) => {
                                i = end;
                            },
                            None => return false,
                        }
                    } else if 0xDC00 <= u && u <= 0xDFFF {
                        return false;
                    } else {
                        i += 1;
                    }
                },
                None => {
                    i += 1;
                },
            }
        }
    }
    true
}

fn count_colors(v: &Vec<char>) -> (r: usize)
    ensures
        r == colors_from(v@, 0),
{
    let n: usize = v.len();
    let mut i: usize = 0;
    let mut count: usize = 0;
    while i < n
        invariant
            n == v@.len(),
            i <= n,
            count <= i,
            count + colors_from(v@, i as int) == colors_from(v@, 0),
        decreases n - i,
    {
        if n - i >= 5 && v[i] == '\\' && v[i + 1] == 'b' && v[i + 2] == 'l' && v[i + 3] == 'u'
            && v[i + 4] == 'e' {
            count += 1;
        }
        i += 1;
    }
    count
}

fn is_parsable(source: &str) -> (r: bool)
    ensures
        r == parsable(source@),
{
    let v = chars_of(source);
    v.len() <= MAX_SOURCE && is_paired(&v) && count_colors(&v) <= MAX_COLORS && is_spaced(&v)
}

/// The text of an RTF source, or why it does not parse.
pub uninterp spec fn rtf_text(source: Seq<char>) -> Result<Seq<char>, Seq<char>>;

/// `rtf_parser::document::RtfDocument::try_from` and
/// `rtf_parser::document::RtfDocument::get_text`: the outcome is a function of
/// the source. The parser panics on a run of Unicode escapes that is no
/// well-formed UTF-16, on a count of fallbacks that is negative or too large to
/// make room for, on more colors than it can number, where the depth of the
/// groups passes what it counts in, and on the line spacing whose size does not
/// fit; a parsable source has none of these.
#[verifier::external_body]
fn parse_rtf(source: &str) -> (r: Result<String, String>)
    requires
        parsable(source@),
    ensures
        text_view(r) == rtf_text(source@),
{
    let parsed = rtf_parser::document::RtfDocument::try_from(source);
    parsed.map(|doc| doc.get_text()).map_err(|e| e.to_string())
}

/// The message for a source that does not parse.
pub open spec fn parse_error(path: Seq<char>, e: Seq<char>) -> Seq<char> {
    "rtf parse "@ + path + ": "@ + e
}

fn parse_failure(path: &str, e: &str) -> (r: String)
    ensures
        r@ == parse_error(path@, e@),
{
    naming("rtf parse ", path, e)
}

/// What the outcome of a parse leaves behind.
pub open spec fn parse_outcome(
    path: Seq<char>,
    parsed: Result<Seq<char>, Seq<char>>,
    out: Seq<char>,
) -> Walked {
    match parsed {
        Ok(t) => (out + t, None),
        Err(e) => (out, Some(parse_error(path, e))),
    }
}

/// The text of a file, after `out`.
pub open spec fn parsed_text(file: FileView, out: Seq<char>) -> Walked {
    let source = source_of(file.body);
    if parsable(source) {
        parse_outcome(file.path, rtf_text(source), out)
    } else {
        (out, Some(panicked_on(file.path)))
    }
}

/// Put the outcome of a parse into `out`.
pub fn finish(path: &str, parsed: Result<String, String>, out: &mut String) -> (r: Result<
    (),
    ExtractError,
>)
    ensures
        leaves(r, final(out)@, parse_outcome(path@, text_view(parsed), old(out)@)),
{
    match parsed {
        Ok(t) => {
            push_str(out, t.as_str());
            Ok(())
        },
        Err(e) => Err(parse_failure(path, e.as_str())),
    }
}

fn parse(file: &SourceFile, out: &mut String) -> (r: Result<(), ExtractError>)
    ensures
        leaves(r, final(out)@, parsed_text(file@, old(out)@)),
{
    let text = source(file.body.as_slice());
    if is_parsable(text.as_str()) {
        let parsed = parse_rtf(text.as_str());
        finish(file.path.as_str(), parsed, out)
    } else {
        Err(joined("extractor panicked on ", file.path.as_str()))
    }
}

#[derive(Debug, Clone, Copy, PartialEq, Eq, Structural)]
pub struct RtfExtractor;

impl Extractor for RtfExtractor {
    open spec fn claims(&self, mime: Seq<char>) -> bool {
        mime == "application/rtf"@ || mime == "text/rtf"@
    }

    open spec fn parses_outside(&self, body: Seq<u8>) -> Option<Outside> {
        None
    }

    open spec fn head_parses_outside(&self, body: Seq<u8>) -> Option<Outside> {
        None
    }

    open spec fn extracted(&self, file: FileView, out: Seq<char>, limits: Limits) -> Walked {
        parsed_text(file, out)
    }

    open spec fn head_extracted(&self, file: FileView, out: Seq<char>) -> Option<Walked> {
        Some(parsed_text(file, out))
    }

    open spec fn read_failure(&self, path: Seq<char>, error: Seq<char>) -> Seq<char> {
        "rtf read "@ + path + ": "@ + error
    }

    fn supports(&self, mime: &str) -> (r: bool) {
        same(mime, "application/rtf") || same(mime, "text/rtf")
    }

    fn read_error(&self, path: &str, error: &str) -> (r: String) {
        naming("rtf read ", path, error)
    }

    fn runs_outside(&self, body: &[u8]) -> (r: Option<Outside>) {
        None
    }

    fn head_runs_outside(&self, body: &[u8]) -> (r: Option<Outside>) {
        None
    }

    fn extract(&self, file: &SourceFile, out: &mut String, scratch: &Scratch) -> (r: Result<
        (),
        ExtractError,
    >) {
        parse(file, out)
    }

    /// RTF has no trailer and needs no seeking; a complete head parses like
    /// the file.
    fn extract_from_head(&self, file: &SourceFile, out: &mut String) -> (r: Option<
        Result<(), ExtractError>,
    >) {
        Some(parse(file, out))
    }
}

/// What holds no backslash reaches the parser as it is.
pub proof fn plain_source_is_kept(s: Seq<char>, i: int)
    requires
        0 <= i <= s.len(),
        forall|k: int| i <= k < s.len() ==> (#[trigger] s[k]) != '\\',
    ensures
        source_from(s, i) == s.skip(i),
    decreases s.len() - i,
{
    if i < s.len() {
        plain_source_is_kept(s, i + 1);
        assert(s[i] != '\\');
        assert(source_from(s, i) == seq![s[i]] + source_from(s, i + 1));
        assert(seq![s[i]] + s.skip(i + 1) =~= s.skip(i));
    } else {
        assert(s.skip(i) =~= seq![]);
    }
}

/// The end of a paragraph reaches the parser as a line break, and only the whole
/// word is one: what is longer, or has a number, is another word and stays.
pub proof fn a_paragraph_end_is_a_line_break(s: Seq<char>, i: int)
    requires
        0 <= i,
        i + 4 <= s.len(),
        s[i] == '\\',
        s[i + 1] == 'p',
        s[i + 2] == 'a',
        s[i + 3] == 'r',
    ensures
        i + 4 == s.len() || s[i + 4] == ' ' || s[i + 4] == '\n' || s[i + 4] == '\\' || s[i + 4]
            == '{' || s[i + 4] == '}' ==> source_from(s, i) == "\\line"@ + source_from(s, i + 4),
        i + 4 < s.len() && (('a' <= s[i + 4] <= 'z') || ('0' <= s[i + 4] <= '9')) ==> source_from(
            s,
            i,
        ) == seq!['\\'] + source_from(s, i + 1),
{
}

/// A backslash before anything but a small letter stands for that character and
/// begins no word: an escaped backslash is no beginning of a paragraph's end.
pub proof fn an_escaped_character_is_kept(s: Seq<char>, i: int)
    requires
        0 <= i,
        i + 1 < s.len(),
        s[i] == '\\',
        !('a' <= s[i + 1] <= 'z'),
    ensures
        source_from(s, i) == seq![s[i], s[i + 1]] + source_from(s, i + 2),
{
}

/// The number of an escape is its code unit, written as it is or, from 32768 on,
/// less 65536.
pub proof fn an_escape_names_its_unit(n: nat)
    ensures
        n <= 65535 ==> unit_of(crate::text::decimal(n)) == Some(n as int),
        1 <= n <= 65535 ==> unit_of(seq!['-'] + crate::text::decimal(n)) == Some(65536 - n),
        n > 65536 ==> unit_of(crate::text::decimal(n)) is None && unit_of(
            seq!['-'] + crate::text::decimal(n),
        ) is None,
{
    let d = crate::text::decimal(n);
    crate::text::a_number_reads_back(n);
    crate::text::a_written_number_is_parsed(n, 65535);
    crate::text::a_written_number_is_parsed(n, 65536);
    assert(d[0] as u32 != '-' as u32);
    assert((seq!['-'] + d).skip(1) =~= d);
}

/// An escape of a character keeps its spelling and is seen to end; its question
/// mark goes. The halves of a pair come to stand side by side, whatever fallback
/// was between them, and a half alone becomes the replacement character.
pub proof fn every_escape_is_one_the_parser_decodes(s: Seq<char>, i: int, u: int, e: int)
    requires
        escape_at(s, i) == Some((u, e)),
        !par_at(s, i),
    ensures
        !is_high(u) && !is_low(u) && e < s.len() && s[e] == '?' ==> source_from(s, i)
            == s.subrange(i, e) + seq![' '] + source_from(s, e + 1),
        !is_high(u) && !is_low(u) && (e == s.len() || s[e] == ' ' || s[e] == '\\') ==> source_from(
            s,
            i,
        ) == s.subrange(i, e) + source_from(s, e),
        is_low(u) && (e == s.len() || s[e] == ' ' || s[e] == '\\') ==> source_from(s, i)
            == "\\u65533"@ + source_from(s, e),
        is_high(u) ==> match mate(s, e) {
            Some((f, end)) => end == s.len() || s[end] == ' ' || s[end] == '\\' ==> source_from(
                s,
                i,
            ) == s.subrange(i, e) + s.subrange(f, end) + source_from(s, end),
            None => e == s.len() || s[e] == ' ' || s[e] == '\\' ==> source_from(s, i)
                == "\\u65533"@ + source_from(s, e),
        },
{
    let w = rewritten(s, i, u, e);
    assert(source_from(s, i) == w.0 + source_from(s, w.1));
    assert(s.subrange(i, e) + Seq::<char>::empty() =~= s.subrange(i, e));
    assert("\\u65533"@ + Seq::<char>::empty() =~= "\\u65533"@);
    if let Some((f, end)) = mate(s, e) {
        assert(s.subrange(i, e) + s.subrange(f, end) + Seq::<char>::empty() =~= s.subrange(i, e)
            + s.subrange(f, end));
    }
}

/// The second half of a pair is found behind a question mark, behind a byte in
/// hexadecimal and right behind the first half.
pub proof fn a_mate_is_found_behind_its_fallback(s: Seq<char>, e: int, u: int, end: int)
    requires
        0 <= e <= s.len(),
        is_low(u),
    ensures
        escape_at(s, e) == Some((u, end)) && (e + 1 >= s.len() || s[e + 1] != '\'') ==> mate(s, e)
            == Some((e, end)),
        e < s.len() && s[e] == '?' && escape_at(s, e + 1) == Some((u, end)) ==> mate(s, e) == Some(
            (e + 1, end),
        ),
        e + 4 <= s.len() && s[e] == '\\' && s[e + 1] == '\'' && escape_at(s, e + 4) == Some(
            (u, end),
        ) ==> mate(s, e) == Some((e + 4, end)),
{
}

/// The text of a file is what the parser made of its source, behind what was
/// there. A source that does not parse, or that the parser would panic on, is an
/// error and adds nothing.
pub proof fn a_parsed_source_is_the_text(file: FileView, out: Seq<char>)
    ensures
        parsable(source_of(file.body)) ==> match rtf_text(source_of(file.body)) {
            Ok(t) => parsed_text(file, out) == (out + t, None::<Seq<char>>),
            Err(_) => parsed_text(file, out).0 == out && parsed_text(file, out).1 is Some,
        },
        !parsable(source_of(file.body)) ==> parsed_text(file, out).0 == out && parsed_text(
            file,
            out,
        ).1 is Some,
{
}

/// The halves of surrogate pairs are two blocks of 1024 units side by side.
pub proof fn the_halves_are_two_blocks(u: int)
    requires
        0 <= u,
    ensures
        is_high(u) <==> u / 1024 == 54,
        is_low(u) <==> u / 1024 == 55,
{
}

/// Rich text is claimed under both of its names, and nothing else.
pub proof fn rich_text_is_claimed(e: RtfExtractor, mime: Seq<char>)
    ensures
        e.claims("application/rtf"@),
        e.claims("text/rtf"@),
        mime != "application/rtf"@ && mime != "text/rtf"@ ==> !e.claims(mime),
{
}

proof fn lemma_digit_in_number(c: char)
    requires
        crate::text::digit(c, 10) is Some,
    ensures
        in_number(c),
{
}

proof fn lemma_number_ends_at(s: Seq<char>, i: int, e: int)
    requires
        0 <= i <= e <= s.len(),
        forall|k: int| i <= k < e ==> in_number(#[trigger] s[k]),
        e < s.len() ==> !in_number(s[e]),
    ensures
        number_end(s, i) == e,
    decreases e - i,
{
    if i < e {
        assert(in_number(s[i]));
        lemma_number_ends_at(s, i + 1, e);
    }
}

/// A count of fallbacks is refused exactly where it is larger than the parser can
/// make room for.
pub proof fn only_a_count_without_room_is_bad(before: Seq<char>, n: nat, after: Seq<char>)
    requires
        after.len() > 0 ==> !('0' <= after[0] <= '9') && after[0] != '-',
    ensures
        bad_count(
            before + seq!['\\', 'u', 'c'] + crate::text::decimal(n) + after,
            before.len() as int,
        ) <==> n > 0x3FFF_FFFE,
{
    let d = crate::text::decimal(n);
    let s = before + seq!['\\', 'u', 'c'] + d + after;
    let i = before.len() as int;
    let e = i + 3 + d.len();
    crate::text::a_number_reads_back(n);
    crate::text::a_written_number_is_parsed(n, MAX_FALLBACKS as int);
    assert(s[i + 2] == 'c');
    assert forall|k: int| i + 3 <= k < e implies in_number(#[trigger] s[k]) by {
        assert(s[k] == d[k - i - 3]);
        lemma_digit_in_number(d[k - i - 3]);
    }
    if after.len() > 0 {
        assert(s[e] == after[0]);
    }
    lemma_number_ends_at(s, i + 3, e);
    assert(s.subrange(i + 3, e) =~= d);
}

/// A space between lines is refused exactly where its number is the one that has no
/// counterpart.
pub proof fn only_one_spacing_is_bad(before: Seq<char>, n: nat, after: Seq<char>)
    requires
        before.len() > 0 ==> before.last() != '\\',
        after.len() > 0 ==> !('0' <= after[0] <= '9') && after[0] != '-',
    ensures
        bad_spacing(
            before + seq!['\\', 's', 'l', '-'] + crate::text::decimal(n) + after,
            before.len() as int,
        ) <==> n == 2_147_483_648,
{
    let d = crate::text::decimal(n);
    let s = before + seq!['\\', 's', 'l', '-'] + d + after;
    let i = before.len() as int;
    let e = i + 4 + d.len();
    crate::text::a_number_reads_back(n);
    crate::text::a_written_number_is_parsed(n, WORST_SPACING as int);
    assert(s[i] == '\\' && s[i + 1] == 's' && s[i + 2] == 'l' && s[i + 3] == '-');
    if i > 0 {
        assert(s[i - 1] == before.last());
    }
    assert forall|k: int| i + 3 <= k < e implies in_number(#[trigger] s[k]) by {
        if k > i + 3 {
            assert(s[k] == d[k - i - 4]);
            lemma_digit_in_number(d[k - i - 4]);
        }
    }
    if after.len() > 0 {
        assert(s[e] == after[0]);
    }
    lemma_number_ends_at(s, i + 3, e);
    assert(s.subrange(i + 4, e) =~= d);
}

proof fn lemma_plain_is_paired(s: Seq<char>, i: int)
    requires
        forall|k: int| 0 <= k < s.len() ==> #[trigger] s[k] != '\\',
    ensures
        paired_from(s, i),
        colors_from(s, i) == 0,
    decreases s.len() - i,
{
    if 0 <= i < s.len() {
        assert(s[i] != '\\');
        lemma_plain_is_paired(s, i + 1);
    }
}

/// A source without a control word gives the parser nothing to panic on, unless it
/// is longer than it can count.
pub proof fn plain_source_is_parsable(s: Seq<char>)
    requires
        forall|k: int| 0 <= k < s.len() ==> #[trigger] s[k] != '\\',
    ensures
        parsable(s) <==> s.len() <= 0x7FFF_FFFF,
{
    lemma_plain_is_paired(s, 0);
}

/// A pair is complete where the second half follows and is seen to end, and not
/// where anything else does.
pub proof fn a_pair_needs_its_second_half(s: Seq<char>, e: int)
    ensures
        completed(s, e) ==> {
            &&& escape_at(s, e) matches Some((u, end))
            &&& u / 1024 == 55
            &&& delimited(s, end)
        },
        escape_at(s, e) is None ==> !completed(s, e),
        (escape_at(s, e) matches Some((u, end)) && u / 1024 == 55 && end == s.len()) ==> completed(
            s,
            e,
        ),
{
}

proof fn lemma_colors_add(s: Seq<char>, i: int, k: int)
    requires
        0 <= i <= k < s.len(),
        color_at(s, k),
    ensures
        colors_from(s, i) >= 1 + colors_from(s, k + 1),
    decreases k - i,
{
    if i < k {
        lemma_colors_add(s, i + 1, k);
    }
}

/// Every color that a source completes is counted, wherever it stands.
pub proof fn every_color_is_counted(s: Seq<char>, i: int, k: int)
    requires
        0 <= i <= k,
        k + 5 <= s.len(),
        s.subrange(k, k + 5) == seq!['\\', 'b', 'l', 'u', 'e'],
    ensures
        colors_from(s, i) >= 1 + colors_from(s, k + 1),
{
    let w = s.subrange(k, k + 5);
    assert(s[k] == w[0] && s[k + 1] == w[1] && s[k + 2] == w[2] && s[k + 3] == w[3] && s[k + 4]
        == w[4]);
    lemma_colors_add(s, i, k);
}

/// A control word goes on over letters, digits and a minus sign, and its number over
/// digits and the sign.
pub proof fn a_word_goes_on_over_digits(c: char)
    ensures
        goes_on(c) <==> crate::text::digit(c, 36) is Some || c == '-',
        in_number(c) <==> crate::text::digit(c, 10) is Some || c == '-',
{
}

/// A file is read from its first character: one that holds no backslash is its own
/// source.
pub proof fn a_plain_file_is_its_source(body: Seq<u8>)
    requires
        forall|k: int| 0 <= k < lossy_text(body).len() ==> #[trigger] lossy_text(body)[k] != '\\',
    ensures
        source_of(body) == lossy_text(body),
{
    plain_source_is_kept(lossy_text(body), 0);
    assert(lossy_text(body).skip(0) =~= lossy_text(body));
}

} // verus!
