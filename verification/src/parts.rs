//! How a path divides into parts: its prefix, its root, its components, its last
//! component and its parent. A path with slashes has no prefix. One with
//! backslashes may begin with a drive, a share or one of the forms that bypass
//! the usual reading, and a slash divides it as well unless it is verbatim.
use crate::paths::{drive_letter, Separator};
use crate::text::{chars_of, is_prefix, joined, push_str, same, string_from, texts};
use vstd::prelude::*;

verus! {

/// Whether a character may divide a path with backslashes.
pub open spec fn slash_or_back(c: char) -> bool {
    c == '/' || c == '\\'
}

/// Whether a character divides a path. In a verbatim one only the backslash
/// does.
pub open spec fn divides(c: char, sep: Separator, verbatim: bool) -> bool {
    match sep {
        Separator::Slash => c == '/',
        Separator::Backslash => c == '\\' || (c == '/' && !verbatim),
    }
}

fn is_slash_or_back(c: char) -> (r: bool)
    ensures
        r == slash_or_back(c),
{
    c == '/' || c == '\\'
}

fn is_divider(c: char, sep: Separator, verbatim: bool) -> (r: bool)
    ensures
        r == divides(c, sep, verbatim),
{
    match sep {
        Separator::Slash => c == '/',
        Separator::Backslash => c == '\\' || (c == '/' && !verbatim),
    }
}

/// Where the piece of a path with backslashes that begins at `i` ends.
pub open spec fn piece_end(p: Seq<char>, i: int, verbatim: bool) -> int
    decreases p.len() - i,
{
    if 0 <= i < p.len() && !divides(p[i], Separator::Backslash, verbatim) {
        piece_end(p, i + 1, verbatim)
    } else {
        i
    }
}

fn end_of_piece(v: &Vec<char>, i: usize, verbatim: bool) -> (e: usize)
    requires
        i <= v@.len(),
    ensures
        e == piece_end(v@, i as int, verbatim),
        i <= e <= v@.len(),
{
    let mut e: usize = i;
    while e < v.len() && !is_divider(v[e], Separator::Backslash, verbatim)
        invariant
            i <= e <= v@.len(),
            piece_end(v@, e as int, verbatim) == piece_end(v@, i as int, verbatim),
        decreases v@.len() - e,
    {
        e += 1;
    }
    e
}

proof fn lemma_piece_end(p: Seq<char>, i: int, verbatim: bool)
    requires
        0 <= i <= p.len(),
    ensures
        i <= piece_end(p, i, verbatim) <= p.len(),
    decreases p.len() - i,
{
    if i < p.len() && !divides(p[i], Separator::Backslash, verbatim) {
        lemma_piece_end(p, i + 1, verbatim);
    }
}

/// What a path begins with before its root.
pub struct PrefixView {
    /// How many characters it takes.
    pub len: int,
    /// What it is compared by: one spelling of all that mean the same.
    pub key: Seq<char>,
    /// Whether the rest is read as it stands.
    pub verbatim: bool,
    /// Whether the rest is under a root without saying so.
    pub rooted: bool,
}

/// A letter of the alphabet as a capital.
pub open spec fn capital(c: char) -> char {
    let u = c as u32;
    if 97 <= u <= 122 {
        (u - 32) as u32 as char
    } else {
        c
    }
}

fn to_capital(c: char) -> (r: char)
    ensures
        r == capital(c),
{
    let u: u32 = c as u32;
    if 97 <= u && u <= 122 {
        (u as u8 - 32) as char
    } else {
        c
    }
}

/// A server and a share that begin at `i`: where each ends, and both. The share
/// is empty where there is none.
pub open spec fn share_at(p: Seq<char>, i: int, verbatim: bool) -> (int, int, Seq<char>, Seq<char>) {
    let a = piece_end(p, i, verbatim);
    let s = if a < p.len() {
        a + 1
    } else {
        a
    };
    let b = piece_end(p, s, verbatim);
    (a, b, p.subrange(i, a), p.subrange(s, b))
}

/// The prefix of a path with backslashes.
pub open spec fn windows_prefix(p: Seq<char>) -> Option<PrefixView> {
    if p.len() >= 2 && slash_or_back(p[0]) && slash_or_back(p[1]) {
        if is_prefix(r"\\?\"@, p) {
            if p.len() >= 8 && p.subrange(4, 7) == "UNC"@ && slash_or_back(p[7]) {
                let (a, b, server, share) = share_at(p, 8, true);
                Some(
                    PrefixView {
                        len: if share.len() > 0 {
                            b
                        } else {
                            a
                        },
                        key: r"\\?\UNC\"@ + server + r"\"@ + share,
                        verbatim: true,
                        rooted: true,
                    },
                )
            } else if drive_letter(p.skip(4)) && (p.len() == 6 || slash_or_back(p[6])) {
                Some(
                    PrefixView {
                        len: 6,
                        key: r"\\?\"@.push(capital(p[4])).push(':'),
                        verbatim: true,
                        rooted: true,
                    },
                )
            } else {
                let e = piece_end(p, 4, true);
                Some(PrefixView { len: e, key: p.take(e), verbatim: true, rooted: true })
            }
        } else if p.len() >= 4 && p[2] == '.' && slash_or_back(p[3]) {
            let e = piece_end(p, 4, false);
            Some(
                PrefixView {
                    len: e,
                    key: r"\\.\"@ + p.subrange(4, e),
                    verbatim: false,
                    rooted: true,
                },
            )
        } else {
            let (a, b, server, share) = share_at(p, 2, false);
            if server.len() > 0 && share.len() > 0 {
                Some(
                    PrefixView {
                        len: b,
                        key: r"\\"@ + server + r"\"@ + share,
                        verbatim: false,
                        rooted: true,
                    },
                )
            } else {
                None
            }
        }
    } else if drive_letter(p) {
        Some(
            PrefixView {
                len: 2,
                key: seq![capital(p[0]), ':'],
                verbatim: false,
                rooted: false,
            },
        )
    } else {
        None
    }
}

/// The prefix of a path.
pub open spec fn prefix_of(p: Seq<char>, sep: Separator) -> Option<PrefixView> {
    match sep {
        Separator::Slash => None,
        Separator::Backslash => windows_prefix(p),
    }
}

/// A prefix in hand.
struct Prefix {
    len: usize,
    key: String,
    verbatim: bool,
    rooted: bool,
}

impl View for Prefix {
    type V = PrefixView;

    closed spec fn view(&self) -> PrefixView {
        PrefixView {
            len: self.len as int,
            key: self.key@,
            verbatim: self.verbatim,
            rooted: self.rooted,
        }
    }
}

spec fn prefix_view(p: Option<Prefix>) -> Option<PrefixView> {
    match p {
        Some(x) => Some(x@),
        None => None,
    }
}

fn shares(v: &Vec<char>, i: usize, verbatim: bool) -> (r: (usize, usize, String, String))
    requires
        i <= v@.len(),
    ensures
        (r.0 as int, r.1 as int, r.2@, r.3@) == share_at(v@, i as int, verbatim),
        i <= r.0 <= r.1 <= v@.len(),
{
    let a: usize = end_of_piece(v, i, verbatim);
    let s: usize = if a < v.len() {
        a + 1
    } else {
        a
    };
    let b: usize = end_of_piece(v, s, verbatim);
    (a, b, string_from(v, i, a), string_from(v, s, b))
}

fn is_drive(v: &Vec<char>, i: usize) -> (r: bool)
    requires
        i <= v@.len(),
    ensures
        r == drive_letter(v@.skip(i as int)),
{
    if v.len() - i < 2 {
        return false;
    }
    let c: u32 = v[i] as u32;
    v[i + 1] == ':' && ((65 <= c && c <= 90) || (97 <= c && c <= 122))
}

fn read_verbatim(v: &Vec<char>) -> (r: Prefix)
    requires
        is_prefix(r"\\?\"@, v@),
    ensures
        windows_prefix(v@) == Some(r@),
        r.len <= v@.len(),
{
    proof {
        reveal_strlit(r"\\?\");
        assert(v@.take(4)[0] == v@[0]);
        assert(v@.take(4)[1] == v@[1]);
    }
    let n: usize = v.len();
    if n >= 8 && is_slash_or_back(v[7]) && same(string_from(v, 4, 7).as_str(), "UNC") {
        let (a, b, server, share) = shares(v, 8, true);
        let mut key = joined(r"\\?\UNC\", server.as_str());
        push_str(&mut key, r"\");
        push_str(&mut key, share.as_str());
        return Prefix {
            len: if !share.as_str().is_empty() {
                b
            } else {
                a
            },
            key,
            verbatim: true,
            rooted: true,
        };
    }
    if is_drive(v, 4) && (n == 6 || is_slash_or_back(v[6])) {
        let mut key = r"\\?\".to_owned();
        key.push(to_capital(v[4]));
        key.push(':');
        assert(v@.skip(4)[0] == v@[4]);
        return Prefix { len: 6, key, verbatim: true, rooted: true };
    }
    let e: usize = end_of_piece(v, 4, true);
    let key = string_from(v, 0, e);
    assert(key@ =~= v@.take(e as int));
    Prefix { len: e, key, verbatim: true, rooted: true }
}

fn read_prefix(v: &Vec<char>, sep: Separator) -> (r: Option<Prefix>)
    ensures
        prefix_view(r) == prefix_of(v@, sep),
        r matches Some(x) ==> x.len <= v@.len(),
{
    if sep == Separator::Slash {
        return None;
    }
    let n: usize = v.len();
    if n >= 2 && is_slash_or_back(v[0]) && is_slash_or_back(v[1]) {
        if crate::text::has_prefix(v, &chars_of(r"\\?\")) {
            return Some(read_verbatim(v));
        }
        if n >= 4 && v[2] == '.' && is_slash_or_back(v[3]) {
            let e: usize = end_of_piece(v, 4, false);
            let name = string_from(v, 4, e);
            return Some(
                Prefix {
                    len: e,
                    key: joined(r"\\.\", name.as_str()),
                    verbatim: false,
                    rooted: true,
                },
            );
        }
        let (a, b, server, share) = shares(v, 2, false);
        if server.as_str().is_empty() || share.as_str().is_empty() {
            return None;
        }
        let mut key = joined(r"\\", server.as_str());
        push_str(&mut key, r"\");
        push_str(&mut key, share.as_str());
        return Some(Prefix { len: b, key, verbatim: false, rooted: true });
    }
    assert(v@.skip(0) =~= v@);
    if is_drive(v, 0) {
        let mut key = String::new();
        key.push(to_capital(v[0]));
        key.push(':');
        assert(key@ =~= seq![capital(v@[0]), ':']);
        return Some(Prefix { len: 2, key, verbatim: false, rooted: false });
    }
    None
}

/// How a path is laid out.
pub struct LayoutView {
    pub sep: Separator,
    pub prefix: Option<PrefixView>,
    /// Where what follows the prefix and the root begins.
    pub start: int,
    /// Whether a separator stands for the root.
    pub root: bool,
}

/// The layout of a path.
pub open spec fn layout(p: Seq<char>, sep: Separator) -> LayoutView {
    let prefix = prefix_of(p, sep);
    let n = match prefix {
        Some(x) => x.len,
        None => 0,
    };
    let root = n < p.len() && divides(p[n], sep, false);
    LayoutView {
        sep,
        prefix,
        start: if root {
            n + 1
        } else {
            n
        },
        root,
    }
}

impl LayoutView {
    /// Whether the rest is read as it stands.
    pub open spec fn verbatim(self) -> bool {
        match self.prefix {
            Some(x) => x.verbatim,
            None => false,
        }
    }

    /// Whether the path is under a root, said or not.
    pub open spec fn anchored(self) -> bool {
        self.root || match self.prefix {
            Some(x) => x.rooted,
            None => false,
        }
    }

    /// Whether a character divides the rest.
    pub open spec fn splits(self, c: char) -> bool {
        divides(c, self.sep, self.verbatim())
    }

    /// The components before the rest: the prefix, and the root.
    pub open spec fn head(self) -> Seq<Seq<char>> {
        let root = seq![seq![self.sep.symbol()]];
        match self.prefix {
            None => if self.root {
                root
            } else {
                seq![]
            },
            Some(x) => if self.root || (x.rooted && !x.verbatim) {
                seq![x.key] + root
            } else {
                seq![x.key]
            },
        }
    }
}

/// A layout in hand.
struct Layout {
    sep: Separator,
    prefix: Option<Prefix>,
    start: usize,
    root: bool,
}

impl View for Layout {
    type V = LayoutView;

    closed spec fn view(&self) -> LayoutView {
        LayoutView {
            sep: self.sep,
            prefix: prefix_view(self.prefix),
            start: self.start as int,
            root: self.root,
        }
    }
}

fn lay_out(v: &Vec<char>, sep: Separator) -> (r: Layout)
    ensures
        r@ == layout(v@, sep),
        r.start <= v@.len(),
{
    let prefix = read_prefix(v, sep);
    let n: usize = match &prefix {
        Some(x) => x.len,
        None => 0,
    };
    let root: bool = n < v.len() && is_divider(v[n], sep, false);
    Layout {
        sep,
        prefix,
        start: if root {
            n + 1
        } else {
            n
        },
        root,
    }
}

impl Layout {
    fn is_verbatim(&self) -> (r: bool)
        ensures
            r == self@.verbatim(),
    {
        match &self.prefix {
            Some(x) => x.verbatim,
            None => false,
        }
    }

    fn is_anchored(&self) -> (r: bool)
        ensures
            r == self@.anchored(),
    {
        self.root || match &self.prefix {
            Some(x) => x.rooted,
            None => false,
        }
    }
}

/// The pieces between separators, empty ones included.
pub open spec fn pieces(p: Seq<char>, sep: Separator, verbatim: bool) -> Seq<Seq<char>>
    decreases p.len(),
{
    if p.len() == 0 {
        seq![seq![]]
    } else {
        let before = pieces(p.drop_last(), sep, verbatim);
        if divides(p.last(), sep, verbatim) {
            before.push(seq![])
        } else {
            before.update(before.len() - 1, before.last().push(p.last()))
        }
    }
}

/// A piece that counts: not empty, and `.` only as the first piece of a
/// relative path, or in a verbatim one.
pub open spec fn counts(piece: Seq<char>, dots: bool) -> bool {
    piece.len() > 0 && (piece != "."@ || dots)
}

/// The pieces that count among the first `n`.
pub open spec fn counted(pieces: Seq<Seq<char>>, n: int, relative: bool, verbatim: bool) -> Seq<
    Seq<char>,
>
    decreases n,
{
    if n <= 0 {
        seq![]
    } else if counts(pieces[n - 1], verbatim || (relative && n == 1)) {
        counted(pieces, n - 1, relative, verbatim).push(pieces[n - 1])
    } else {
        counted(pieces, n - 1, relative, verbatim)
    }
}

/// The components of a path; its prefix and its root are components of their
/// own.
pub open spec fn components(p: Seq<char>, sep: Separator) -> Seq<Seq<char>> {
    let l = layout(p, sep);
    let rest = pieces(p.skip(l.start), sep, l.verbatim());
    l.head() + counted(rest, rest.len() as int, l.prefix is None && !l.root, l.verbatim())
}

/// Whether `path` is `dir` or lies under it, component by component.
pub open spec fn under(path: Seq<char>, dir: Seq<char>, sep: Separator) -> bool {
    let p = components(path, sep);
    let d = components(dir, sep);
    d.len() <= p.len() && p.take(d.len() as int) == d
}

fn split_pieces(v: &Vec<char>, sep: Separator, verbatim: bool) -> (r: Vec<String>)
    ensures
        texts(r@) == pieces(v@, sep, verbatim),
        r@.len() > 0,
{
    let mut r: Vec<String> = Vec::new();
    let mut current = String::new();
    let ghost mut done: Seq<Seq<char>> = seq![];
    let mut i: usize = 0;
    assert(pieces(v@.take(0), sep, verbatim) =~= done.push(current@));
    while i < v.len()
        invariant
            i <= v@.len(),
            done == texts(r@),
            pieces(v@.take(i as int), sep, verbatim) == done.push(current@),
        decreases v@.len() - i,
    {
        let c = v[i];
        proof {
            assert(v@.take(i + 1).drop_last() =~= v@.take(i as int));
            assert(v@.take(i + 1).last() == c);
        }
        let ghost before = done.push(current@);
        if is_divider(c, sep, verbatim) {
            r.push(current);
            current = String::new();
            proof {
                done = texts(r@);
                assert(done =~= before);
                assert(before.push(seq![]) =~= done.push(current@));
            }
        } else {
            current.push(c);
            proof {
                assert(before.update(before.len() - 1, before.last().push(c)) =~= done.push(
                    current@,
                ));
            }
        }
        i += 1;
    }
    assert(v@.take(v@.len() as int) =~= v@);
    r.push(current);
    assert(texts(r@) =~= done.push(current@));
    r
}

fn head_of(l: &Layout) -> (r: Vec<String>)
    ensures
        texts(r@) == l@.head(),
{
    let mut r: Vec<String> = Vec::new();
    let mut root: bool = l.root;
    match &l.prefix {
        Some(x) => {
            r.push(x.key.clone());
            if x.rooted && !x.verbatim {
                root = true;
            }
        },
        None => {},
    }
    if root {
        let mut symbol = String::new();
        symbol.push(l.sep.symbol());
        assert(symbol@ =~= seq![l.sep.symbol()]);
        r.push(symbol);
    }
    assert(texts(r@) =~= l@.head());
    r
}

/// The components of a path.
pub fn path_components(path: &str, sep: Separator) -> (r: Vec<String>)
    ensures
        texts(r@) == components(path@, sep),
{
    let v = chars_of(path);
    let l = lay_out(&v, sep);
    let verbatim: bool = l.is_verbatim();
    let relative: bool = l.prefix.is_none() && !l.root;
    let body = chars_of(string_from(&v, l.start, v.len()).as_str());
    assert(body@ =~= path@.skip(l.start as int));
    let p = split_pieces(&body, sep, verbatim);
    let mut r = head_of(&l);
    let ghost head = texts(r@);
    let ghost all = pieces(body@, sep, verbatim);
    let mut i: usize = 0;
    assert(head + counted(all, 0, relative, verbatim) =~= head);
    while i < p.len()
        invariant
            i <= p@.len(),
            texts(p@) == all,
            texts(r@) == head + counted(all, i as int, relative, verbatim),
        decreases p@.len() - i,
    {
        assert(all[i as int] == p@[i as int]@);
        let dot: bool = same(p[i].as_str(), ".");
        let dots: bool = verbatim || (relative && i == 0);
        if !p[i].as_str().is_empty() && (!dot || dots) {
            let ghost before = texts(r@);
            r.push(p[i].clone());
            proof {
                assert(texts(r@) =~= before.push(p@[i as int]@));
                assert(texts(r@) =~= head + counted(all, i + 1, relative, verbatim));
            }
        }
        i += 1;
    }
    r
}

/// Whether `path` is `dir` or lies under it, component by component.
pub fn path_under(path: &str, dir: &str, sep: Separator) -> (r: bool)
    ensures
        r == under(path@, dir@, sep),
{
    let p = path_components(path, sep);
    let d = path_components(dir, sep);
    let ghost ps = components(path@, sep);
    let ghost ds = components(dir@, sep);
    if d.len() > p.len() {
        return false;
    }
    let mut i: usize = 0;
    while i < d.len()
        invariant
            i <= d@.len() <= p@.len(),
            texts(p@) == ps,
            texts(d@) == ds,
            ps == components(path@, sep),
            ds == components(dir@, sep),
            forall|k: int| 0 <= k < i ==> ps[k] == ds[k],
        decreases d@.len() - i,
    {
        assert(ps[i as int] == p@[i as int]@ && ds[i as int] == d@[i as int]@);
        if !same(p[i].as_str(), d[i].as_str()) {
            assert(ps.take(ds.len() as int)[i as int] != ds[i as int]);
            return false;
        }
        i += 1;
    }
    assert(ps.take(ds.len() as int) =~= ds);
    true
}

/// Every path covers itself, and cover carries down: what lies under a
/// directory under another lies under the other.
pub proof fn cover_is_transitive(
    path: Seq<char>,
    mid: Seq<char>,
    dir: Seq<char>,
    sep: Separator,
)
    ensures
        under(path, path, sep),
        under(path, mid, sep) && under(mid, dir, sep) ==> under(path, dir, sep),
{
    let p = components(path, sep);
    let m = components(mid, sep);
    let d = components(dir, sep);
    assert(p.take(p.len() as int) =~= p);
    if under(path, mid, sep) && under(mid, dir, sep) {
        assert(p.take(m.len() as int).take(d.len() as int) =~= p.take(d.len() as int));
    }
}

/// Where a path ends once separators and `.` components at its end are left
/// out. The `.` that a relative path begins with stays.
pub open spec fn trim_end(p: Seq<char>, e: int, l: LayoutView) -> int
    decreases e - l.start,
{
    if e <= l.start || e > p.len() {
        l.start
    } else if l.splits(p[e - 1]) {
        trim_end(p, e - 1, l)
    } else if p[e - 1] == '.' && !l.verbatim() && (if e - 1 == l.start {
        l.anchored()
    } else {
        l.splits(p[e - 2])
    }) {
        trim_end(p, e - 1, l)
    } else {
        e
    }
}

/// Where the component that ends at `e` begins.
pub open spec fn component_start(p: Seq<char>, e: int, l: LayoutView) -> int
    decreases e - l.start,
{
    if e <= l.start || e > p.len() || l.splits(p[e - 1]) {
        if e < l.start {
            l.start
        } else {
            e
        }
    } else {
        component_start(p, e - 1, l)
    }
}

/// The last component of a path, unless it is the root or the prefix or there is
/// none: its start and end.
pub open spec fn last_component(p: Seq<char>, sep: Separator) -> Option<(int, int)> {
    let l = layout(p, sep);
    let e = trim_end(p, p.len() as int, l);
    let s = component_start(p, e, l);
    if s < e && !(l.prefix is Some && !l.verbatim() && s == l.start && p.subrange(s, e) == "."@) {
        Some((s, e))
    } else {
        None
    }
}

/// The name a path ends in; `.` and `..` are no names.
pub open spec fn file_name(p: Seq<char>, sep: Separator) -> Option<Seq<char>> {
    match last_component(p, sep) {
        Some((s, e)) => if p.subrange(s, e) == "."@ || p.subrange(s, e) == ".."@ {
            None
        } else {
            Some(p.subrange(s, e))
        },
        None => None,
    }
}

/// The path without its last component; a root, a prefix alone and the empty
/// path have no parent.
pub open spec fn parent(p: Seq<char>, sep: Separator) -> Option<Seq<char>> {
    match last_component(p, sep) {
        Some((s, e)) => Some(p.take(trim_end(p, s, layout(p, sep)))),
        None => None,
    }
}

/// The extension of the name a path ends in: what follows its last dot, which
/// must not be its first character.
pub open spec fn extension(p: Seq<char>, sep: Separator) -> Option<Seq<char>> {
    match file_name(p, sep) {
        None => None,
        Some(name) => if after_dot(name) <= 1 {
            None
        } else {
            Some(name.skip(after_dot(name)))
        },
    }
}

/// Just after the last dot; 0 where there is none.
pub open spec fn after_dot(s: Seq<char>) -> int {
    crate::paths::after_last(s, '.')
}

proof fn lemma_layout(p: Seq<char>, sep: Separator)
    ensures
        0 <= layout(p, sep).start <= p.len(),
{
    if sep == Separator::Backslash {
        reveal_strlit(r"\\?\");
        if is_prefix(r"\\?\"@, p) {
            lemma_piece_end(p, 4, true);
        }
        if p.len() >= 8 {
            lemma_share(p, 8, true);
        }
        if p.len() >= 4 {
            lemma_piece_end(p, 4, false);
        }
        if p.len() >= 2 {
            lemma_share(p, 2, false);
        }
    }
}

proof fn lemma_share(p: Seq<char>, i: int, verbatim: bool)
    requires
        0 <= i <= p.len(),
    ensures
        i <= share_at(p, i, verbatim).0 <= share_at(p, i, verbatim).1 <= p.len(),
{
    lemma_piece_end(p, i, verbatim);
    let a = piece_end(p, i, verbatim);
    if a < p.len() {
        lemma_piece_end(p, a + 1, verbatim);
    } else {
        lemma_piece_end(p, a, verbatim);
    }
}

proof fn lemma_trim_end(p: Seq<char>, e: int, l: LayoutView)
    requires
        0 <= l.start <= p.len(),
    ensures
        l.start <= trim_end(p, e, l) <= p.len(),
        l.start <= e ==> trim_end(p, e, l) <= e,
    decreases e - l.start,
{
    if l.start < e <= p.len() {
        lemma_trim_end(p, e - 1, l);
    }
}

proof fn lemma_component_start(p: Seq<char>, e: int, l: LayoutView)
    requires
        0 <= l.start <= e,
    ensures
        l.start <= component_start(p, e, l) <= e,
    decreases e - l.start,
{
    if l.start < e <= p.len() && !l.splits(p[e - 1]) {
        lemma_component_start(p, e - 1, l);
    }
}

fn trimmed_end(v: &Vec<char>, from: usize, l: &Layout) -> (e: usize)
    requires
        l.start <= from <= v@.len(),
    ensures
        e == trim_end(v@, from as int, l@),
        l.start <= e <= from,
{
    let verbatim: bool = l.is_verbatim();
    let anchored: bool = l.is_anchored();
    let mut e: usize = from;
    while e > l.start
        invariant
            l.start <= e <= from <= v@.len(),
            verbatim == l@.verbatim(),
            anchored == l@.anchored(),
            trim_end(v@, e as int, l@) == trim_end(v@, from as int, l@),
        decreases e,
    {
        let c = v[e - 1];
        if is_divider(c, l.sep, verbatim) {
            e -= 1;
        } else if c == '.' && !verbatim && (if e - 1 == l.start {
            anchored
        } else {
            is_divider(v[e - 2], l.sep, verbatim)
        }) {
            e -= 1;
        } else {
            return e;
        }
    }
    e
}

/// The last component of `v`, as [`last_component`].
fn last_part(v: &Vec<char>, l: &Layout) -> (r: Option<(usize, usize)>)
    requires
        l@ == layout(v@, l.sep),
        l.start <= v@.len(),
    ensures
        match r {
            Some((s, e)) => last_component(v@, l.sep) == Some((s as int, e as int)) && l.start <= s
                && s < e <= v@.len(),
            None => last_component(v@, l.sep) is None,
        },
{
    let e: usize = trimmed_end(v, v.len(), l);
    let verbatim: bool = l.is_verbatim();
    let mut s: usize = e;
    while s > l.start && !is_divider(v[s - 1], l.sep, verbatim)
        invariant
            l.start <= s <= e <= v@.len(),
            verbatim == l@.verbatim(),
            component_start(v@, s as int, l@) == component_start(v@, e as int, l@),
        decreases s,
    {
        s -= 1;
    }
    if s >= e {
        return None;
    }
    if l.prefix.is_some() && !verbatim && s == l.start && same(string_from(v, s, e).as_str(), ".") {
        return None;
    }
    Some((s, e))
}

/// The name a path ends in.
pub fn path_file_name(path: &str, sep: Separator) -> (r: Option<String>)
    ensures
        match r {
            Some(n) => file_name(path@, sep) == Some(n@),
            None => file_name(path@, sep) is None,
        },
{
    let v = chars_of(path);
    let l = lay_out(&v, sep);
    match last_part(&v, &l) {
        Some((s, e)) => {
            let name = string_from(&v, s, e);
            if same(name.as_str(), ".") || same(name.as_str(), "..") {
                None
            } else {
                Some(name)
            }
        },
        None => None,
    }
}

/// The path without its last component.
pub fn path_parent(path: &str, sep: Separator) -> (r: Option<String>)
    ensures
        match r {
            Some(n) => parent(path@, sep) == Some(n@),
            None => parent(path@, sep) is None,
        },
{
    let v = chars_of(path);
    let l = lay_out(&v, sep);
    match last_part(&v, &l) {
        Some((s, e)) => {
            let end: usize = trimmed_end(&v, s, &l);
            let r = string_from(&v, 0, end);
            assert(r@ =~= path@.take(end as int));
            Some(r)
        },
        None => None,
    }
}

/// Parent directory of a path, empty at the root.
pub fn parent_str(path: &str, sep: Separator) -> (r: String)
    ensures
        r@ == (match parent(path@, sep) {
            Some(p) => p,
            None => seq![],
        }),
{
    match path_parent(path, sep) {
        Some(p) => p,
        None => String::new(),
    }
}

/// The extension of the name a path ends in.
pub fn path_extension(path: &str, sep: Separator) -> (r: Option<String>)
    ensures
        match r {
            Some(n) => extension(path@, sep) == Some(n@),
            None => extension(path@, sep) is None,
        },
{
    let name = match path_file_name(path, sep) {
        Some(n) => n,
        None => return None,
    };
    let v = chars_of(name.as_str());
    let mut k: usize = v.len();
    while k > 0 && v[k - 1] != '.'
        invariant
            k <= v@.len(),
            forall|i: int| k <= i < v@.len() ==> v@[i] != '.',
        decreases k,
    {
        k -= 1;
    }
    proof {
        crate::paths::lemma_after_last(v@, '.', k as int);
    }
    if k <= 1 {
        return None;
    }
    let r = string_from(&v, k, v.len());
    assert(r@ =~= name@.skip(k as int));
    Some(r)
}

/// Whether a name put under a directory needs a separator between the two: not
/// where there is one, and not behind a drive alone.
pub open spec fn needs_separator(dir: Seq<char>, sep: Separator) -> bool {
    let l = layout(dir, sep);
    &&& dir.len() > 0
    &&& !l.splits(dir.last())
    &&& !(l.prefix matches Some(x) && !x.rooted && x.len == dir.len())
}

/// A name put under a directory.
pub open spec fn join(dir: Seq<char>, name: Seq<char>, sep: Separator) -> Seq<char> {
    if needs_separator(dir, sep) {
        dir.push(sep.symbol()) + name
    } else {
        dir + name
    }
}

pub fn path_join(dir: &str, name: &str, sep: Separator) -> (r: String)
    ensures
        r@ == join(dir@, name@, sep),
{
    let v = chars_of(dir);
    let l = lay_out(&v, sep);
    let bare: bool = match &l.prefix {
        Some(x) => !x.rooted && x.len == v.len(),
        None => false,
    };
    let mut r = dir.to_owned();
    if v.len() > 0 && !bare && !is_divider(v[v.len() - 1], sep, l.is_verbatim()) {
        r.push(sep.symbol());
    }
    push_str(&mut r, name);
    r
}

/// A parent is strictly shorter, so going up comes to an end.
pub proof fn an_ancestor_is_shorter(p: Seq<char>, sep: Separator)
    requires
        parent(p, sep) is Some,
    ensures
        parent(p, sep)->Some_0.len() < p.len(),
{
    let l = layout(p, sep);
    let (s, e) = last_component(p, sep)->Some_0;
    lemma_layout(p, sep);
    lemma_trim_end(p, p.len() as int, l);
    lemma_component_start(p, e, l);
    lemma_trim_end(p, s, l);
}

/// Whether a text is a directory that a name can be put under without changing
/// how its beginning reads: any with slashes, and with backslashes one that begins
/// with a drive and goes on behind it.
pub open spec fn plain_dir(dir: Seq<char>, sep: Separator) -> bool {
    match sep {
        Separator::Slash => dir.len() > 0,
        Separator::Backslash => dir.len() > 2 && drive_letter(dir),
    }
}

/// Whether a text is the name of one entry: not empty, without a separator, and
/// neither `.` nor `..`.
pub open spec fn plain_name(name: Seq<char>, sep: Separator) -> bool {
    &&& name.len() > 0
    &&& name != "."@
    &&& name != ".."@
    &&& forall|i: int| 0 <= i < name.len() ==> !divides(#[trigger] name[i], sep, false)
}

proof fn lemma_pieces_not_empty(p: Seq<char>, sep: Separator, verbatim: bool)
    ensures
        pieces(p, sep, verbatim).len() > 0,
    decreases p.len(),
{
    if p.len() > 0 {
        lemma_pieces_not_empty(p.drop_last(), sep, verbatim);
    }
}

proof fn lemma_pieces_below(d: Seq<char>, c: char, name: Seq<char>, sep: Separator)
    requires
        divides(c, sep, false),
        forall|i: int| 0 <= i < name.len() ==> !divides(#[trigger] name[i], sep, false),
    ensures
        pieces(d.push(c) + name, sep, false) == pieces(d, sep, false).push(name),
    decreases name.len(),
{
    let p = d.push(c) + name;
    if name.len() == 0 {
        assert(p =~= d.push(c));
        assert(p.drop_last() =~= d);
        assert(name =~= seq![]);
    } else {
        let front = name.drop_last();
        assert forall|i: int| 0 <= i < front.len() implies !divides(
            #[trigger] front[i],
            sep,
            false,
        ) by {
            assert(front[i] == name[i]);
        }
        lemma_pieces_below(d, c, front, sep);
        assert(p.drop_last() =~= d.push(c) + front);
        assert(p.last() == name[name.len() - 1]);
        let before = pieces(d, sep, false).push(front);
        assert(front.push(name.last()) =~= name);
        assert(before.update(before.len() - 1, before.last().push(p.last())) =~= pieces(
            d,
            sep,
            false,
        ).push(name));
    }
}

proof fn lemma_counted_below(
    all: Seq<Seq<char>>,
    name: Seq<char>,
    n: int,
    relative: bool,
    verbatim: bool,
)
    requires
        0 <= n <= all.len(),
    ensures
        counted(all.push(name), n, relative, verbatim) == counted(all, n, relative, verbatim),
    decreases n,
{
    if n > 0 {
        lemma_counted_below(all, name, n - 1, relative, verbatim);
        assert(all.push(name)[n - 1] == all[n - 1]);
    }
}

/// Putting a name under a directory does not change how the directory reads.
proof fn lemma_layout_below(dir: Seq<char>, c: char, name: Seq<char>, sep: Separator)
    requires
        plain_dir(dir, sep),
    ensures
        ({
            let l = layout(dir, sep);
            let m = layout(dir.push(c) + name, sep);
            &&& m.start == l.start
            &&& m.root == l.root
            &&& m.sep == l.sep
            &&& m.prefix == l.prefix
            &&& !l.verbatim()
            &&& 0 <= l.start <= dir.len()
        }),
{
    let p = dir.push(c) + name;
    assert(p[0] == dir[0]);
    if sep == Separator::Backslash {
        assert(p[1] == dir[1]);
        assert(p[2] == dir[2]);
        assert(windows_prefix(p)->Some_0.key =~= windows_prefix(dir)->Some_0.key);
    }
}

/// A name put under a directory is one component more, and all the others are
/// those of the directory.
pub proof fn a_name_is_one_component_more(
    dir: Seq<char>,
    c: char,
    name: Seq<char>,
    sep: Separator,
)
    requires
        plain_dir(dir, sep),
        plain_name(name, sep),
        c == sep.symbol() || (c == '/' && sep == Separator::Backslash),
    ensures
        components(dir.push(c) + name, sep) == components(dir, sep).push(name),
{
    let p = dir.push(c) + name;
    let l = layout(dir, sep);
    lemma_layout_below(dir, c, name, sep);
    let d = dir.skip(l.start);
    assert(p.skip(l.start) =~= d.push(c) + name);
    lemma_pieces_below(d, c, name, sep);
    let rest = pieces(d, sep, false);
    lemma_pieces_not_empty(d, sep, false);
    let relative = l.prefix is None && !l.root;
    lemma_counted_below(rest, name, rest.len() as int, relative, false);
    let all = rest.push(name);
    assert(all[all.len() - 1] == name);
    assert(counted(all, all.len() as int, relative, false) == counted(
        rest,
        rest.len() as int,
        relative,
        false,
    ).push(name));
    assert(components(p, sep) =~= components(dir, sep).push(name));
}

/// A directory covers what lies in it and not the other way round, and an entry
/// covers no other entry of its directory, however alike their names begin.
pub proof fn cover_goes_by_whole_names(
    dir: Seq<char>,
    a: Seq<char>,
    b: Seq<char>,
    sep: Separator,
)
    requires
        plain_dir(dir, sep),
        plain_name(a, sep),
        plain_name(b, sep),
        a != b,
    ensures
        under(dir.push(sep.symbol()) + a, dir, sep),
        !under(dir, dir.push(sep.symbol()) + a, sep),
        !under(dir.push(sep.symbol()) + a, dir.push(sep.symbol()) + b, sep),
{
    a_name_is_one_component_more(dir, sep.symbol(), a, sep);
    a_name_is_one_component_more(dir, sep.symbol(), b, sep);
    let d = components(dir, sep);
    assert(d.push(a).take(d.len() as int) =~= d);
    assert(d.push(a).take(d.len() as int + 1) =~= d.push(a));
    assert(d.push(a)[d.len() as int] != d.push(b)[d.len() as int]);
}

/// What lies under one entry of a directory does not lie under another one.
pub proof fn two_entries_share_nothing(
    path: Seq<char>,
    dir: Seq<char>,
    a: Seq<char>,
    b: Seq<char>,
    sep: Separator,
)
    requires
        plain_dir(dir, sep),
        plain_name(a, sep),
        plain_name(b, sep),
        a != b,
        under(path, dir.push(sep.symbol()) + a, sep),
    ensures
        !under(path, dir.push(sep.symbol()) + b, sep),
        under(path, dir, sep),
{
    a_name_is_one_component_more(dir, sep.symbol(), a, sep);
    a_name_is_one_component_more(dir, sep.symbol(), b, sep);
    let d = components(dir, sep);
    let p = components(path, sep);
    assert(p.take(d.len() as int + 1)[d.len() as int] == a);
    assert(d.push(b)[d.len() as int] == b);
    assert(p.take(d.len() as int + 1).take(d.len() as int) =~= p.take(d.len() as int));
    assert(d.push(a).take(d.len() as int) =~= d);
}

proof fn lemma_start_of_name(p: Seq<char>, s: int, e: int, l: LayoutView)
    requires
        0 <= l.start <= s <= e <= p.len(),
        s == l.start || l.splits(p[s - 1]),
        forall|i: int| s <= i < e ==> !l.splits(#[trigger] p[i]),
    ensures
        component_start(p, e, l) == s,
    decreases e - s,
{
    if s < e {
        assert(!l.splits(p[e - 1]));
        lemma_start_of_name(p, s, e - 1, l);
    }
}

/// The name that was put under a directory is the name of the path, and the
/// directory is its parent.
pub proof fn a_path_is_its_parent_and_its_name(dir: Seq<char>, name: Seq<char>, sep: Separator)
    requires
        plain_dir(dir, sep),
        plain_name(name, sep),
        !divides(dir.last(), sep, false),
        dir.last() != '.',
    ensures
        file_name(dir.push(sep.symbol()) + name, sep) == Some(name),
        parent(dir.push(sep.symbol()) + name, sep) == Some(dir),
        join(dir, name, sep) == dir.push(sep.symbol()) + name,
{
    let c = sep.symbol();
    let p = dir.push(c) + name;
    let n = p.len() as int;
    let l = layout(p, sep);
    let s = dir.len() as int + 1;
    lemma_layout_below(dir, c, name, sep);
    reveal_strlit(".");
    reveal_strlit("..");
    assert(p.subrange(s, n) =~= name);
    assert forall|i: int| s <= i < n implies !l.splits(#[trigger] p[i]) by {
        assert(p[i] == name[i - s]);
    }
    assert(p[s - 1] == c);
    assert(p[n - 1] == name.last());
    if name.last() == '.' {
        if name.len() == 1 {
            assert(name =~= "."@);
        }
        assert(p[n - 2] == name[name.len() - 2]);
    }
    assert(trim_end(p, n, l) == n);
    lemma_start_of_name(p, s, n, l);
    assert(p[dir.len() - 1] == dir.last());
    if l.root {
        let k = l.start - 1;
        assert(p[k] == dir[k]);
        assert(divides(dir[k], sep, false));
    }
    assert(l.start < dir.len());
    assert(trim_end(p, dir.len() as int, l) == dir.len());
    assert(trim_end(p, s, l) == dir.len());
    assert(p.take(dir.len() as int) =~= dir);
    let m = layout(dir, sep);
    assert(m.splits(dir.last()) == divides(dir.last(), sep, false));
}

/// An extension is what follows the last dot of a name, where something comes
/// before the dot; a name without a dot has none, and neither has one that only
/// begins with it.
pub proof fn an_extension_follows_the_last_dot(
    dir: Seq<char>,
    stem: Seq<char>,
    ext: Seq<char>,
    sep: Separator,
)
    requires
        plain_dir(dir, sep),
        !divides(dir.last(), sep, false),
        dir.last() != '.',
        !ext.contains('.'),
    ensures
        plain_name(stem.push('.') + ext, sep) && stem.len() > 0 ==> extension(
            dir.push(sep.symbol()) + (stem.push('.') + ext),
            sep,
        ) == Some(ext),
        plain_name(seq!['.'] + ext, sep) ==> extension(
            dir.push(sep.symbol()) + (seq!['.'] + ext),
            sep,
        ) is None,
        plain_name(ext, sep) ==> extension(dir.push(sep.symbol()) + ext, sep) is None,
{
    let a = stem.push('.') + ext;
    assert forall|i: int| stem.len() + 1 <= i < a.len() implies a[i] != '.' by {
        assert(a[i] == ext[i - stem.len() - 1]);
        assert(ext.contains(ext[i - stem.len() - 1]));
    }
    assert(a[stem.len() as int] == '.');
    crate::paths::lemma_after_last(a, '.', stem.len() as int + 1);
    assert(a.skip(stem.len() as int + 1) =~= ext);
    let b = seq!['.'] + ext;
    assert forall|i: int| 1 <= i < b.len() implies b[i] != '.' by {
        assert(b[i] == ext[i - 1]);
        assert(ext.contains(ext[i - 1]));
    }
    crate::paths::lemma_after_last(b, '.', 1);
    assert forall|i: int| 0 <= i < ext.len() implies ext[i] != '.' by {
        assert(ext.contains(ext[i]));
    }
    crate::paths::lemma_after_last(ext, '.', 0);
    if plain_name(a, sep) {
        a_path_is_its_parent_and_its_name(dir, a, sep);
    }
    if plain_name(b, sep) {
        a_path_is_its_parent_and_its_name(dir, b, sep);
    }
    if plain_name(ext, sep) {
        a_path_is_its_parent_and_its_name(dir, ext, sep);
    }
}

proof fn lemma_counted(rest: Seq<Seq<char>>, n: int, relative: bool, verbatim: bool)
    requires
        n <= rest.len(),
    ensures
        forall|i: int|
            0 <= i < counted(rest, n, relative, verbatim).len() ==> (#[trigger] counted(
                rest,
                n,
                relative,
                verbatim,
            )[i]).len() > 0,
        !verbatim ==> forall|i: int|
            0 <= i < counted(rest, n, relative, verbatim).len() && #[trigger] counted(
                rest,
                n,
                relative,
                verbatim,
            )[i] == "."@ ==> i == 0 && relative,
    decreases n,
{
    if n > 0 {
        lemma_counted(rest, n - 1, relative, verbatim);
        let front = counted(rest, n - 1, relative, verbatim);
        let all = counted(rest, n, relative, verbatim);
        if n == 1 {
            assert(front.len() == 0);
        }
        assert forall|i: int| 0 <= i < all.len() implies (#[trigger] all[i]).len() > 0 && (
        !verbatim && all[i] == "."@ ==> i == 0 && relative) by {
            if i < front.len() {
                assert(all[i] == front[i]);
            } else {
                assert(all[i] == rest[n - 1]);
                assert(counts(rest[n - 1], verbatim || (relative && n == 1)));
            }
        }
    }
}

/// No component is empty, so that separators side by side divide once, and a dot
/// alone is a component only where a relative path begins with it.
pub proof fn no_component_is_empty(p: Seq<char>)
    ensures
        ({
            let c = components(p, Separator::Slash);
            &&& forall|i: int| 0 <= i < c.len() ==> (#[trigger] c[i]).len() > 0
            &&& forall|i: int|
                0 <= i < c.len() && #[trigger] c[i] == "."@ ==> i == 0 && p[0] != '/'
        }),
{
    let sep = Separator::Slash;
    let l = layout(p, sep);
    let rest = pieces(p.skip(l.start), sep, l.verbatim());
    lemma_counted(rest, rest.len() as int, !l.root, false);
    let c = components(p, sep);
    let tail = counted(rest, rest.len() as int, !l.root, false);
    assert forall|i: int| 0 <= i < c.len() implies (#[trigger] c[i]).len() > 0 && (c[i] == "."@
        ==> i == 0 && p[0] != '/') by {
        reveal_strlit(".");
        if i >= l.head().len() {
            assert(c[i] == tail[i - l.head().len()]);
        } else {
            assert(c[i] == l.head()[i]);
            assert(c[i][0] == '/');
        }
        if p.len() == 0 {
            assert(p.skip(0) =~= p);
            assert(rest =~= seq![seq![]]);
            assert(!counts(rest[0], true));
            assert(counted(rest, 0, true, false).len() == 0);
        }
    }
}

/// A drive is one prefix in either case of its letter, and leaves the path
/// unrooted.
pub proof fn a_drive_is_told_without_case(c: char, rest: Seq<char>)
    requires
        'a' <= c <= 'z',
    ensures
        ({
            let small = windows_prefix(seq![c, ':'] + rest);
            let large = windows_prefix(seq![((c as u32 - 32) as u32) as char, ':'] + rest);
            &&& small is Some
            &&& small == large
            &&& small->Some_0.len == 2
            &&& !small->Some_0.rooted
            &&& !small->Some_0.verbatim
        }),
{
    let d = ((c as u32 - 32) as u32) as char;
    assert(d as u32 == c as u32 - 32);
    let a = seq![c, ':'] + rest;
    let b = seq![d, ':'] + rest;
    assert(a[0] == c && a[1] == ':');
    assert(b[0] == d && b[1] == ':');
}

/// Every prefix but a bare drive begins with two separators and roots its path, and
/// it is verbatim exactly behind the marker of verbatim paths. No prefix reaches
/// past its path.
pub proof fn a_prefix_roots_its_path(p: Seq<char>)
    ensures
        windows_prefix(p) matches Some(v) ==> {
            &&& 0 < v.len <= p.len()
            &&& v.rooted <==> p[0] == '/' || p[0] == '\\'
            &&& v.rooted ==> p.len() >= 2 && (p[1] == '/' || p[1] == '\\')
            &&& v.verbatim <==> is_prefix(r"\\?\"@, p)
        },
        is_prefix(r"\\?\"@, p) ==> windows_prefix(p) is Some,
{
    reveal_strlit(r"\\?\");
    if is_prefix(r"\\?\"@, p) {
        assert(p[0] == p.take(4)[0]);
        assert(p[1] == p.take(4)[1]);
    }
    if p.len() >= 4 {
        lemma_piece_end(p, 4, true);
        lemma_piece_end(p, 4, false);
    }
    if p.len() >= 2 {
        lemma_piece_end(p, 2, false);
        let a = piece_end(p, 2, false);
        lemma_piece_end(p, if a < p.len() { a + 1 } else { a }, false);
    }
    if p.len() >= 8 {
        lemma_piece_end(p, 8, true);
        let a = piece_end(p, 8, true);
        lemma_piece_end(p, if a < p.len() { a + 1 } else { a }, true);
    }
}

/// A share's prefix ends behind the name of the share, and is the server and the
/// share with one backslash between them, however they were separated.
pub proof fn a_share_is_a_server_and_a_name(
    server: Seq<char>,
    share: Seq<char>,
    rest: Seq<char>,
    x: char,
)
    requires
        server.len() > 0,
        share.len() > 0,
        server != "?"@,
        server != "."@,
        forall|i: int| 0 <= i < server.len() ==> !slash_or_back(#[trigger] server[i]),
        forall|i: int| 0 <= i < share.len() ==> !slash_or_back(#[trigger] share[i]),
        rest.len() > 0 ==> slash_or_back(rest[0]),
        x == '/' || x == '\\',
    ensures
        ({
            let p = seq!['\\', '\\'] + server + seq![x] + share + rest;
            &&& windows_prefix(p) matches Some(v)
            &&& v.len == 3 + server.len() + share.len()
            &&& v.key == seq!['\\', '\\'] + server + seq!['\\'] + share
            &&& v.rooted
            &&& !v.verbatim
        }),
{
    reveal_strlit("?");
    reveal_strlit(".");
    reveal_strlit(r"\\?\");
    reveal_strlit(r"\\");
    reveal_strlit(r"\");
    let p = seq!['\\', '\\'] + server + seq![x] + share + rest;
    let a = 2 + server.len() as int;
    let b = a + 1 + share.len() as int;
    assert forall|i: int| 2 <= i < a implies !divides(
        #[trigger] p[i],
        Separator::Backslash,
        false,
    ) by {
        assert(p[i] == server[i - 2]);
    }
    assert(p[a] == x);
    assert forall|i: int| a + 1 <= i < b implies !divides(
        #[trigger] p[i],
        Separator::Backslash,
        false,
    ) by {
        assert(p[i] == share[i - a - 1]);
    }
    if rest.len() > 0 {
        assert(p[b] == rest[0]);
    }
    lemma_piece_ends_at(p, 2, a);
    lemma_piece_ends_at(p, a + 1, b);
    assert(p.subrange(2, a) =~= server);
    assert(p.subrange(a + 1, b) =~= share);
    assert(p[0] == '\\' && p[1] == '\\');
    if is_prefix(r"\\?\"@, p) {
        assert(p.take(4)[2] == p[2] && p.take(4)[3] == p[3]);
        if server.len() == 1 {
            assert(server =~= seq!['?']);
            assert("?"@ =~= seq!['?']);
        } else {
            assert(p[3] == server[1]);
        }
    }
    if p[2] == '.' && slash_or_back(p[3]) {
        if server.len() == 1 {
            assert(server =~= seq!['.']);
            assert("."@ =~= seq!['.']);
        } else {
            assert(p[3] == server[1]);
        }
    }
    assert(r"\\"@ =~= seq!['\\', '\\']);
    assert(r"\"@ =~= seq!['\\']);
}

proof fn lemma_piece_ends_at(p: Seq<char>, i: int, e: int)
    requires
        0 <= i <= e <= p.len(),
        forall|k: int| i <= k < e ==> !divides(#[trigger] p[k], Separator::Backslash, false),
        e < p.len() ==> divides(p[e], Separator::Backslash, false),
    ensures
        piece_end(p, i, false) == e,
    decreases e - i,
{
    if i < e {
        assert(!divides(p[i], Separator::Backslash, false));
        lemma_piece_ends_at(p, i + 1, e);
    }
}

/// A path without a prefix is under a root exactly where it begins with a
/// separator.
pub proof fn a_leading_separator_is_the_root(p: Seq<char>)
    ensures
        layout(p, Separator::Slash).anchored() <==> p.len() > 0 && p[0] == '/',
        windows_prefix(p) is None ==> (layout(p, Separator::Backslash).anchored() <==> p.len() > 0
            && (p[0] == '/' || p[0] == '\\')),
{
}

/// A path's head is its prefix, where it has one, and its root, said or not: a share
/// roots its path without a separator, a drive only with one, and a verbatim prefix
/// as it stands.
pub proof fn a_head_is_a_prefix_and_a_root(p: Seq<char>)
    ensures
        ({
            let l = layout(p, Separator::Backslash);
            let root = seq!['\\'];
            &&& l.prefix matches Some(x) ==> {
                &&& l.head().len() > 0
                &&& l.head()[0] == x.key
                &&& l.root ==> l.head() == seq![x.key, root]
                &&& !l.root && x.rooted && !x.verbatim ==> l.head() == seq![x.key, root]
                &&& !l.root && (!x.rooted || x.verbatim) ==> l.head() == seq![x.key]
            }
            &&& l.prefix is None && l.root ==> l.head() == seq![root]
            &&& l.prefix is None && !l.root ==> l.head().len() == 0
        }),
{
    let l = layout(p, Separator::Backslash);
    if let Some(x) = l.prefix {
        assert(seq![x.key] + seq![seq!['\\']] =~= seq![x.key, seq!['\\']]);
    }
}

} // verus!
