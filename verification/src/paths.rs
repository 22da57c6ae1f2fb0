//! Path spellings: the string a path is stored under, how it splits into a
//! directory and a name, and which directories cover which paths.
//!
//! Paths are texts here. A path that is not valid UTF-8 is screened out
//! before it gets this far; see [`warn_if_unrepresentable`].
use crate::parts::{
    an_ancestor_is_shorter, file_name, join, parent, path_file_name, path_join, path_parent,
    path_under, under,
};
use crate::text::{chars_of, has_prefix, is_prefix, joined, string_from, texts};
use vstd::prelude::*;

verus! {

/// The separator of the platform the index is kept on.
#[derive(Debug, Clone, Copy, PartialEq, Eq, Structural)]
pub enum Separator {
    Slash,
    Backslash,
}

impl Separator {
    pub open spec fn spec_symbol(self) -> char {
        match self {
            Separator::Slash => '/',
            Separator::Backslash => '\\',
        }
    }

    pub open spec fn spec_successor(self) -> char {
        match self {
            Separator::Slash => '0',
            Separator::Backslash => ']',
        }
    }

    /// The separator that a character stands for; any but a backslash is read
    /// as a slash.
    pub fn of(c: char) -> (r: Separator)
        ensures
            r == (if c == '\\' {
                Separator::Backslash
            } else {
                Separator::Slash
            }),
    {
        if c == '\\' {
            Separator::Backslash
        } else {
            Separator::Slash
        }
    }

    /// The character itself.
    #[verifier::when_used_as_spec(spec_symbol)]
    pub fn symbol(self) -> (c: char)
        ensures
            c == self.spec_symbol(),
    {
        match self {
            Separator::Slash => '/',
            Separator::Backslash => '\\',
        }
    }

    /// The character that follows it.
    #[verifier::when_used_as_spec(spec_successor)]
    pub fn successor(self) -> (c: char)
        ensures
            c == self.spec_successor(),
    {
        match self {
            Separator::Slash => '0',
            Separator::Backslash => ']',
        }
    }
}

/// What SQLite and the tool itself hang off the index's own filename.
pub const INDEX_SIDECAR_SUFFIXES: [&'static str; 4] = ["-wal", "-shm", "-journal", ".lock"];

/// `X:` for some ASCII letter.
pub open spec fn drive_letter(s: Seq<char>) -> bool {
    s.len() >= 2 && s[1] == ':' && (65 <= s[0] as u32 <= 90 || 97 <= s[0] as u32 <= 122)
}

/// Whether `s` begins `X:` for some ASCII letter: the only extended-length
/// payload that is still a usable path once the prefix is gone.
pub(crate) fn starts_with_drive_letter(s: &Vec<char>) -> (r: bool)
    ensures
        r == drive_letter(s@),
{
    if s.len() < 2 {
        return false;
    }
    let c: u32 = s[0] as u32;
    s[1] == ':' && ((65 <= c && c <= 90) || (97 <= c && c <= 122))
}

/// The spelling the index stores a path in. An extended-length share becomes
/// a plain one, an extended-length drive path loses its prefix, and every
/// other spelling stays: a mounted volume has no plain name.
pub open spec fn db_string(s: Seq<char>) -> Seq<char> {
    let unc = r"\\?\UNC\"@;
    let ext = r"\\?\"@;
    if is_prefix(unc, s) {
        r"\\"@ + s.skip(unc.len() as int)
    } else if is_prefix(ext, s) && drive_letter(s.skip(ext.len() as int)) {
        s.skip(ext.len() as int)
    } else {
        s
    }
}

/// Render a path in the spelling the index stores it in.
pub fn path_to_db_string(path: &str) -> (r: String)
    ensures
        r@ == db_string(path@),
{
    let v = chars_of(path);
    let unc = chars_of(r"\\?\UNC\");
    let ext = chars_of(r"\\?\");
    if has_prefix(&v, &unc) {
        let rest = string_from(&v, unc.len(), v.len());
        assert(rest@ =~= path@.skip(unc@.len() as int));
        return joined(r"\\", rest.as_str());
    }
    if has_prefix(&v, &ext) {
        let rest = string_from(&v, ext.len(), v.len());
        assert(rest@ =~= path@.skip(ext@.len() as int));
        if starts_with_drive_letter(&chars_of(rest.as_str())) {
            return rest;
        }
    }
    path.to_owned()
}

/// Stored spellings are stable: rendering one again changes nothing. The
/// exception is an extended-length share whose own name wears the prefix
/// again.
pub proof fn a_stored_spelling_is_stable(s: Seq<char>)
    requires
        is_prefix(r"\\?\UNC\"@, s) ==> {
            let rest = s.skip(8);
            &&& !is_prefix(r"?\UNC\"@, rest)
            &&& !(is_prefix(r"?\"@, rest) && drive_letter(rest.skip(2)))
        },
    ensures
        db_string(db_string(s)) == db_string(s),
{
    reveal_strlit(r"\\?\");
    reveal_strlit(r"\\?\UNC\");
    reveal_strlit(r"\\");
    reveal_strlit(r"?\");
    reveal_strlit(r"?\UNC\");
    let ext = r"\\?\"@;
    let unc = r"\\?\UNC\"@;
    let t = db_string(s);
    if is_prefix(unc, s) {
        let rest = s.skip(8);
        assert(t =~= r"\\"@ + rest);
        if is_prefix(unc, t) {
            assert forall|i: int| 0 <= i < 6 implies rest[i] == r"?\UNC\"@[i] by {
                assert(t.take(8)[i + 2] == unc[i + 2]);
            }
            assert(rest.take(6) =~= r"?\UNC\"@);
        }
        if is_prefix(ext, t) && drive_letter(t.skip(4)) {
            assert forall|i: int| 0 <= i < 2 implies rest[i] == r"?\"@[i] by {
                assert(t.take(4)[i + 2] == ext[i + 2]);
            }
            assert(rest.take(2) =~= r"?\"@);
            assert(rest.skip(2) =~= t.skip(4));
        }
    } else if is_prefix(ext, s) && drive_letter(s.skip(ext.len() as int)) {
        assert(t[1] == ':');
        if is_prefix(ext, t) {
            assert(t.take(4)[1] == t[1]);
            assert(ext[1] == '\\');
        }
        if is_prefix(unc, t) {
            assert(t.take(unc.len() as int)[1] == t[1]);
            assert(unc[1] == '\\');
        }
    }
}

/// The warning for a path that cannot round-trip through the index, where
/// `utf8` says there is no faithful spelling of it; `shown` is how it prints.
/// The lossy spelling of such a path is some other file's real name, so the
/// file is skipped whole.
pub fn warn_if_unrepresentable(utf8: Option<&str>, shown: &str) -> (r: Option<String>)
    ensures
        match r {
            Some(w) => utf8 is None && w@
                == "Skipping file (name is not valid UTF-8, so it cannot be hashed or text-indexed): "@
                + shown@,
            None => utf8 is Some,
        },
{
    match utf8 {
        Some(_) => None,
        None => Some(
            joined(
                "Skipping file (name is not valid UTF-8, so it cannot be hashed or text-indexed): ",
                shown,
            ),
        ),
    }
}

/// The form roots are compared in: the resolved spelling where the root
/// resolves, the spelling the user typed where it does not.
pub fn normalize_root_string(indexing_path: &str, resolved: Option<&str>) -> (r: String)
    ensures
        r@ == db_string(
            match resolved {
                Some(p) => p@,
                None => indexing_path@,
            },
        ),
{
    match resolved {
        Some(p) => path_to_db_string(p),
        None => path_to_db_string(indexing_path),
    }
}

/// A directory as the index stores it: always ending in the separator, so
/// that a file's path is its parent and its name side by side.
pub open spec fn db_parent(dir: Seq<char>, sep: char) -> Seq<char> {
    let s = db_string(dir);
    if s.len() > 0 && s.last() == sep {
        s
    } else {
        s.push(sep)
    }
}

/// Render a directory as a stored parent.
pub fn dir_to_db_parent(dir: &str, sep: Separator) -> (r: String)
    ensures
        r@ == db_parent(dir@, sep.symbol()),
{
    let mut s = path_to_db_string(dir);
    let v = chars_of(s.as_str());
    if v.len() == 0 || v[v.len() - 1] != sep.symbol() {
        s.push(sep.symbol());
    }
    s
}

/// Just after the last separator; 0 where there is none.
pub open spec fn after_last(s: Seq<char>, sep: char) -> int
    decreases s.len(),
{
    if s.len() == 0 {
        0
    } else if s.last() == sep {
        s.len() as int
    } else {
        after_last(s.drop_last(), sep)
    }
}

/// The (parent, name) pair of a stored path: the separator stays with the
/// parent. Nothing where the text cannot be a file's path: no separator, or
/// no name after it.
pub open spec fn split_path(path: Seq<char>, sep: char) -> Option<(Seq<char>, Seq<char>)> {
    let cut = after_last(path, sep);
    if cut == 0 || cut == path.len() {
        None
    } else {
        Some((path.take(cut), path.skip(cut)))
    }
}

pub(crate) proof fn lemma_after_last(s: Seq<char>, sep: char, k: int)
    requires
        0 <= k <= s.len(),
        k == 0 || s[k - 1] == sep,
        forall|i: int| k <= i < s.len() ==> s[i] != sep,
    ensures
        after_last(s, sep) == k,
    decreases s.len(),
{
    if s.len() > 0 && s.last() != sep {
        lemma_after_last(s.drop_last(), sep, k);
    }
}

/// Where [`after_last`] stands, and what that means.
proof fn lemma_after_last_holds(s: Seq<char>, sep: char)
    ensures
        0 <= after_last(s, sep) <= s.len(),
        after_last(s, sep) > 0 ==> s[after_last(s, sep) - 1] == sep,
        forall|i: int| after_last(s, sep) <= i < s.len() ==> s[i] != sep,
    decreases s.len(),
{
    if s.len() > 0 && s.last() != sep {
        lemma_after_last_holds(s.drop_last(), sep);
        assert forall|i: int| after_last(s, sep) <= i < s.len() implies s[i] != sep by {
            if i < s.len() - 1 {
                assert(s.drop_last()[i] == s[i]);
            }
        }
    }
}

/// Split a stored path into the `(parent, name)` pair the index keys on.
pub fn split_db_path(path: &str, sep: Separator) -> (r: Option<(String, String)>)
    ensures
        match r {
            Some((parent, name)) => split_path(path@, sep.symbol()) == Some((parent@, name@)),
            None => split_path(path@, sep.symbol()) is None,
        },
{
    let c = sep.symbol();
    let v = chars_of(path);
    let mut k: usize = v.len();
    while k > 0 && v[k - 1] != c
        invariant
            k <= v@.len(),
            forall|i: int| k <= i < v@.len() ==> v@[i] != c,
        decreases k,
    {
        k -= 1;
    }
    proof {
        lemma_after_last(v@, c, k as int);
    }
    if k == 0 || k == v.len() {
        return None;
    }
    let parent = string_from(&v, 0, k);
    let name = string_from(&v, k, v.len());
    assert(parent@ =~= path@.take(k as int));
    assert(name@ =~= path@.skip(k as int));
    Some((parent, name))
}

/// A split path concatenates back into itself; its parent ends in a separator
/// and its name holds none.
pub proof fn a_split_path_joins_back(path: Seq<char>, sep: char)
    requires
        split_path(path, sep) is Some,
    ensures
        ({
            let (parent, name) = split_path(path, sep)->Some_0;
            &&& parent + name == path
            &&& parent.last() == sep
            &&& name.len() > 0
            &&& !name.contains(sep)
        }),
{
    lemma_after_last_holds(path, sep);
    let (parent, name) = split_path(path, sep)->Some_0;
    assert(parent + name =~= path);
    assert forall|i: int| 0 <= i < name.len() implies name[i] != sep by {
        assert(name[i] == path[i + after_last(path, sep)]);
    }
}

/// A name without a separator, joined to a directory's stored parent, splits
/// into exactly these two again.
pub proof fn a_join_splits_back(dir: Seq<char>, name: Seq<char>, sep: char)
    requires
        name.len() > 0,
        !name.contains(sep),
    ensures
        split_path(db_parent(dir, sep) + name, sep) == Some((db_parent(dir, sep), name)),
{
    let p = db_parent(dir, sep);
    let s = p + name;
    assert forall|i: int| p.len() <= i < s.len() implies s[i] != sep by {
        assert(name.contains(name[i - p.len()]));
    }
    assert(s[p.len() - 1] == p.last());
    lemma_after_last(s, sep, p.len() as int);
    assert(s.take(p.len() as int) =~= p);
    assert(s.skip(p.len() as int) =~= name);
}

/// Paths a walk could not read. A full run deletes rows for everything it did
/// not see, so "could not read" and "gone" must not look alike.
#[derive(Debug, Clone)]
pub struct UnreadableDirs {
    dirs: Vec<String>,
}

impl View for UnreadableDirs {
    type V = Seq<Seq<char>>;

    closed spec fn view(&self) -> Seq<Seq<char>> {
        texts(self.dirs@)
    }
}

impl Default for UnreadableDirs {
    fn default() -> (r: Self)
        ensures
            r@ == Seq::<Seq<char>>::empty(),
    {
        let r = UnreadableDirs { dirs: Vec::new() };
        assert(r@ =~= seq![]);
        r
    }
}

impl UnreadableDirs {
    pub fn record(&mut self, path: String)
        ensures
            final(self)@ == old(self)@.push(path@),
    {
        self.dirs.push(path);
        assert(self@ =~= old(self)@.push(path@));
    }

    pub fn is_empty(&self) -> (r: bool)
        ensures
            r == (self@.len() == 0),
    {
        self.dirs.len() == 0
    }

    pub fn paths(&self) -> (r: Vec<String>)
        ensures
            texts(r@) == self@,
    {
        let mut r: Vec<String> = Vec::new();
        let mut i: usize = 0;
        while i < self.dirs.len()
            invariant
                i <= self.dirs@.len(),
                texts(r@) == self@.take(i as int),
            decreases self.dirs@.len() - i,
        {
            let ghost before = texts(r@);
            r.push(self.dirs[i].clone());
            assert(texts(r@) =~= before.push(self.dirs@[i as int]@));
            assert(texts(r@) =~= self@.take(i + 1));
            i += 1;
        }
        assert(self@.take(self@.len() as int) =~= self@);
        r
    }

    /// Whether `path` lies under a directory the walk failed to read.
    /// Containment is by path component, never by string prefix.
    pub fn covers(&self, path: &str, sep: Separator) -> (r: bool)
        ensures
            r == (exists|i: int| 0 <= i < self@.len() && under(path@, #[trigger] self@[i], sep)),
    {
        let mut i: usize = 0;
        while i < self.dirs.len()
            invariant
                i <= self.dirs@.len(),
                forall|k: int| 0 <= k < i ==> !under(path@, #[trigger] self@[k], sep),
            decreases self.dirs@.len() - i,
        {
            assert(self@[i as int] == self.dirs@[i as int]@);
            if path_under(path, self.dirs[i].as_str(), sep) {
                return true;
            }
            i += 1;
        }
        false
    }
}

/// A directory once recorded goes on covering what it covered.
pub proof fn recording_keeps_cover(
    before: Seq<Seq<char>>,
    dir: Seq<char>,
    path: Seq<char>,
    sep: Separator,
)
    requires
        exists|i: int| 0 <= i < before.len() && under(path, #[trigger] before[i], sep),
    ensures
        exists|i: int|
            0 <= i < before.push(dir).len() && under(path, #[trigger] before.push(dir)[i], sep),
{
    let i = choose|i: int| 0 <= i < before.len() && under(path, #[trigger] before[i], sep);
    assert(before.push(dir)[i] == before[i]);
}

/// Every file belonging to the index at a path, spelled the way the walk
/// spells the files it visits: the index itself and its sidecars, under the
/// directory as it resolves. Nothing where the path names no file.
pub open spec fn index_files(
    db_path: Seq<char>,
    resolved_dir: Option<Seq<char>>,
    sep: Separator,
) -> Seq<Seq<char>> {
    match file_name(db_path, sep) {
        None => seq![],
        Some(name) => {
            let raw = match parent(db_path, sep) {
                Some(p) => p,
                None => "."@,
            };
            let dir = db_string(
                match resolved_dir {
                    Some(d) => d,
                    None => raw,
                },
            );
            seq![
                join(dir, name, sep),
                join(dir, name + "-wal"@, sep),
                join(dir, name + "-shm"@, sep),
                join(dir, name + "-journal"@, sep),
                join(dir, name + ".lock"@, sep),
            ]
        },
    }
}

/// Every file belonging to the index at `db_path`. Nothing may ever open one
/// of these but the database itself: closing any descriptor on such a file
/// cancels the locks the whole process holds on it. `resolved_dir` is what its
/// directory resolves to, where it does.
pub fn index_file_set(db_path: &str, resolved_dir: Option<&str>, sep: Separator) -> (r: Vec<
    String,
>)
    ensures
        texts(r@) == index_files(
            db_path@,
            match resolved_dir {
                Some(d) => Some(d@),
                None => None,
            },
            sep,
        ),
{
    let mut r: Vec<String> = Vec::new();
    assert(texts(r@) =~= seq![]);
    let name = match path_file_name(db_path, sep) {
        Some(n) => n,
        None => return r,
    };
    let raw = match path_parent(db_path, sep) {
        Some(p) => p,
        None => ".".to_owned(),
    };
    let dir = match resolved_dir {
        Some(d) => path_to_db_string(d),
        None => path_to_db_string(raw.as_str()),
    };
    r.push(path_join(dir.as_str(), name.as_str(), sep));
    let ghost first = join(dir@, name@, sep);
    assert(texts(r@) =~= seq![first]);
    let suffixes = INDEX_SIDECAR_SUFFIXES;
    let mut i: usize = 0;
    while i < 4
        invariant
            i <= 4,
            suffixes == INDEX_SIDECAR_SUFFIXES,
            first == join(dir@, name@, sep),
            texts(r@).len() == i + 1,
            texts(r@)[0] == first,
            forall|k: int|
                1 <= k <= i ==> #[trigger] texts(r@)[k] == join(dir@, name@ + suffixes@[k - 1]@, sep),
        decreases 4 - i,
    {
        let spelled = joined(name.as_str(), suffixes[i]);
        let ghost before = texts(r@);
        r.push(path_join(dir.as_str(), spelled.as_str(), sep));
        assert(texts(r@) =~= before.push(join(dir@, spelled@, sep)));
        assert forall|k: int| 1 <= k <= i + 1 implies #[trigger] texts(r@)[k] == join(
            dir@,
            name@ + suffixes@[k - 1]@,
            sep,
        ) by {
            if k <= i {
                assert(before[k] == join(dir@, name@ + suffixes@[k - 1]@, sep));
            }
        }
        i += 1;
    }
    assert(texts(r@) =~= index_files(
        db_path@,
        match resolved_dir {
            Some(d) => Some(d@),
            None => None,
        },
        sep,
    ));
    r
}

/// A search for the stored spelling of a path that may no longer exist: the
/// deepest ancestor that still resolves, and the missing tail after it. Each
/// ancestor is tried on disk in turn, and the search is told what came back.
#[derive(Debug, Clone)]
pub struct MissingPath {
    path: String,
    cursor: String,
    tail: Vec<String>,
    sep: Separator,
}

/// What to do next in such a search.
#[derive(Debug, Clone)]
pub enum MissingStep {
    /// Resolve this ancestor, and say what it resolves to.
    Try(String),
    /// The stored spelling.
    Key(String),
}

/// The parts of a tail, outermost last, put under a directory.
pub open spec fn join_tail(dir: Seq<char>, tail: Seq<Seq<char>>, sep: Separator) -> Seq<char>
    decreases tail.len(),
{
    if tail.len() == 0 {
        dir
    } else {
        join_tail(join(dir, tail.last(), sep), tail.drop_last(), sep)
    }
}

/// The stored spelling of a path that may no longer exist: begins the search,
/// with the path itself to try. Only for a path that is spelled exactly: the
/// key of any other names some other file.
pub fn db_key_for_missing_path(path: &str, sep: Separator) -> (r: (MissingPath, MissingStep))
    ensures
        r.0.path() == path@,
        r.0.sep() == sep,
        r.0.cursor() == path@,
        r.0.tail() == Seq::<Seq<char>>::empty(),
        r.1 matches MissingStep::Try(p) && p@ == path@,
{
    let m = MissingPath {
        path: path.to_owned(),
        cursor: path.to_owned(),
        tail: Vec::new(),
        sep,
    };
    assert(m.tail() =~= seq![]);
    (m, MissingStep::Try(path.to_owned()))
}

impl MissingPath {
    /// The path the search is for.
    pub closed spec fn path(&self) -> Seq<char> {
        self.path@
    }

    /// What divides it.
    pub closed spec fn sep(&self) -> Separator {
        self.sep
    }

    /// The ancestor under trial.
    pub closed spec fn cursor(&self) -> Seq<char> {
        self.cursor@
    }

    /// The components below it, innermost first.
    pub closed spec fn tail(&self) -> Seq<Seq<char>> {
        texts(self.tail@)
    }

    /// Whether a step of the search agrees with where the search comes out: a key
    /// is that place, and a search that goes on comes out at the same one.
    pub open spec fn agrees(self, after: Self, resolved: Option<&str>, step: MissingStep) -> bool {
        forall|disk: spec_fn(Seq<char>) -> Option<Seq<char>>|
            #![trigger missing_key(self.path(), self.cursor(), self.tail(), disk, self.sep())]
            disk(self.cursor()) == crate::text::str_view(resolved) ==> missing_key(
                self.path(),
                self.cursor(),
                self.tail(),
                disk,
                self.sep(),
            ) == (match step {
                MissingStep::Key(k) => k@,
                MissingStep::Try(_) => missing_key(
                    after.path(),
                    after.cursor(),
                    after.tail(),
                    disk,
                    after.sep(),
                ),
            })
    }

    /// The ancestor under trial resolved to `resolved`, or did not resolve.
    pub fn advance(&mut self, resolved: Option<&str>) -> (step: MissingStep)
        ensures
            final(self).path() == old(self).path(),
            final(self).sep() == old(self).sep(),
            match resolved {
                Some(dir) => step matches MissingStep::Key(k) && k@ == db_string(
                    join_tail(dir@, old(self).tail(), old(self).sep()),
                ),
                None => match (
                    file_name(old(self).cursor(), old(self).sep()),
                    parent(old(self).cursor(), old(self).sep()),
                ) {
                    (Some(name), Some(up)) => {
                        &&& step matches MissingStep::Try(p) && p@ == up
                        &&& final(self).cursor() == up
                        &&& final(self).tail() == old(self).tail().push(name)
                    },
                    _ => step matches MissingStep::Key(k) && k@ == db_string(old(self).path()),
                },
            },
            old(self).agrees(*final(self), resolved, step),
    {
        match resolved {
            Some(dir) => {
                let mut out = dir.to_owned();
                let mut i: usize = self.tail.len();
                assert(self.tail().take(i as int) =~= self.tail());
                while i > 0
                    invariant
                        *self == *old(self),
                        i <= self.tail@.len(),
                        join_tail(out@, self.tail().take(i as int), self.sep) == join_tail(
                            dir@,
                            old(self).tail(),
                            self.sep,
                        ),
                    decreases i,
                {
                    let ghost t = self.tail().take(i as int);
                    assert(t.last() == self.tail@[i - 1]@);
                    assert(t.drop_last() =~= self.tail().take(i - 1));
                    out = path_join(out.as_str(), self.tail[i - 1].as_str(), self.sep);
                    i -= 1;
                }
                MissingStep::Key(path_to_db_string(out.as_str()))
            },
            None => {
                match (
                    path_file_name(self.cursor.as_str(), self.sep),
                    path_parent(self.cursor.as_str(), self.sep),
                ) {
                    (Some(name), Some(up)) => {
                        let ghost before = self.tail();
                        self.tail.push(name);
                        assert(self.tail() =~= before.push(name@));
                        let next = up.clone();
                        self.cursor = up;
                        MissingStep::Try(next)
                    },
                    _ => MissingStep::Key(path_to_db_string(self.path.as_str())),
                }
            },
        }
    }
}

/// Where a search comes out, from the ancestor under trial and the components
/// below it, innermost first. `disk` is what each path resolves to.
pub open spec fn missing_key(
    path: Seq<char>,
    cursor: Seq<char>,
    tail: Seq<Seq<char>>,
    disk: spec_fn(Seq<char>) -> Option<Seq<char>>,
    sep: Separator,
) -> Seq<char>
    decreases cursor.len(),
{
    match disk(cursor) {
        Some(dir) => db_string(join_tail(dir, tail, sep)),
        None => if file_name(cursor, sep) is Some && parent(cursor, sep) is Some {
            proof {
                an_ancestor_is_shorter(cursor, sep);
            }
            missing_key(
                path,
                parent(cursor, sep)->Some_0,
                tail.push(file_name(cursor, sep)->Some_0),
                disk,
                sep,
            )
        } else {
            db_string(path)
        },
    }
}

/// The `n`th ancestor of a path, the path itself being the first of them.
pub open spec fn ancestor(p: Seq<char>, n: nat, sep: Separator) -> Seq<char>
    decreases n,
{
    if n == 0 {
        p
    } else {
        parent(ancestor(p, (n - 1) as nat, sep), sep)->Some_0
    }
}

/// The components of a path below its `n`th ancestor, innermost first.
pub open spec fn names_below(p: Seq<char>, n: nat, sep: Separator) -> Seq<Seq<char>>
    decreases n,
{
    if n == 0 {
        seq![]
    } else {
        names_below(p, (n - 1) as nat, sep).push(
            file_name(ancestor(p, (n - 1) as nat, sep), sep)->Some_0,
        )
    }
}

/// The key of a path is the nearest ancestor that still resolves, as it
/// resolves, with the missing components put back under it.
pub proof fn what_resolves_is_resolved(
    path: Seq<char>,
    n: nat,
    disk: spec_fn(Seq<char>) -> Option<Seq<char>>,
    sep: Separator,
)
    requires
        forall|k: nat|
            k < n ==> disk(#[trigger] ancestor(path, k, sep)) is None && file_name(
                ancestor(path, k, sep),
                sep,
            ) is Some && parent(ancestor(path, k, sep), sep) is Some,
        disk(ancestor(path, n, sep)) is Some,
    ensures
        missing_key(path, path, seq![], disk, sep) == db_string(
            join_tail(disk(ancestor(path, n, sep))->Some_0, names_below(path, n, sep), sep),
        ),
{
    lemma_search(path, n, disk, sep);
}

/// A path nothing of which resolves keeps the spelling it came with.
pub proof fn what_never_resolves_keeps_its_spelling(
    path: Seq<char>,
    cursor: Seq<char>,
    tail: Seq<Seq<char>>,
    disk: spec_fn(Seq<char>) -> Option<Seq<char>>,
    sep: Separator,
)
    requires
        forall|p: Seq<char>| #[trigger] disk(p) is None,
    ensures
        missing_key(path, cursor, tail, disk, sep) == db_string(path),
    decreases cursor.len(),
{
    assert(disk(cursor) is None);
    if file_name(cursor, sep) is Some && parent(cursor, sep) is Some {
        an_ancestor_is_shorter(cursor, sep);
        what_never_resolves_keeps_its_spelling(
            path,
            parent(cursor, sep)->Some_0,
            tail.push(file_name(cursor, sep)->Some_0),
            disk,
            sep,
        );
    }
}

proof fn lemma_search(
    path: Seq<char>,
    n: nat,
    disk: spec_fn(Seq<char>) -> Option<Seq<char>>,
    sep: Separator,
)
    requires
        forall|k: nat|
            k < n ==> disk(#[trigger] ancestor(path, k, sep)) is None && file_name(
                ancestor(path, k, sep),
                sep,
            ) is Some && parent(ancestor(path, k, sep), sep) is Some,
    ensures
        missing_key(path, path, seq![], disk, sep) == missing_key(
            path,
            ancestor(path, n, sep),
            names_below(path, n, sep),
            disk,
            sep,
        ),
    decreases n,
{
    if n > 0 {
        let m = (n - 1) as nat;
        lemma_search(path, m, disk, sep);
        assert(disk(ancestor(path, m, sep)) is None);
    }
}

// The single definition of "would we index this", shared by the walks and the
// watcher.

/// What a walk knows of one entry when it decides whether to keep it.
#[derive(Debug, Clone, Copy, PartialEq, Eq, Structural)]
pub struct WalkEntry {
    /// 0 is the root itself.
    pub depth: usize,
    /// The platform calls the entry hidden; a link is judged by itself.
    pub hidden: bool,
    /// An ignore pattern matches its name.
    pub ignored_name: bool,
    /// An ignore pattern matches its path.
    pub ignored_path: bool,
    pub is_symlink: bool,
    pub is_dir: bool,
}

/// Whether a walk descends into an entry and looks at it at all: users chose
/// their roots, so a root always passes; hidden and ignored entries are pruned
/// with everything beneath them.
pub open spec fn passes(e: WalkEntry, include_hidden: bool) -> bool {
    e.depth == 0 || ((include_hidden || !e.hidden) && !e.ignored_name && !e.ignored_path)
}

pub fn walk_filter(e: &WalkEntry, include_hidden: bool) -> (r: bool)
    ensures
        r == passes(*e, include_hidden),
{
    if e.depth == 0 {
        return true;
    }
    if !include_hidden && e.hidden {
        return false;
    }
    !e.ignored_name && !e.ignored_path
}

/// Whether a walk yields an entry at all. A symlink is an entry in its own
/// right when following is off, and is never yielded then.
pub open spec fn yielded(e: WalkEntry, follow_symlinks: bool, include_hidden: bool) -> bool {
    passes(e, include_hidden) && (follow_symlinks || !e.is_symlink)
}

/// Whether the walk over files yields an entry.
pub fn filtered_walk(e: &WalkEntry, follow_symlinks: bool, include_hidden: bool) -> (r: bool)
    ensures
        r == (yielded(*e, follow_symlinks, include_hidden) && !e.is_dir),
{
    walk_filter(e, include_hidden) && (follow_symlinks || !e.is_symlink) && !e.is_dir
}

/// Whether the walk over directories yields an entry. A watcher spends one
/// descriptor on each.
pub fn filtered_dirs(e: &WalkEntry, follow_symlinks: bool, include_hidden: bool) -> (r: bool)
    ensures
        r == (yielded(*e, follow_symlinks, include_hidden) && e.is_dir),
{
    walk_filter(e, include_hidden) && (follow_symlinks || !e.is_symlink) && e.is_dir
}

/// An extended-length drive path is stored without its prefix, an extended-length
/// share as a plain share, and a path without the prefix as it is.
pub proof fn an_extended_spelling_is_stored_plain(s: Seq<char>)
    ensures
        drive_letter(s) ==> db_string(r"\\?\"@ + s) == s,
        db_string(r"\\?\UNC\"@ + s) == r"\\"@ + s,
        !is_prefix(r"\\?\"@, s) ==> db_string(s) == s,
{
    reveal_strlit(r"\\?\");
    reveal_strlit(r"\\?\UNC\");
    let ext = r"\\?\"@;
    let unc = r"\\?\UNC\"@;
    assert((ext + s).skip(4) =~= s);
    assert((ext + s).take(4) =~= ext);
    assert((unc + s).skip(8) =~= s);
    assert((unc + s).take(8) =~= unc);
    if drive_letter(s) && is_prefix(unc, ext + s) {
        assert((ext + s).take(8)[5] == unc[5]);
        assert((ext + s)[5] == s[1]);
    }
    if is_prefix(unc, s) {
        assert(s.take(8).take(4) =~= s.take(4));
        assert(unc.take(4) =~= ext);
    }
}

/// A stored parent is the stored spelling of its directory with exactly one
/// separator at its end: the one it has, or one that is added.
pub proof fn a_stored_parent_ends_in_a_separator(dir: Seq<char>, sep: char)
    ensures
        db_parent(dir, sep).len() > 0,
        db_parent(dir, sep).last() == sep,
        db_string(dir).len() > 0 && db_string(dir).last() == sep ==> db_parent(dir, sep)
            == db_string(dir),
        db_string(dir).len() == 0 || db_string(dir).last() != sep ==> db_parent(dir, sep)
            == db_string(dir) + seq![sep],
{
    assert(db_string(dir).push(sep) =~= db_string(dir) + seq![sep]);
}

/// A path splits exactly where it has a separator and a name behind the last one.
pub proof fn a_path_with_a_name_splits(path: Seq<char>, sep: char)
    ensures
        split_path(path, sep) is Some <==> path.contains(sep) && path.last() != sep,
{
    lemma_after_last_holds(path, sep);
    let k = after_last(path, sep);
    if path.contains(sep) {
        let i = choose|i: int| 0 <= i < path.len() && path[i] == sep;
        assert(k > i);
    }
    if k > 0 {
        assert(path[k - 1] == sep);
        assert(path.contains(sep));
    }
    if k < path.len() {
        assert(path[path.len() - 1] != sep);
    }
}

/// The index and each of its four sidecars are its files, under the directory as
/// it resolves.
pub proof fn an_index_has_its_sidecars(
    db_path: Seq<char>,
    resolved: Seq<char>,
    name: Seq<char>,
    sep: Separator,
)
    requires
        file_name(db_path, sep) == Some(name),
    ensures
        ({
            let files = index_files(db_path, Some(resolved), sep);
            let dir = db_string(resolved);
            &&& files.len() == 5
            &&& files.contains(join(dir, name, sep))
            &&& files.contains(join(dir, name + "-wal"@, sep))
            &&& files.contains(join(dir, name + "-shm"@, sep))
            &&& files.contains(join(dir, name + "-journal"@, sep))
            &&& files.contains(join(dir, name + ".lock"@, sep))
        }),
{
    let files = index_files(db_path, Some(resolved), sep);
    let dir = db_string(resolved);
    assert(files[0] == join(dir, name, sep));
    assert(files[1] == join(dir, name + "-wal"@, sep));
    assert(files[2] == join(dir, name + "-shm"@, sep));
    assert(files[3] == join(dir, name + "-journal"@, sep));
    assert(files[4] == join(dir, name + ".lock"@, sep));
}

/// The missing components go back under the ancestor that resolved in the order
/// in which they came off it: the outermost first.
pub proof fn a_tail_goes_back_in_order(
    dir: Seq<char>,
    outer: Seq<char>,
    inner: Seq<char>,
    sep: Separator,
)
    ensures
        join_tail(dir, seq![inner, outer], sep) == join(join(dir, outer, sep), inner, sep),
        join_tail(dir, seq![inner], sep) == join(dir, inner, sep),
        join_tail(dir, seq![], sep) == dir,
{
    assert(seq![inner, outer].drop_last() =~= seq![inner]);
    assert(seq![inner].drop_last() =~= seq![]);
    reveal_with_fuel(join_tail, 3);
}

/// The root of a walk always passes. Below it nothing that an ignore pattern
/// matches passes, whatever the settings; a hidden entry passes exactly where the
/// settings ask for hidden ones; and everything else does.
pub proof fn a_walk_prunes_what_the_settings_say(e: WalkEntry, include_hidden: bool)
    ensures
        e.depth == 0 ==> passes(e, include_hidden),
        e.depth > 0 && e.ignored_name ==> !passes(e, include_hidden),
        e.depth > 0 && e.ignored_path ==> !passes(e, include_hidden),
        e.depth > 0 && e.hidden && !include_hidden ==> !passes(e, include_hidden),
        !e.hidden && !e.ignored_name && !e.ignored_path ==> passes(e, include_hidden),
        include_hidden && !e.ignored_name && !e.ignored_path ==> passes(e, include_hidden),
{
}

/// A link is yielded only where links are followed, and what is no link is yielded
/// wherever it passes.
pub proof fn a_link_is_yielded_only_where_it_is_followed(
    e: WalkEntry,
    follow_symlinks: bool,
    include_hidden: bool,
)
    ensures
        e.is_symlink && !follow_symlinks ==> !yielded(e, follow_symlinks, include_hidden),
        !e.is_symlink ==> yielded(e, follow_symlinks, include_hidden) == passes(e, include_hidden),
        follow_symlinks ==> yielded(e, follow_symlinks, include_hidden) == passes(
            e,
            include_hidden,
        ),
{
}

/// A drive is told by any letter of the alphabet, large or small, before a colon.
pub proof fn any_letter_names_a_drive(c: char, d: char, rest: Seq<char>)
    ensures
        'a' <= c <= 'z' || 'A' <= c <= 'Z' <==> drive_letter(seq![c, ':'] + rest),
        d != ':' ==> !drive_letter(seq![c, d] + rest),
        !drive_letter(seq![c]),
{
    assert((seq![c, ':'] + rest)[0] == c);
    assert((seq![c, ':'] + rest)[1] == ':');
    assert((seq![c, d] + rest)[1] == d);
}

} // verus!
