//! Strings and byte sequences: the few operations the rest of the crate is
//! written with, each with the sequence it computes.
use vstd::prelude::*;
use vstd::string::*;
use vstd::utf8::*;

verus! {

/// How many bytes a text takes in UTF-8.
pub open spec fn utf8_len(s: Seq<char>) -> nat {
    encode_utf8(s).len()
}

/// `String::push`: the character goes to the end, nothing else changes.
pub assume_specification[ String::push ](s: &mut String, c: char)
    ensures
        final(s)@ == old(s)@.push(c),
;

/// `char::from_u32`: the character with that number, where there is one.
pub assume_specification[ char::from_u32 ](i: u32) -> (r: Option<char>)
    ensures
        match r {
            Some(c) => c as u32 == i,
            None => !is_scalar(i),
        },
;

/// `str::from_utf8`: the text that the bytes write, where they are valid
/// UTF-8.
#[verifier::external_body]
pub(crate) fn utf8_text(bytes: &[u8]) -> (r: Option<String>)
    ensures
        match r {
            Some(s) => valid_utf8(bytes@) && s@ == decode_utf8(bytes@),
            None => !valid_utf8(bytes@),
        },
{
    std::str::from_utf8(bytes).ok().map(|s| s.to_string())
}

/// The text that bytes write, with replacement characters for what is not
/// valid UTF-8 in them.
pub uninterp spec fn lossy_text(bytes: Seq<u8>) -> Seq<char>;

/// `String::from_utf8_lossy`: its text is a function of the bytes, and valid
/// UTF-8 is kept as it is.
#[verifier::external_body]
pub(crate) fn utf8_lossy(bytes: &[u8]) -> (s: String)
    ensures
        s@ == lossy_text(bytes@),
        valid_utf8(bytes@) ==> s@ == decode_utf8(bytes@),
{
    String::from_utf8_lossy(bytes).into_owned()
}

/// The length of a text in bytes.
pub fn byte_len(s: &str) -> (n: usize)
    ensures
        n == utf8_len(s@),
{
    s.as_bytes().len()
}

pub fn push_str(out: &mut String, s: &str)
    ensures
        final(out)@ == old(out)@ + s@,
{
    out.append(s);
}

/// The characters of a text, to be read by index.
pub fn chars_of(s: &str) -> (v: Vec<char>)
    ensures
        v@ == s@,
{
    let mut v: Vec<char> = Vec::new();
    for c in it: s.chars()
        invariant
            v@ == it.seq().subrange(0, it.index() as int),
            it.seq() == s@,
    {
        v.push(c);
    }
    v
}

/// The text made of `chars[from..to]`.
pub fn string_from(chars: &Vec<char>, from: usize, to: usize) -> (s: String)
    requires
        from <= to <= chars@.len(),
    ensures
        s@ == chars@.subrange(from as int, to as int),
{
    let mut s = String::new();
    let mut i: usize = from;
    while i < to
        invariant
            from <= i <= to <= chars@.len(),
            s@ == chars@.subrange(from as int, i as int),
        decreases to - i,
    {
        s.push(chars[i]);
        i += 1;
    }
    s
}

/// Whether two texts are the same text.
pub fn same(a: &str, b: &str) -> (r: bool)
    ensures
        r == (a@ == b@),
{
    let x = a.as_bytes();
    let y = b.as_bytes();
    proof {
        encode_utf8_decode_utf8(a@);
        encode_utf8_decode_utf8(b@);
    }
    if x.len() != y.len() {
        return false;
    }
    let mut i: usize = 0;
    while i < x.len()
        invariant
            i <= x@.len(),
            x@.len() == y@.len(),
            forall|k: int| 0 <= k < i ==> x@[k] == y@[k],
            x@ == encode_utf8(a@),
            y@ == encode_utf8(b@),
        decreases x@.len() - i,
    {
        if x[i] != y[i] {
            return false;
        }
        i += 1;
    }
    assert(x@ =~= y@);
    true
}

/// Unicode's White_Space property.
pub open spec fn is_white(c: char) -> bool {
    let u = c as u32;
    ||| 0x09 <= u <= 0x0d
    ||| u == 0x20
    ||| u == 0x85
    ||| u == 0xa0
    ||| u == 0x1680
    ||| 0x2000 <= u <= 0x200a
    ||| u == 0x2028
    ||| u == 0x2029
    ||| u == 0x202f
    ||| u == 0x205f
    ||| u == 0x3000
}

pub fn white(c: char) -> (r: bool)
    ensures
        r == is_white(c),
{
    let u: u32 = c as u32;
    (0x09 <= u && u <= 0x0d) || u == 0x20 || u == 0x85 || u == 0xa0 || u == 0x1680 || (0x2000 <= u
        && u <= 0x200a) || u == 0x2028 || u == 0x2029 || u == 0x202f || u == 0x205f || u == 0x3000
}

/// Nothing but white space.
pub open spec fn blank(s: Seq<char>) -> bool {
    forall|i: int| 0 <= i < s.len() ==> is_white(#[trigger] s[i])
}

pub fn is_blank(s: &str) -> (r: bool)
    ensures
        r == blank(s@),
{
    let v = chars_of(s);
    let mut i: usize = 0;
    while i < v.len()
        invariant
            i <= v@.len(),
            v@ == s@,
            forall|k: int| 0 <= k < i ==> is_white(#[trigger] v@[k]),
        decreases v@.len() - i,
    {
        if !white(v[i]) {
            assert(!is_white(s@[i as int]));
            return false;
        }
        i += 1;
    }
    true
}

/// Unicode's control characters, category Cc.
pub open spec fn is_control(c: char) -> bool {
    let u = c as u32;
    u < 0x20 || 0x7f <= u < 0xa0
}

pub fn control(c: char) -> (r: bool)
    ensures
        r == is_control(c),
{
    let u: u32 = c as u32;
    u < 0x20 || (0x7f <= u && u < 0xa0)
}

/// Where the first character that is no white space stands; the length where
/// there is none.
pub open spec fn first_dark(s: Seq<char>) -> int
    decreases s.len(),
{
    if s.len() == 0 || !is_white(s[0]) {
        0
    } else {
        1 + first_dark(s.skip(1))
    }
}

/// Where the white space at the end begins.
pub open spec fn last_dark(s: Seq<char>) -> int
    decreases s.len(),
{
    if s.len() == 0 || !is_white(s.last()) {
        s.len() as int
    } else {
        last_dark(s.drop_last())
    }
}

/// The text without white space at either end.
pub open spec fn trim(s: Seq<char>) -> Seq<char> {
    let t = s.skip(first_dark(s));
    t.take(last_dark(t))
}

proof fn lemma_first_dark(s: Seq<char>, i: int)
    requires
        0 <= i <= s.len(),
        forall|k: int| 0 <= k < i ==> is_white(#[trigger] s[k]),
        i == s.len() || !is_white(s[i]),
    ensures
        first_dark(s) == i,
    decreases s.len(),
{
    if i > 0 {
        assert(is_white(s[0]));
        assert forall|k: int| 0 <= k < i - 1 implies is_white(#[trigger] s.skip(1)[k]) by {
            assert(s.skip(1)[k] == s[k + 1]);
        }
        lemma_first_dark(s.skip(1), i - 1);
    }
}

proof fn lemma_last_dark(s: Seq<char>, j: int)
    requires
        0 <= j <= s.len(),
        forall|k: int| j <= k < s.len() ==> is_white(#[trigger] s[k]),
        j == 0 || !is_white(s[j - 1]),
    ensures
        last_dark(s) == j,
    decreases s.len(),
{
    if j < s.len() {
        assert(is_white(s[s.len() - 1]));
        lemma_last_dark(s.drop_last(), j);
    }
}

/// [`trim`] of `v`, as characters.
pub fn trimmed(v: &Vec<char>) -> (r: Vec<char>)
    ensures
        r@ == trim(v@),
{
    let mut i: usize = 0;
    while i < v.len() && white(v[i])
        invariant
            i <= v@.len(),
            forall|k: int| 0 <= k < i ==> is_white(#[trigger] v@[k]),
        decreases v@.len() - i,
    {
        i += 1;
    }
    proof {
        lemma_first_dark(v@, i as int);
    }
    let mut j: usize = v.len();
    while j > i && white(v[j - 1])
        invariant
            i <= j <= v@.len(),
            forall|k: int| j <= k < v@.len() ==> is_white(#[trigger] v@[k]),
        decreases j,
    {
        j -= 1;
    }
    proof {
        let t = v@.skip(i as int);
        assert forall|k: int| j - i <= k < t.len() implies is_white(#[trigger] t[k]) by {
            assert(t[k] == v@[k + i]);
        }
        lemma_last_dark(t, j - i);
    }
    let mut r: Vec<char> = Vec::new();
    let mut k: usize = i;
    while k < j
        invariant
            i <= k <= j <= v@.len(),
            r@ == v@.subrange(i as int, k as int),
        decreases j - k,
    {
        r.push(v[k]);
        k += 1;
    }
    assert(r@ =~= trim(v@));
    r
}

/// What a digit stands for in `radix`.
pub open spec fn digit(c: char, radix: int) -> Option<int> {
    let u = c as u32 as int;
    let v = if 48 <= u <= 57 {
        u - 48
    } else if 97 <= u <= 122 {
        u - 87
    } else if 65 <= u <= 90 {
        u - 55
    } else {
        radix
    };
    if v < radix {
        Some(v)
    } else {
        None
    }
}

pub fn digit_of(c: char, radix: u64) -> (r: Option<u64>)
    requires
        2 <= radix <= 16,
    ensures
        match r {
            Some(v) => digit(c, radix as int) == Some(v as int) && v < radix,
            None => digit(c, radix as int) is None,
        },
{
    let u: u64 = c as u32 as u64;
    let v: u64 = if 48 <= u && u <= 57 {
        u - 48
    } else if 97 <= u && u <= 122 {
        u - 87
    } else if 65 <= u && u <= 90 {
        u - 55
    } else {
        radix
    };
    if v < radix {
        Some(v)
    } else {
        None
    }
}

pub open spec fn all_digits(s: Seq<char>, radix: int) -> bool {
    forall|i: int| 0 <= i < s.len() ==> digit(#[trigger] s[i], radix) is Some
}

/// The number a run of digits writes.
pub open spec fn number(s: Seq<char>, radix: int) -> int
    decreases s.len(),
{
    if s.len() == 0 {
        0
    } else {
        number(s.drop_last(), radix) * radix + digit(s.last(), radix)->Some_0
    }
}

/// The digits of an unsigned number: one leading `+` is allowed before them.
pub open spec fn unsigned_digits(s: Seq<char>) -> Seq<char> {
    if s.len() > 1 && s[0] == '+' {
        s.skip(1)
    } else {
        s
    }
}

/// An unsigned number no larger than `max`: at least one digit, nothing else
/// but the optional sign.
pub open spec fn parse_unsigned(s: Seq<char>, radix: int, max: int) -> Option<int> {
    let d = unsigned_digits(s);
    if d.len() > 0 && all_digits(d, radix) && number(d, radix) <= max {
        Some(number(d, radix))
    } else {
        None
    }
}

proof fn lemma_number_grows(s: Seq<char>, k: int, radix: int)
    requires
        0 <= k <= s.len(),
        radix >= 2,
        all_digits(s, radix),
    ensures
        0 <= number(s.take(k), radix) <= number(s, radix),
    decreases s.len(),
{
    if k == s.len() {
        assert(s.take(k) =~= s);
        if s.len() > 0 {
            lemma_number_grows(s.drop_last(), s.len() - 1, radix);
            assert(s.drop_last().take(s.len() - 1) =~= s.drop_last());
            assert(digit(s[s.len() - 1], radix) is Some);
            assert(number(s.drop_last(), radix) * radix >= 0) by (nonlinear_arith)
                requires
                    number(s.drop_last(), radix) >= 0,
                    radix >= 2,
            ;
        }
    } else {
        assert(s.drop_last().take(k) =~= s.take(k));
        lemma_number_grows(s.drop_last(), k, radix);
        assert(digit(s[s.len() - 1], radix) is Some);
        assert(number(s.drop_last(), radix) * radix >= number(s.drop_last(), radix))
            by (nonlinear_arith)
            requires
                number(s.drop_last(), radix) >= 0,
                radix >= 2,
        ;
    }
}

/// [`parse_unsigned`] of the characters from `from` on.
pub fn parse_chars(v: &Vec<char>, from: usize, radix: u64, max: u64) -> (r: Option<u64>)
    requires
        from <= v@.len(),
        radix == 10 || radix == 16,
    ensures
        match r {
            Some(n) => n <= max && parse_unsigned(v@.skip(from as int), radix as int, max as int)
                == Some(n as int),
            None => parse_unsigned(v@.skip(from as int), radix as int, max as int) is None,
        },
{
    let ghost s = v@.skip(from as int);
    let start: usize = if v.len() - from > 1 && v[from] == '+' {
        from + 1
    } else {
        from
    };
    let ghost d = unsigned_digits(s);
    assert(d =~= v@.skip(start as int));
    if start == v.len() {
        return None;
    }
    let mut acc: u64 = 0;
    let mut i: usize = start;
    while i < v.len()
        invariant
            start <= i <= v@.len(),
            d == v@.skip(start as int),
            radix == 10 || radix == 16,
            forall|k: int| 0 <= k < i - start ==> digit(#[trigger] d[k], radix as int) is Some,
            acc == number(d.take(i - start), radix as int),
            acc <= max,
            d == unsigned_digits(s),
            s == v@.skip(from as int),
        decreases v@.len() - i,
    {
        let got = digit_of(v[i], radix);
        assert(d[i - start] == v@[i as int]);
        match got {
            None => {
                return None;
            },
            Some(x) => {
                proof {
                    let t = d.take(i - start + 1);
                    assert(t.drop_last() =~= d.take(i - start));
                    assert(t.last() == d[i - start]);
                    assert(number(t, radix as int) == acc * radix + x);
                    if all_digits(d, radix as int) {
                        lemma_number_grows(d, i - start + 1, radix as int);
                    }
                }
                let wide: u128 = acc as u128 * radix as u128 + x as u128;
                if wide > max as u128 {
                    return None;
                }
                acc = wide as u64;
            },
        }
        i += 1;
    }
    assert(d.take(d.len() as int) =~= d);
    Some(acc)
}

/// The decimal digits of `n`.
pub open spec fn decimal(n: nat) -> Seq<char>
    decreases n,
{
    let c = (48 + n % 10) as u32 as char;
    if n < 10 {
        seq![c]
    } else {
        decimal(n / 10).push(c)
    }
}

/// The decimal digits of `n`, after a minus sign where it is negative.
pub open spec fn signed_decimal(n: int) -> Seq<char> {
    if n < 0 {
        seq!['-'] + decimal((-n) as nat)
    } else {
        decimal(n as nat)
    }
}

fn digit_char(d: u8) -> (c: char)
    requires
        d < 10,
    ensures
        c == (48 + d) as u32 as char,
{
    (48 + d) as char
}

pub fn push_decimal(out: &mut String, n: u64)
    ensures
        final(out)@ == old(out)@ + decimal(n as nat),
    decreases n,
{
    let c = digit_char((n % 10) as u8);
    if n >= 10 {
        push_decimal(out, n / 10);
        out.push(c);
        assert(out@ =~= old(out)@ + decimal(n as nat));
    } else {
        out.push(c);
        assert(out@ =~= old(out)@ + decimal(n as nat));
    }
}

pub fn decimal_string(n: u64) -> (s: String)
    ensures
        s@ == decimal(n as nat),
{
    let mut s = String::new();
    push_decimal(&mut s, n);
    assert(s@ =~= decimal(n as nat));
    s
}

/// The decimal digits of `n`, with a comma before every third digit from the
/// right.
pub open spec fn grouped(n: nat) -> Seq<char>
    decreases n,
{
    if n < 1000 {
        decimal(n)
    } else {
        grouped(n / 1000) + seq![
            ',',
            (48 + n / 100 % 10) as u32 as char,
            (48 + n / 10 % 10) as u32 as char,
            (48 + n % 10) as u32 as char,
        ]
    }
}

pub fn push_grouped(out: &mut String, n: u64)
    ensures
        final(out)@ == old(out)@ + grouped(n as nat),
    decreases n,
{
    if n >= 1000 {
        push_grouped(out, n / 1000);
        out.push(',');
        out.push(digit_char((n / 100 % 10) as u8));
        out.push(digit_char((n / 10 % 10) as u8));
        out.push(digit_char((n % 10) as u8));
        assert(out@ =~= old(out)@ + grouped(n as nat));
    } else {
        push_decimal(out, n);
    }
}

/// The text of `a` followed by that of `b`.
pub fn joined(a: &str, b: &str) -> (s: String)
    ensures
        s@ == a@ + b@,
{
    let mut s = a.to_owned();
    s.append(b);
    s
}

pub open spec fn is_prefix(p: Seq<char>, s: Seq<char>) -> bool {
    p.len() <= s.len() && s.take(p.len() as int) == p
}

pub open spec fn is_suffix(p: Seq<char>, s: Seq<char>) -> bool {
    p.len() <= s.len() && s.skip(s.len() - p.len()) == p
}

pub fn has_prefix(v: &Vec<char>, p: &Vec<char>) -> (r: bool)
    ensures
        r == is_prefix(p@, v@),
{
    if p.len() > v.len() {
        return false;
    }
    let mut i: usize = 0;
    while i < p.len()
        invariant
            i <= p@.len() <= v@.len(),
            forall|k: int| 0 <= k < i ==> v@[k] == p@[k],
        decreases p@.len() - i,
    {
        if v[i] != p[i] {
            assert(v@.take(p@.len() as int)[i as int] != p@[i as int]);
            return false;
        }
        i += 1;
    }
    assert(v@.take(p@.len() as int) =~= p@);
    true
}

pub fn has_suffix(v: &Vec<char>, p: &Vec<char>) -> (r: bool)
    ensures
        r == is_suffix(p@, v@),
{
    if p.len() > v.len() {
        return false;
    }
    let n: usize = v.len();
    let off: usize = n - p.len();
    let mut i: usize = 0;
    while i < p.len()
        invariant
            i <= p@.len() <= v@.len(),
            off == n - p@.len(),
            n == v@.len(),
            forall|k: int| 0 <= k < i ==> v@[k + off] == p@[k],
        decreases p@.len() - i,
    {
        if v[off + i] != p[i] {
            assert(v@.skip(off as int)[i as int] != p@[i as int]);
            return false;
        }
        i += 1;
    }
    assert(v@.skip(off as int) =~= p@);
    true
}

pub fn starts_with(s: &str, p: &str) -> (r: bool)
    ensures
        r == is_prefix(p@, s@),
{
    has_prefix(&chars_of(s), &chars_of(p))
}

pub fn ends_with(s: &str, p: &str) -> (r: bool)
    ensures
        r == is_suffix(p@, s@),
{
    has_suffix(&chars_of(s), &chars_of(p))
}

/// One character with the ASCII capitals lowered.
pub open spec fn lower_char(c: char) -> char {
    let u = c as u32;
    if 65 <= u <= 90 {
        (u + 32) as u32 as char
    } else {
        c
    }
}

/// A text with the ASCII capitals lowered.
pub open spec fn lower(s: Seq<char>) -> Seq<char> {
    s.map_values(|c: char| lower_char(c))
}

pub fn ascii_lowercase(s: &str) -> (r: String)
    ensures
        r@ == lower(s@),
{
    let v = chars_of(s);
    let mut r = String::new();
    let mut i: usize = 0;
    while i < v.len()
        invariant
            i <= v@.len(),
            r@ == lower(v@.take(i as int)),
        decreases v@.len() - i,
    {
        let u: u32 = v[i] as u32;
        let c = if 65 <= u && u <= 90 {
            (u as u8 + 32) as char
        } else {
            v[i]
        };
        r.push(c);
        assert(r@ =~= lower(v@.take(i + 1)));
        i += 1;
    }
    assert(v@.take(v@.len() as int) =~= v@);
    r
}

/// The texts of some strings.
pub open spec fn texts(v: Seq<String>) -> Seq<Seq<char>> {
    v.map_values(|s: String| s@)
}

/// The error text of a result, where there is one.
pub open spec fn err_view<T>(r: Result<T, String>) -> Result<T, Seq<char>> {
    match r {
        Ok(v) => Ok(v),
        Err(e) => Err(e@),
    }
}

/// The error text and the text of a result.
pub open spec fn text_view(r: Result<String, String>) -> Result<Seq<char>, Seq<char>> {
    match r {
        Ok(v) => Ok(v@),
        Err(e) => Err(e@),
    }
}

/// The optional text's characters.
pub open spec fn maybe(s: Option<String>) -> Option<Seq<char>> {
    match s {
        Some(t) => Some(t@),
        None => None,
    }
}

/// The optional text's characters.
pub open spec fn str_view(s: Option<&str>) -> Option<Seq<char>> {
    match s {
        Some(t) => Some(t@),
        None => None,
    }
}

/// Whether a text holds another.
pub open spec fn contains(s: Seq<char>, part: Seq<char>) -> bool {
    exists|i: int| occurs_at(s, part, i)
}

/// Whether a text holds another at a position.
pub open spec fn occurs_at(s: Seq<char>, part: Seq<char>, i: int) -> bool {
    0 <= i && i + part.len() <= s.len() && s.subrange(i, i + part.len()) == part
}

/// Whether `s` holds `part`.
pub fn holds(s: &str, part: &str) -> (r: bool)
    ensures
        r == contains(s@, part@),
{
    let v = chars_of(s);
    let p = chars_of(part);
    let n: usize = v.len();
    if p.len() > n {
        return false;
    }
    let mut i: usize = 0;
    while i <= n - p.len()
        invariant
            v@ == s@,
            p@ == part@,
            n == v@.len(),
            p@.len() <= v@.len(),
            i <= v@.len() - p@.len() + 1,
            forall|j: int| 0 <= j < i ==> !occurs_at(v@, p@, j),
        decreases v@.len() - p@.len() + 1 - i,
    {
        let mut k: usize = 0;
        while k < p.len() && v[i + k] == p[k]
            invariant
                n == v@.len(),
                i + p@.len() <= n,
                k <= p@.len(),
                forall|j: int| 0 <= j < k ==> v@[i + j] == p@[j],
            decreases p@.len() - k,
        {
            k += 1;
        }
        if k == p.len() {
            assert(v@.subrange(i as int, i + p@.len()) =~= p@);
            assert(occurs_at(v@, p@, i as int));
            return true;
        }
        assert(!occurs_at(v@, p@, i as int)) by {
            assert(v@.subrange(i as int, i + p@.len())[k as int] == v@[i + k]);
        }
        i += 1;
    }
    false
}

/// Whether a text sorts before another, character by character, a prefix
/// before what it begins.
pub open spec fn sorts_before(a: Seq<char>, b: Seq<char>) -> bool
    decreases b.len(),
{
    if b.len() == 0 {
        false
    } else if a.len() == 0 {
        true
    } else {
        a[0] < b[0] || (a[0] == b[0] && sorts_before(a.drop_first(), b.drop_first()))
    }
}

/// Whether `a` sorts before `b`.
pub fn before(a: &str, b: &str) -> (r: bool)
    ensures
        r == sorts_before(a@, b@),
{
    let x = chars_of(a);
    let y = chars_of(b);
    let mut i: usize = 0;
    assert(x@.skip(0) =~= x@);
    assert(y@.skip(0) =~= y@);
    while i < x.len() && i < y.len() && x[i] == y[i]
        invariant
            i <= x@.len(),
            i <= y@.len(),
            sorts_before(x@, y@) == sorts_before(x@.skip(i as int), y@.skip(i as int)),
        decreases x@.len() - i,
    {
        assert(x@.skip(i as int).drop_first() =~= x@.skip(i + 1));
        assert(y@.skip(i as int).drop_first() =~= y@.skip(i + 1));
        i += 1;
    }
    if i == y.len() {
        false
    } else if i == x.len() {
        true
    } else {
        x[i] < y[i]
    }
}

/// Texts in order, none sorting before the one it follows.
pub open spec fn text_le(a: Seq<char>, b: Seq<char>) -> bool {
    !sorts_before(b, a)
}

proof fn lemma_text_trichotomy(a: Seq<char>, b: Seq<char>)
    ensures
        sorts_before(a, b) || sorts_before(b, a) || a == b,
        !(sorts_before(a, b) && sorts_before(b, a)),
        !sorts_before(a, a),
    decreases a.len(),
{
    if a.len() > 0 && b.len() > 0 {
        lemma_text_trichotomy(a.drop_first(), b.drop_first());
        if a[0] == b[0] && a.drop_first() == b.drop_first() {
            assert(a =~= seq![a[0]] + a.drop_first());
            assert(b =~= seq![b[0]] + b.drop_first());
        }
    } else if a.len() > 0 {
        lemma_text_trichotomy(a.drop_first(), b);
    } else if b.len() == 0 {
        assert(a =~= b);
    }
}

proof fn lemma_text_transitive(a: Seq<char>, b: Seq<char>, c: Seq<char>)
    ensures
        sorts_before(a, b) && sorts_before(b, c) ==> sorts_before(a, c),
    decreases a.len(),
{
    if a.len() > 0 && b.len() > 0 && c.len() > 0 {
        lemma_text_transitive(a.drop_first(), b.drop_first(), c.drop_first());
    }
}

/// The order of texts is a total one.
pub proof fn texts_are_ordered()
    ensures
        vstd::relations::total_ordering(|a: Seq<char>, b: Seq<char>| text_le(a, b)),
{
    let le = |a: Seq<char>, b: Seq<char>| text_le(a, b);
    assert forall|x: Seq<char>| #[trigger] le(x, x) by {
        lemma_text_trichotomy(x, x);
    }
    assert forall|x: Seq<char>, y: Seq<char>| #[trigger] le(x, y) && #[trigger] le(y, x) implies x
        == y by {
        lemma_text_trichotomy(x, y);
    }
    assert forall|x: Seq<char>, y: Seq<char>| #[trigger] le(x, y) || #[trigger] le(y, x) by {
        lemma_text_trichotomy(x, y);
    }
    assert forall|x: Seq<char>, y: Seq<char>, z: Seq<char>| #[trigger]
        le(x, y) && #[trigger] le(y, z) implies le(x, z) by {
        lemma_text_trichotomy(x, y);
        lemma_text_trichotomy(y, z);
        lemma_text_trichotomy(x, z);
        lemma_text_transitive(x, y, z);
        lemma_text_transitive(z, x, y);
        lemma_text_transitive(y, z, x);
    }
}

/// The texts in order.
pub open spec fn sorted(v: Seq<Seq<char>>) -> Seq<Seq<char>> {
    v.sort_by(|a: Seq<char>, b: Seq<char>| text_le(a, b))
}

/// The order in which texts were listed does not show once they are sorted.
pub proof fn sorting_forgets_the_order(a: Seq<Seq<char>>, b: Seq<Seq<char>>)
    requires
        a.to_multiset() == b.to_multiset(),
    ensures
        sorted(a) == sorted(b),
{
    let le = |a: Seq<char>, b: Seq<char>| text_le(a, b);
    texts_are_ordered();
    a.lemma_sort_by_ensures(le);
    b.lemma_sort_by_ensures(le);
    vstd::seq_lib::lemma_sorted_unique(sorted(a), sorted(b), le);
}

/// A copy of the texts, in order.
pub fn sort_texts(v: &Vec<String>) -> (r: Vec<String>)
    ensures
        texts(r@) == sorted(texts(v@)),
{
    let ghost le = |a: Seq<char>, b: Seq<char>| text_le(a, b);
    let ghost all = texts(v@);
    let mut r: Vec<String> = Vec::new();
    let mut i: usize = 0;
    assert(texts(r@) =~= all.take(0));
    assert(vstd::relations::sorted_by(texts(r@), le));
    while i < v.len()
        invariant
            i <= v@.len(),
            all == texts(v@),
            le == (|a: Seq<char>, b: Seq<char>| text_le(a, b)),
            vstd::relations::sorted_by(texts(r@), le),
            texts(r@).to_multiset() == all.take(i as int).to_multiset(),
        decreases v@.len() - i,
    {
        let ghost done = texts(r@);
        let x = v[i].clone();
        let mut p: usize = 0;
        while p < r.len() && !before(x.as_str(), r[p].as_str())
            invariant
                p <= r@.len(),
                done == texts(r@),
                forall|j: int| 0 <= j < p ==> text_le(#[trigger] done[j], x@),
            decreases r@.len() - p,
        {
            assert(done[p as int] == r@[p as int]@);
            p += 1;
        }
        assert(p < done.len() ==> done[p as int] == r@[p as int]@);
        r.insert(p, x);
        proof {
            let next = texts(r@);
            assert(next =~= done.insert(p as int, x@));
            texts_are_ordered();
            assert forall|a: int, b: int| 0 <= a < b < next.len() implies #[trigger] le(
                next[a],
                next[b],
            ) by {
                let old_a = if a < p {
                    a
                } else {
                    a - 1
                };
                let old_b = if b < p {
                    b
                } else {
                    b - 1
                };
                if a != p && b != p {
                    assert(le(done[old_a], done[old_b]));
                } else if b == p {
                    assert(text_le(done[a], x@));
                } else {
                    lemma_text_trichotomy(x@, done[p as int]);
                    assert(le(x@, done[p as int]));
                    if old_b > p {
                        assert(le(done[p as int], done[old_b]));
                    }
                }
            }
            assert(all.take(i + 1) =~= all.take(i as int).push(x@));
            vstd::seq_lib::to_multiset_build(all.take(i as int), x@);
            next.to_multiset_ensures();
            assert(next.remove(p as int) =~= done);
            assert(next[p as int] == x@);
            assert(next.contains(x@));
            assert(next.to_multiset().count(x@) > 0);
            assert(next.to_multiset() =~= done.to_multiset().insert(x@));
        }
        i += 1;
    }
    proof {
        assert(all.take(all.len() as int) =~= all);
        texts_are_ordered();
        all.lemma_sort_by_ensures(le);
        vstd::seq_lib::lemma_sorted_unique(texts(r@), sorted(all), le);
    }
    r
}

/// A digit has the value it is read with: `0` to `9`, and in hexadecimal the
/// first six letters, of either case, after them.
pub proof fn a_digit_has_its_value(d: int, c: char)
    ensures
        0 <= d < 10 && c as u32 == 48 + d ==> digit(c, 10) == Some(d) && digit(c, 16) == Some(d),
        10 <= d < 16 && (c as u32 == 87 + d || c as u32 == 55 + d) ==> digit(c, 16) == Some(d)
            && digit(c, 10) is None,
        (c as u32) < 48 || (57 < c as u32 && (c as u32) < 65) || (70 < c as u32 && (c as u32) < 97)
            || c as u32 > 102 ==> digit(c, 16) is None && digit(c, 10) is None,
{
}

/// The digits of a number read back as the number, and begin with a zero only
/// where it is zero.
pub proof fn a_number_reads_back(n: nat)
    ensures
        decimal(n).len() > 0,
        all_digits(decimal(n), 10),
        number(decimal(n), 10) == n,
        decimal(n)[0] == '0' <==> n == 0,
        forall|i: int| 0 <= i < decimal(n).len() ==> 48 <= (#[trigger] decimal(n)[i]) as u32 <= 57,
    decreases n,
{
    let c = (48 + n % 10) as u32 as char;
    assert(c as u32 == 48 + n % 10);
    if n < 10 {
        assert(seq![c].drop_last() =~= seq![]);
        assert(number(seq![], 10) == 0);
        assert(number(seq![c], 10) == n);
    } else {
        a_number_reads_back(n / 10);
        let s = decimal(n / 10);
        assert(s.push(c).drop_last() =~= s);
        assert(decimal(n)[0] == s[0]);
        assert forall|i: int| 0 <= i < decimal(n).len() implies 48 <= (
        #[trigger] decimal(n)[i]) as u32 <= 57 by {
            if i < s.len() {
                assert(decimal(n)[i] == s[i]);
            }
        }
    }
}

/// Reading the digits of a number, with or without a plus sign before them, gives
/// the number where it is within the bound and nothing where it is not.
pub proof fn a_written_number_is_parsed(n: nat, max: int)
    ensures
        parse_unsigned(decimal(n), 10, max) == (if n <= max {
            Some(n as int)
        } else {
            None
        }),
        parse_unsigned(seq!['+'] + decimal(n), 10, max) == parse_unsigned(decimal(n), 10, max),
        parse_unsigned(seq![], 10, max) is None,
{
    a_number_reads_back(n);
    let d = decimal(n);
    assert(d[0] as u32 != 43);
    assert(unsigned_digits(d) == d);
    assert((seq!['+'] + d).skip(1) =~= d);
}

/// A negative number is its digits behind a minus sign.
pub proof fn a_sign_comes_first(n: nat)
    ensures
        signed_decimal(n as int) == decimal(n),
        n > 0 ==> signed_decimal(-(n as int)) == seq!['-'] + decimal(n),
{
}

/// Grouping a number puts a comma before its last three digits, which stand for
/// the rest by a thousand, and goes on with the thousands before it.
pub proof fn a_grouped_number_counts_thousands(n: nat)
    ensures
        n < 1000 ==> grouped(n) == decimal(n),
        n >= 1000 ==> {
            let g = grouped(n);
            let at = g.len() - 4;
            &&& at > 0
            &&& g.take(at) == grouped(n / 1000)
            &&& g[at] == ','
            &&& all_digits(g.skip(at + 1), 10)
            &&& number(g.skip(at + 1), 10) == n % 1000
        },
{
    if n >= 1000 {
        lemma_grouped_not_empty(n / 1000);
        let g = grouped(n);
        let at = g.len() - 4;
        let (x, y, z) = (n / 100 % 10, n / 10 % 10, n % 10);
        lemma_last_three(n);
        let (a, b, c) = (lemma_digit_char(x), lemma_digit_char(y), lemma_digit_char(z));
        let tail = seq![',', a, b, c];
        assert(g == grouped(n / 1000) + tail);
        lemma_three_digits(x, y, z, a, b, c);
        lemma_behind_comma(grouped(n / 1000), a, b, c);
    }
}

proof fn lemma_digit_char(x: nat) -> (c: char)
    requires
        x < 10,
    ensures
        c == (48 + x) as u32 as char,
        c as u32 == 48 + x,
{
    (48 + x) as u32 as char
}

proof fn lemma_last_three(n: nat)
    ensures
        n / 100 % 10 < 10,
        n / 10 % 10 < 10,
        n % 10 < 10,
        n % 1000 == 100 * (n / 100 % 10) + 10 * (n / 10 % 10) + n % 10,
{
    let q = n as int / 10;
    let p = q / 10;
    let w = p / 10;
    vstd::arithmetic::div_mod::lemma_div_denominator(n as int, 10, 10);
    let r = 100 * (p % 10) + 10 * (q % 10) + n as int % 10;
    lemma_ten(n as int);
    lemma_ten(q);
    lemma_ten(p);
    assert(n as int == w * 1000 + r);
    vstd::arithmetic::div_mod::lemma_fundamental_div_mod_converse(n as int, 1000, w, r);
}

proof fn lemma_ten(n: int)
    requires
        n >= 0,
    ensures
        n == 10 * (n / 10) + n % 10,
        0 <= n % 10 < 10,
{
}

proof fn lemma_behind_comma(front: Seq<char>, a: char, b: char, c: char)
    ensures
        ({
            let g = front + seq![',', a, b, c];
            &&& g.len() == front.len() + 4
            &&& g.take(front.len() as int) == front
            &&& g[front.len() as int] == ','
            &&& g.skip(front.len() as int + 1) == seq![a, b, c]
        }),
{
    let g = front + seq![',', a, b, c];
    assert(g.take(front.len() as int) =~= front);
    assert(g.skip(front.len() as int + 1) =~= seq![a, b, c]);
}

proof fn lemma_grouped_not_empty(n: nat)
    ensures
        grouped(n).len() > 0,
{
    a_number_reads_back(n);
}

proof fn lemma_three_digits(x: nat, y: nat, z: nat, a: char, b: char, c: char)
    requires
        x < 10,
        y < 10,
        z < 10,
        a as u32 == 48 + x,
        b as u32 == 48 + y,
        c as u32 == 48 + z,
    ensures
        all_digits(seq![a, b, c], 10),
        number(seq![a, b, c], 10) == 100 * x + 10 * y + z,
{
    assert(seq![a, b, c].drop_last() =~= seq![a, b]);
    assert(seq![a, b].drop_last() =~= seq![a]);
    assert(seq![a].drop_last() =~= seq![]);
    assert(number(seq![], 10) == 0);
    assert(number(seq![a], 10) == x);
    assert(number(seq![a, b], 10) == 10 * x + y);
}

/// Trimming takes the white space at both ends and nothing else: a text with dark
/// ends comes out of whatever white space is around it, and white space alone
/// leaves nothing.
pub proof fn trimming_takes_white_ends(a: Seq<char>, t: Seq<char>, b: Seq<char>)
    requires
        blank(a),
        blank(b),
        t.len() > 0 ==> !is_white(t[0]) && !is_white(t.last()),
    ensures
        trim(a + t + b) == t,
{
    let s = a + t + b;
    assert forall|k: int| 0 <= k < a.len() implies is_white(#[trigger] s[k]) by {
        assert(s[k] == a[k]);
    }
    if t.len() > 0 {
        assert(s[a.len() as int] == t[0]);
        lemma_first_dark(s, a.len() as int);
        let r = s.skip(a.len() as int);
        assert(r =~= t + b);
        assert forall|k: int| t.len() <= k < r.len() implies is_white(#[trigger] r[k]) by {
            assert(r[k] == b[k - t.len()]);
        }
        assert(r[t.len() - 1] == t.last());
        lemma_last_dark(r, t.len() as int);
        assert(r.take(t.len() as int) =~= t);
    } else {
        assert forall|k: int| 0 <= k < s.len() implies is_white(#[trigger] s[k]) by {
            if k >= a.len() {
                assert(s[k] == b[k - a.len()]);
            }
        }
        lemma_first_dark(s, s.len() as int);
        assert(trim(s) =~= t);
    }
}

/// Lowering changes the capitals of the alphabet into their small letters and no
/// other character, and lowering twice is lowering once.
pub proof fn lowering_touches_capitals_only(s: Seq<char>)
    ensures
        lower(s).len() == s.len(),
        forall|i: int|
            0 <= i < s.len() ==> (#[trigger] lower(s)[i]) as u32 == (if 65 <= s[i] as u32 <= 90 {
                s[i] as u32 + 32
            } else {
                s[i] as u32 as int
            }),
        lower(lower(s)) == lower(s),
{
    assert forall|i: int| 0 <= i < s.len() implies lower(lower(s))[i] == lower(s)[i] by {}
    assert(lower(lower(s)) =~= lower(s));
}

/// Texts are ordered by the first character in which they differ, and one that
/// another goes on from comes before it.
pub proof fn the_first_difference_orders(
    common: Seq<char>,
    x: char,
    y: char,
    a: Seq<char>,
    b: Seq<char>,
)
    ensures
        (x as u32) < (y as u32) ==> sorts_before(common.push(x) + a, common.push(y) + b),
        (x as u32) < (y as u32) ==> !sorts_before(common.push(y) + b, common.push(x) + a),
        sorts_before(common, common.push(x) + a),
        !sorts_before(common.push(x) + a, common),
        !sorts_before(common, common),
    decreases common.len(),
{
    let p = common.push(x) + a;
    let q = common.push(y) + b;
    if common.len() > 0 {
        let c = common.drop_first();
        the_first_difference_orders(c, x, y, a, b);
        assert(p.drop_first() =~= c.push(x) + a);
        assert(q.drop_first() =~= c.push(y) + b);
        assert(p[0] == common[0]);
        assert(q[0] == common[0]);
    } else {
        assert(p[0] == x);
        assert(q[0] == y);
    }
}

/// Sorting loses no text and makes none up, and no text comes before one that it
/// follows.
pub proof fn sorting_keeps_every_text(v: Seq<Seq<char>>)
    ensures
        sorted(v).to_multiset() == v.to_multiset(),
        sorted(v).len() == v.len(),
        forall|i: int, j: int|
            0 <= i < j < sorted(v).len() ==> !sorts_before(
                #[trigger] sorted(v)[j],
                #[trigger] sorted(v)[i],
            ),
{
    let le = |a: Seq<char>, b: Seq<char>| text_le(a, b);
    texts_are_ordered();
    v.lemma_sort_by_ensures(le);
    v.to_multiset_ensures();
    sorted(v).to_multiset_ensures();
    assert forall|i: int, j: int| 0 <= i < j < sorted(v).len() implies !sorts_before(
        #[trigger] sorted(v)[j],
        #[trigger] sorted(v)[i],
    ) by {
        assert(le(sorted(v)[i], sorted(v)[j]));
    }
}

/// A prefix is what a text goes on from, a suffix what it ends in, and a part what
/// stands somewhere between two others.
pub proof fn a_part_stands_between_two_others(a: Seq<char>, part: Seq<char>, b: Seq<char>)
    ensures
        is_prefix(part, part + b),
        is_suffix(part, a + part),
        contains(a + part + b, part),
        is_prefix(part, b) ==> b == part + b.skip(part.len() as int),
        is_suffix(part, b) ==> b == b.take(b.len() - part.len()) + part,
        contains(b, part) ==> exists|i: int|
            0 <= i <= b.len() && b == #[trigger] b.take(i) + part + b.skip(
                (i + part.len()) as int,
            ),
{
    assert((part + b).take(part.len() as int) =~= part);
    assert((a + part).skip(a.len() as int) =~= part);
    assert((a + part + b).subrange(a.len() as int, (a.len() + part.len()) as int) =~= part);
    assert(occurs_at(a + part + b, part, a.len() as int));
    if is_prefix(part, b) {
        assert(b =~= part + b.skip(part.len() as int));
    }
    if is_suffix(part, b) {
        assert(b =~= b.take(b.len() - part.len()) + part);
    }
    if contains(b, part) {
        let i = choose|i: int| occurs_at(b, part, i);
        assert(b =~= b.take(i) + part + b.skip((i + part.len()) as int));
    }
}

/// White space is these twenty-five characters: the six of ASCII, the two spaces of
/// Latin-1 beside them, and the spaces and separators beyond.
pub proof fn white_space_is_listed(c: char)
    ensures
        is_white(c) <==> seq![
            9u32,
            10,
            11,
            12,
            13,
            32,
            133,
            160,
            5760,
            8192,
            8193,
            8194,
            8195,
            8196,
            8197,
            8198,
            8199,
            8200,
            8201,
            8202,
            8232,
            8233,
            8239,
            8287,
            12288,
        ].contains(c as u32),
{
    let all = seq![
        9u32,
        10,
        11,
        12,
        13,
        32,
        133,
        160,
        5760,
        8192,
        8193,
        8194,
        8195,
        8196,
        8197,
        8198,
        8199,
        8200,
        8201,
        8202,
        8232,
        8233,
        8239,
        8287,
        12288,
    ];
    let u = c as u32;
    if is_white(c) {
        if u <= 13 {
            assert(all[u - 9] == u);
        } else if 8192 <= u <= 8202 {
            assert(all[u - 8192 + 9] == u);
        } else {
            assert(all[5] == 32 && all[6] == 133 && all[7] == 160 && all[8] == 5760);
            assert(all[20] == 8232 && all[21] == 8233 && all[22] == 8239 && all[23] == 8287
                && all[24] == 12288);
        }
    }
}

/// The control characters are the first thirty-two of ASCII, the same of the block
/// behind it, and the one that ends ASCII.
pub proof fn control_characters_are_two_blocks(c: char)
    ensures
        is_control(c) <==> (c as u32) == 127 || ((c as u32) < 160 && (c as u32) % 128 < 32),
{
}

} // verus!
