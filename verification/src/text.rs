//! Text as sequences of characters: trimming, splitting, joining, searching
//! and ordering, each stated over `Seq<char>` and proved against it.

use vstd::prelude::*;

verus! {

// ---------------------------------------------------------------------
// Models
// ---------------------------------------------------------------------

/// The characters of Unicode's `White_Space` property.
pub open spec fn is_space(c: char) -> bool {
    ||| '\u{9}' <= c <= '\u{d}'
    ||| c == '\u{20}'
    ||| c == '\u{85}'
    ||| c == '\u{a0}'
    ||| c == '\u{1680}'
    ||| '\u{2000}' <= c <= '\u{200a}'
    ||| c == '\u{2028}'
    ||| c == '\u{2029}'
    ||| c == '\u{202f}'
    ||| c == '\u{205f}'
    ||| c == '\u{3000}'
}

/// The control characters: general category `Cc`.
pub open spec fn is_control(c: char) -> bool {
    c <= '\u{1f}' || '\u{7f}' <= c <= '\u{9f}'
}

pub open spec fn is_digit(c: char) -> bool {
    '0' <= c <= '9'
}

pub open spec fn is_lower(c: char) -> bool {
    'a' <= c <= 'z'
}

pub open spec fn is_letter(c: char) -> bool {
    ('a' <= c <= 'z') || ('A' <= c <= 'Z')
}

/// A set of characters that text is trimmed of or split at.
#[derive(Clone, Copy, PartialEq, Eq, Structural)]
pub enum CharSet {
    /// White space.
    Space,
    /// Exactly one character.
    One(char),
    /// A carriage return or a line feed.
    LineEnd,
    /// A single or a double quote.
    Quote,
    /// Everything but the ten decimal digits.
    NonDigit,
    /// What separates the segments of a path.
    Slash,
    /// What separates the words of a name.
    WordBreak,
    /// What separates the words of a file name.
    StemBreak,
    /// Control characters.
    Control,
    /// White space and the characters that end a word of a shell command.
    ShellBreak,
}

impl CharSet {
    pub open spec fn has(self, c: char) -> bool {
        match self {
            CharSet::Space => is_space(c),
            CharSet::One(x) => c == x,
            CharSet::LineEnd => c == '\n' || c == '\r',
            CharSet::Quote => c == '\'' || c == '"',
            CharSet::NonDigit => !is_digit(c),
            CharSet::Slash => c == '/' || c == '\\',
            CharSet::WordBreak => c == '_' || c == ' ' || c == '-',
            CharSet::StemBreak => c == '_' || c == ' ' || c == '-' || c == '.',
            CharSet::Control => is_control(c),
            CharSet::ShellBreak => is_space(c) || c == '&' || c == '|' || c == ';' || c == '>' || c
                == '<' || c == '(' || c == ')',
        }
    }

    /// Whether the set holds `c`.
    pub fn contains(self, c: char) -> (r: bool)
        ensures
            r == self.has(c),
    {
        match self {
            CharSet::Space => space(c),
            CharSet::One(x) => c == x,
            CharSet::LineEnd => c == '\n' || c == '\r',
            CharSet::Quote => c == '\'' || c == '"',
            CharSet::NonDigit => !('0' <= c && c <= '9'),
            CharSet::Slash => c == '/' || c == '\\',
            CharSet::WordBreak => c == '_' || c == ' ' || c == '-',
            CharSet::StemBreak => c == '_' || c == ' ' || c == '-' || c == '.',
            CharSet::Control => control(c),
            CharSet::ShellBreak => space(c) || c == '&' || c == '|' || c == ';' || c == '>' || c
                == '<' || c == '(' || c == ')',
        }
    }
}

/// `s` without the leading characters that lie in `set`.
pub open spec fn trim_left(s: Seq<char>, set: CharSet) -> Seq<char>
    decreases s.len(),
{
    if s.len() > 0 && set.has(s[0]) {
        trim_left(s.skip(1), set)
    } else {
        s
    }
}

/// `s` without the trailing characters that lie in `set`.
pub open spec fn trim_right(s: Seq<char>, set: CharSet) -> Seq<char>
    decreases s.len(),
{
    if s.len() > 0 && set.has(s.last()) {
        trim_right(s.drop_last(), set)
    } else {
        s
    }
}

pub open spec fn trim_set(s: Seq<char>, set: CharSet) -> Seq<char> {
    trim_right(trim_left(s, set), set)
}

/// `s` without leading and trailing white space.
pub open spec fn trimmed(s: Seq<char>) -> Seq<char> {
    trim_set(s, CharSet::Space)
}

/// The pieces of `s` between the characters of `set`: one more than there
/// are such characters.
pub open spec fn pieces(s: Seq<char>, set: CharSet) -> Seq<Seq<char>>
    decreases s.len(),
{
    if s.len() == 0 {
        seq![Seq::<char>::empty()]
    } else {
        let before = pieces(s.drop_last(), set);
        if set.has(s.last()) {
            before.push(Seq::<char>::empty())
        } else {
            before.drop_last().push(before.last().push(s.last()))
        }
    }
}

/// `s` without one final carriage return, if it has one.
pub open spec fn without_cr(s: Seq<char>) -> Seq<char> {
    if s.len() > 0 && s.last() == '\r' {
        s.drop_last()
    } else {
        s
    }
}

/// The lines of `s`: ended by a line feed, or by a carriage return and a line
/// feed, the last end being optional.
pub open spec fn lines(s: Seq<char>) -> Seq<Seq<char>> {
    let all = pieces(s, CharSet::One('\n'));
    let ended = all.drop_last().map_values(|l: Seq<char>| without_cr(l));
    if all.last().len() == 0 {
        ended
    } else {
        ended.push(all.last())
    }
}

/// `parts` one after another with `sep` between neighbours.
pub open spec fn joined(parts: Seq<Seq<char>>, sep: Seq<char>) -> Seq<char>
    decreases parts.len(),
{
    if parts.len() == 0 {
        Seq::empty()
    } else if parts.len() == 1 {
        parts[0]
    } else {
        joined(parts.drop_last(), sep) + sep + parts.last()
    }
}

/// Each character of `set` in `s` replaced by `with`.
pub open spec fn replaced(s: Seq<char>, set: CharSet, with: Seq<char>) -> Seq<char>
    decreases s.len(),
{
    if s.len() == 0 {
        Seq::empty()
    } else {
        replaced(s.drop_last(), set, with) + (if set.has(s.last()) {
            with
        } else {
            seq![s.last()]
        })
    }
}

/// `pat` stands in `s` at index `i`.
pub open spec fn occurs_at(s: Seq<char>, pat: Seq<char>, i: int) -> bool {
    0 <= i && i + pat.len() <= s.len() && s.subrange(i, i + pat.len()) == pat
}

pub open spec fn has_text(s: Seq<char>, pat: Seq<char>) -> bool {
    exists|i: int| occurs_at(s, pat, i)
}

pub open spec fn begins(s: Seq<char>, pat: Seq<char>) -> bool {
    occurs_at(s, pat, 0)
}

pub open spec fn ends(s: Seq<char>, pat: Seq<char>) -> bool {
    occurs_at(s, pat, s.len() - pat.len())
}

pub open spec fn has_char(s: Seq<char>, set: CharSet) -> bool {
    exists|i: int| 0 <= i < s.len() && set.has(#[trigger] s[i])
}

/// The first index at or after `from` at which `pat` stands in `s`.
pub open spec fn find_from(s: Seq<char>, pat: Seq<char>, from: int) -> Option<int>
    decreases s.len() - from + 1,
{
    if from + pat.len() > s.len() {
        None
    } else if occurs_at(s, pat, from) {
        Some(from)
    } else {
        find_from(s, pat, from + 1)
    }
}

/// What stands before and after the first occurrence of `pat` in `s`.
pub open spec fn cut_at(s: Seq<char>, pat: Seq<char>) -> Option<(Seq<char>, Seq<char>)> {
    match find_from(s, pat, 0) {
        Some(i) => Some((s.take(i), s.skip(i + pat.len()))),
        None => None,
    }
}

/// `s` without as many leading copies of `pat` as it has.
pub open spec fn without_prefixes(s: Seq<char>, pat: Seq<char>) -> Seq<char>
    decreases s.len(),
{
    if pat.len() > 0 && begins(s, pat) {
        without_prefixes(s.skip(pat.len() as int), pat)
    } else {
        s
    }
}

/// The texts of a vector of strings.
pub open spec fn texts(v: Seq<String>) -> Seq<Seq<char>> {
    v.map_values(|s: String| s@)
}

/// The parts that are not empty, in order.
pub open spec fn filled(parts: Seq<Seq<char>>) -> Seq<Seq<char>> {
    parts.filter(|p: Seq<char>| p.len() > 0)
}

/// Lexicographic order by character code, a proper prefix first.
pub open spec fn before(a: Seq<char>, b: Seq<char>) -> bool
    decreases a.len(),
{
    if b.len() == 0 {
        false
    } else if a.len() == 0 {
        true
    } else if a[0] == b[0] {
        before(a.skip(1), b.skip(1))
    } else {
        a[0] < b[0]
    }
}

/// The text in an optional string.
pub open spec fn opt(s: Option<String>) -> Option<Seq<char>> {
    match s {
        Some(x) => Some(x@),
        None => None,
    }
}

/// The text in an optional string slice.
pub open spec fn opt_str(s: Option<&str>) -> Option<Seq<char>> {
    match s {
        Some(x) => Some(x@),
        None => None,
    }
}

/// ASCII capitals in lower case, every other character as it is.
pub open spec fn ascii_lower(s: Seq<char>) -> Seq<char> {
    s.map_values(
        |c: char|
            if 'A' <= c <= 'Z' {
                (c as u8 + 32) as char
            } else {
                c
            },
    )
}

// ---------------------------------------------------------------------
// Items of the standard library without a specification of their own
// ---------------------------------------------------------------------

/// `String::push` appends the character to the string.
pub assume_specification[ String::push ](s: &mut String, c: char)
    ensures
        final(s)@ == old(s)@.push(c),
;

/// What `str::to_lowercase` returns for a text.
pub uninterp spec fn lowercase(s: Seq<char>) -> Seq<char>;

/// `str::to_lowercase`: Unicode lower case, which is a function of the text
/// alone and which on ASCII maps the capitals and nothing else.
#[verifier::external_body]
pub(crate) fn to_lower(s: &str) -> (r: String)
    ensures
        r@ == lowercase(s@),
        vstd::utf8::is_ascii_chars(s@) ==> r@ == ascii_lower(s@),
{
    s.to_lowercase()
}

/// What `String::from_utf8_lossy` makes of bytes.
pub uninterp spec fn lossy(b: Seq<u8>) -> Seq<char>;

/// `String::from_utf8_lossy`, which is a function of the bytes alone: the text
/// that the bytes encode where they are valid, and otherwise the text with
/// replacement characters in place of what is not.
#[verifier::external_body]
pub(crate) fn from_lossy(b: &[u8]) -> (r: String)
    ensures
        r@ == lossy(b@),
        vstd::utf8::valid_utf8(b@) ==> r@ == vstd::utf8::decode_utf8(b@),
{
    String::from_utf8_lossy(b).into_owned()
}

/// What the `Debug` formatting of a text is: the text in double quotes, with
/// escapes.
pub uninterp spec fn debug_text(s: Seq<char>) -> Seq<char>;

/// `format!("{:?}")` on a `str`, which is a function of the text alone.
#[verifier::external_body]
pub(crate) fn debug(s: &str) -> (r: String)
    ensures
        r@ == debug_text(s@),
{
    format!("{:?}", s)
}

/// The `Debug` formatting of each text.
pub open spec fn debug_texts(parts: Seq<Seq<char>>) -> Seq<Seq<char>> {
    parts.map_values(|s: Seq<char>| debug_text(s))
}

/// The `Debug` formatting of a list of texts.
pub open spec fn debug_list_text(parts: Seq<Seq<char>>) -> Seq<char> {
    "["@ + joined(debug_texts(parts), ", "@) + "]"@
}

/// The `Debug` formatting of a list of texts.
pub fn debug_list(parts: &Vec<String>) -> (r: String)
    ensures
        r@ == debug_list_text(texts(parts@)),
{
    let mut quoted: Vec<String> = Vec::new();
    let mut i: usize = 0;
    while i < parts.len()
        invariant
            i <= parts.len(),
            texts(quoted@) == debug_texts(texts(parts@)).take(i as int),
        decreases parts.len() - i,
    {
        let ghost before = texts(quoted@);
        let ghost all = debug_texts(texts(parts@));
        let q = debug(parts[i].as_str());
        quoted.push(q);
        assert(texts(parts@)[i as int] == parts@[i as int]@);
        assert(texts(quoted@) =~= before.push(q@));
        assert(all.take(i as int).push(all[i as int]) =~= all.take(i + 1));
        i = i + 1;
    }
    assert(texts(quoted@) =~= debug_texts(texts(parts@)));
    Draft::of("[").put(join(&quoted, ", ").as_str()).put("]").text
}

// ---------------------------------------------------------------------
// Characters
// ---------------------------------------------------------------------

/// Whether `c` is white space.
pub fn space(c: char) -> (r: bool)
    ensures
        r == is_space(c),
{
    ('\u{9}' <= c && c <= '\u{d}') || c == '\u{20}' || c == '\u{85}' || c == '\u{a0}' || c
        == '\u{1680}' || ('\u{2000}' <= c && c <= '\u{200a}') || c == '\u{2028}' || c == '\u{2029}'
        || c == '\u{202f}' || c == '\u{205f}' || c == '\u{3000}'
}

/// Whether `c` is a control character.
pub fn control(c: char) -> (r: bool)
    ensures
        r == is_control(c),
{
    c <= '\u{1f}' || ('\u{7f}' <= c && c <= '\u{9f}')
}

/// The characters of `s`.
pub fn chars_of(s: &str) -> (r: Vec<char>)
    ensures
        r@ == s@,
{
    let n: usize = s.unicode_len();
    let mut r: Vec<char> = Vec::new();
    let mut it = s.chars();
    let mut i: usize = 0;
    while i < n
        invariant
            n == s@.len(),
            i <= n,
            r@ == s@.take(i as int),
            vstd::std_specs::iter::IteratorSpec::remaining(&it) == s@.skip(i as int),
        decreases n - i,
    {
        match it.next() {
            Some(c) => {
                r.push(c);
            },
            None => {},
        }
        i = i + 1;
    }
    r
}

/// The string made of `cs`.
pub fn string_of(cs: &Vec<char>) -> (r: String)
    ensures
        r@ == cs@,
{
    let mut r: String = String::new();
    let mut i: usize = 0;
    while i < cs.len()
        invariant
            i <= cs.len(),
            r@ == cs@.take(i as int),
        decreases cs.len() - i,
    {
        r.push(cs[i]);
        assert(cs@.take(i + 1) == cs@.take(i as int).push(cs@[i as int]));
        i = i + 1;
    }
    assert(cs@.take(cs.len() as int) == cs@);
    r
}

/// A string with the text of `s`.
pub fn owned(s: &str) -> (r: String)
    ensures
        r@ == s@,
{
    let mut r: String = String::new();
    r.append(s);
    assert(Seq::<char>::empty() + s@ == s@);
    r
}

/// A copy of a vector of strings.
pub fn copied(v: &Vec<String>) -> (r: Vec<String>)
    ensures
        texts(r@) == texts(v@),
        r@ == v@,
{
    let mut r: Vec<String> = Vec::new();
    let mut i: usize = 0;
    while i < v.len()
        invariant
            i <= v.len(),
            r@ == v@.take(i as int),
        decreases v.len() - i,
    {
        r.push(v[i].clone());
        assert(v@.take(i + 1) == v@.take(i as int).push(v@[i as int]));
        i = i + 1;
    }
    assert(v@.take(v.len() as int) == v@);
    r
}

/// A text under construction.
#[derive(Debug)]
pub struct Draft {
    pub text: String,
}

impl Draft {
    /// A draft that holds `s`.
    pub fn of(s: &str) -> (r: Draft)
        ensures
            r.text@ == s@,
    {
        Draft { text: owned(s) }
    }

    /// The draft with `s` behind it.
    pub fn put(self, s: &str) -> (r: Draft)
        ensures
            r.text@ == self.text@ + s@,
    {
        let mut out: String = self.text;
        out.append(s);
        Draft { text: out }
    }
}

fn chars_occur(s: &Vec<char>, pat: &Vec<char>, from: usize) -> (r: bool)
    requires
        from <= s.len(),
    ensures
        r == occurs_at(s@, pat@, from as int),
{
    if s.len() - from < pat.len() {
        return false;
    }
    let mut k: usize = 0;
    while k < pat.len()
        invariant
            k <= pat.len(),
            from + pat.len() <= s.len(),
            forall|j: int| 0 <= j < k ==> s@[from + j] == pat@[j],
        decreases pat.len() - k,
    {
        if s[from + k] != pat[k] {
            assert(s@.subrange(from as int, from + pat.len())[k as int] != pat@[k as int]);
            return false;
        }
        k = k + 1;
    }
    assert(s@.subrange(from as int, from + pat.len()) =~= pat@);
    true
}

/// Whether both texts are the same.
pub fn same(a: &str, b: &str) -> (r: bool)
    ensures
        r == (a@ == b@),
{
    let x: Vec<char> = chars_of(a);
    let y: Vec<char> = chars_of(b);
    if x.len() != y.len() {
        return false;
    }
    let r: bool = chars_occur(&x, &y, 0);
    assert(x@.subrange(0, x.len() as int) =~= x@);
    r
}

/// Whether `s` starts with `pat`.
pub fn starts_with(s: &str, pat: &str) -> (r: bool)
    ensures
        r == begins(s@, pat@),
{
    chars_occur(&chars_of(s), &chars_of(pat), 0)
}

/// Whether `s` ends with `pat`.
pub fn ends_with(s: &str, pat: &str) -> (r: bool)
    ensures
        r == ends(s@, pat@),
{
    let x: Vec<char> = chars_of(s);
    let y: Vec<char> = chars_of(pat);
    if x.len() < y.len() {
        return false;
    }
    chars_occur(&x, &y, x.len() - y.len())
}

pub proof fn lemma_find_from(s: Seq<char>, pat: Seq<char>, from: int)
    requires
        0 <= from,
    ensures
        match find_from(s, pat, from) {
            Some(i) => from <= i && occurs_at(s, pat, i) && (forall|j: int|
                from <= j < i ==> !occurs_at(s, pat, j)),
            None => forall|j: int| from <= j ==> !occurs_at(s, pat, j),
        },
    decreases s.len() - from + 1,
{
    if from + pat.len() <= s.len() && !occurs_at(s, pat, from) {
        lemma_find_from(s, pat, from + 1);
    }
}

/// The index of the first occurrence of `pat` in `s`, in characters.
pub fn find(s: &str, pat: &str) -> (r: Option<usize>)
    ensures
        match r {
            Some(i) => find_from(s@, pat@, 0) == Some(i as int),
            None => find_from(s@, pat@, 0) is None,
        },
{
    let x: Vec<char> = chars_of(s);
    let y: Vec<char> = chars_of(pat);
    let mut i: usize = 0;
    while i < x.len() && y.len() <= x.len() - i
        invariant
            i <= x.len(),
            x@ == s@,
            y@ == pat@,
            find_from(s@, pat@, 0) == find_from(s@, pat@, i as int),
        decreases x.len() - i,
    {
        if chars_occur(&x, &y, i) {
            return Some(i);
        }
        i = i + 1;
    }
    if y.len() <= x.len() - i && chars_occur(&x, &y, i) {
        return Some(i);
    }
    assert(find_from(s@, pat@, i + 1) is None || i < x.len());
    None
}

/// Whether `pat` stands somewhere in `s`.
pub fn contains(s: &str, pat: &str) -> (r: bool)
    ensures
        r == has_text(s@, pat@),
{
    proof {
        lemma_find_from(s@, pat@, 0);
    }
    find(s, pat).is_some()
}

/// What stands before and after the first `pat` in `s`.
pub fn split_once<'a>(s: &'a str, pat: &str) -> (r: Option<(&'a str, &'a str)>)
    ensures
        match r {
            Some((a, b)) => cut_at(s@, pat@) == Some((a@, b@)),
            None => cut_at(s@, pat@) is None,
        },
{
    match find(s, pat) {
        Some(i) => {
            proof {
                lemma_find_from(s@, pat@, 0);
            }
            let n: usize = s.unicode_len();
            let k: usize = pat.unicode_len();
            let a: &'a str = s.substring_char(0, i);
            let b: &'a str = s.substring_char(i + k, n);
            assert(a@ =~= s@.take(i as int));
            assert(b@ =~= s@.skip(i + k));
            Some((a, b))
        },
        None => None,
    }
}

/// What follows `pat` in `s`, where `s` starts with it.
pub fn strip_prefix<'a>(s: &'a str, pat: &str) -> (r: Option<&'a str>)
    ensures
        match r {
            Some(rest) => begins(s@, pat@) && rest@ == s@.skip(pat@.len() as int),
            None => !begins(s@, pat@),
        },
{
    if starts_with(s, pat) {
        let rest: &'a str = s.substring_char(pat.unicode_len(), s.unicode_len());
        assert(rest@ =~= s@.skip(pat@.len() as int));
        Some(rest)
    } else {
        None
    }
}

/// Whether `s` has a character of `set`.
pub fn contains_char(s: &str, set: CharSet) -> (r: bool)
    ensures
        r == has_char(s@, set),
{
    let x: Vec<char> = chars_of(s);
    let mut i: usize = 0;
    while i < x.len()
        invariant
            i <= x.len(),
            x@ == s@,
            forall|j: int| 0 <= j < i ==> !set.has(#[trigger] s@[j]),
        decreases x.len() - i,
    {
        if set.contains(x[i]) {
            assert(set.has(s@[i as int]));
            return true;
        }
        i = i + 1;
    }
    false
}

/// `s` without its leading characters of `set`.
pub fn trim_start<'a>(s: &'a str, set: CharSet) -> (r: &'a str)
    ensures
        r@ == trim_left(s@, set),
{
    let x: Vec<char> = chars_of(s);
    let mut i: usize = 0;
    assert(s@.skip(0) =~= s@);
    while i < x.len() && set.contains(x[i])
        invariant
            i <= x.len(),
            x@ == s@,
            trim_left(s@, set) == trim_left(s@.skip(i as int), set),
        decreases x.len() - i,
    {
        assert(s@.skip(i as int).skip(1) =~= s@.skip(i + 1));
        assert(s@.skip(i as int)[0] == x@[i as int]);
        i = i + 1;
    }
    assert(i < x.len() ==> s@.skip(i as int)[0] == x@[i as int]);
    let r: &'a str = s.substring_char(i, x.len());
    assert(r@ =~= s@.skip(i as int));
    r
}

/// `s` without its trailing characters of `set`.
pub fn trim_end<'a>(s: &'a str, set: CharSet) -> (r: &'a str)
    ensures
        r@ == trim_right(s@, set),
{
    let x: Vec<char> = chars_of(s);
    let mut n: usize = x.len();
    assert(s@.take(n as int) =~= s@);
    while n > 0 && set.contains(x[n - 1])
        invariant
            n <= x.len(),
            x@ == s@,
            trim_right(s@, set) == trim_right(s@.take(n as int), set),
        decreases n,
    {
        assert(s@.take(n as int).drop_last() =~= s@.take(n - 1));
        n = n - 1;
    }
    let r: &'a str = s.substring_char(0, n);
    assert(r@ =~= s@.take(n as int));
    r
}

pub fn trim_matches<'a>(s: &'a str, set: CharSet) -> (r: &'a str)
    ensures
        r@ == trim_set(s@, set),
{
    trim_end(trim_start(s, set), set)
}

/// `s` without the white space around it.
pub fn trim<'a>(s: &'a str) -> (r: &'a str)
    ensures
        r@ == trimmed(s@),
{
    trim_matches(s, CharSet::Space)
}

/// `s` without as many leading copies of `pat` as it has.
pub fn trim_start_text<'a>(s: &'a str, pat: &str) -> (r: &'a str)
    requires
        pat@.len() > 0,
    ensures
        r@ == without_prefixes(s@, pat@),
{
    let x: Vec<char> = chars_of(s);
    let y: Vec<char> = chars_of(pat);
    let mut i: usize = 0;
    assert(s@.skip(0) =~= s@);
    loop
        invariant
            i <= x.len(),
            x@ == s@,
            y@ == pat@,
            pat@.len() > 0,
            without_prefixes(s@, pat@) == without_prefixes(s@.skip(i as int), pat@),
        ensures
            i <= x.len(),
            without_prefixes(s@, pat@) == s@.skip(i as int),
        decreases x.len() - i,
    {
        let hit: bool = chars_occur(&x, &y, i);
        proof {
            if i + pat@.len() <= s@.len() {
                assert(s@.skip(i as int).subrange(0, pat@.len() as int) =~= s@.subrange(
                    i as int,
                    i + pat@.len(),
                ));
            }
        }
        if !hit {
            break;
        }
        assert(s@.skip(i as int).skip(pat@.len() as int) =~= s@.skip(i + pat@.len()));
        i = i + y.len();
    }
    let r: &'a str = s.substring_char(i, x.len());
    assert(r@ =~= s@.skip(i as int));
    r
}

/// The pieces of `s` between the characters of `set`.
pub fn split(s: &str, set: CharSet) -> (r: Vec<String>)
    ensures
        texts(r@) == pieces(s@, set),
{
    let x: Vec<char> = chars_of(s);
    let mut done: Vec<String> = Vec::new();
    let mut cur: String = String::new();
    let mut i: usize = 0;
    assert(texts(done@).push(cur@) =~= pieces(s@.take(0), set));
    while i < x.len()
        invariant
            i <= x.len(),
            x@ == s@,
            texts(done@).push(cur@) == pieces(s@.take(i as int), set),
        decreases x.len() - i,
    {
        let ghost was = texts(done@).push(cur@);
        assert(s@.take(i + 1).drop_last() =~= s@.take(i as int));
        assert(was.drop_last() =~= texts(done@));
        if set.contains(x[i]) {
            done.push(cur);
            cur = String::new();
            assert(texts(done@) =~= was);
        } else {
            cur.push(x[i]);
        }
        i = i + 1;
    }
    assert(s@.take(x.len() as int) =~= s@);
    let ghost was = texts(done@).push(cur@);
    done.push(cur);
    assert(texts(done@) =~= was);
    done
}

pub proof fn lemma_pieces_nonempty(s: Seq<char>, set: CharSet)
    ensures
        pieces(s, set).len() >= 1,
    decreases s.len(),
{
    if s.len() > 0 {
        lemma_pieces_nonempty(s.drop_last(), set);
    }
}

/// The lines of `s`.
pub fn lines_of(s: &str) -> (r: Vec<String>)
    ensures
        texts(r@) == lines(s@),
{
    let all: Vec<String> = split(s, CharSet::One('\n'));
    let ghost parts = pieces(s@, CharSet::One('\n'));
    proof {
        lemma_pieces_nonempty(s@, CharSet::One('\n'));
        assert(texts(all@).len() == all.len());
    }
    let last: usize = all.len() - 1;
    let mut r: Vec<String> = Vec::new();
    let mut i: usize = 0;
    let ghost ended = parts.drop_last().map_values(|l: Seq<char>| without_cr(l));
    while i < last
        invariant
            i <= last,
            last == all.len() - 1,
            texts(all@) == parts,
            ended == parts.drop_last().map_values(|l: Seq<char>| without_cr(l)),
            texts(r@) == ended.take(i as int),
        decreases last - i,
    {
        let ghost was = r@;
        assert(texts(all@)[i as int] == all@[i as int]@);
        let n: usize = all[i].as_str().unicode_len();
        if n > 0 && all[i].as_str().get_char(n - 1) == '\r' {
            let cut: &str = all[i].as_str().substring_char(0, n - 1);
            assert(cut@ =~= all@[i as int]@.drop_last());
            r.push(owned(cut));
        } else {
            r.push(all[i].clone());
        }
        assert(texts(r@) =~= texts(was).push(ended[i as int]));
        assert(ended.take(i + 1) =~= ended.take(i as int).push(ended[i as int]));
        i = i + 1;
    }
    assert(ended.take(last as int) =~= ended);
    assert(texts(all@)[last as int] == all@[last as int]@);
    if !all[last].as_str().is_empty() {
        let ghost was = r@;
        r.push(all[last].clone());
        assert(texts(r@) =~= texts(was).push(parts.last()));
    }
    r
}

/// `parts` with `sep` between neighbours.
pub fn join(parts: &Vec<String>, sep: &str) -> (r: String)
    ensures
        r@ == joined(texts(parts@), sep@),
{
    let mut r: String = String::new();
    let mut i: usize = 0;
    let ghost all = texts(parts@);
    while i < parts.len()
        invariant
            i <= parts.len(),
            all == texts(parts@),
            r@ == joined(all.take(i as int), sep@),
        decreases parts.len() - i,
    {
        assert(all.take(i + 1).drop_last() =~= all.take(i as int));
        assert(all[i as int] == parts@[i as int]@);
        if i > 0 {
            r.append(sep);
        }
        r.append(parts[i].as_str());
        assert(i == 0 ==> r@ =~= all[0]);
        i = i + 1;
    }
    assert(all.take(parts.len() as int) =~= all);
    r
}

/// `s` with each character of `set` replaced by `with`.
pub fn replace(s: &str, set: CharSet, with: &str) -> (r: String)
    ensures
        r@ == replaced(s@, set, with@),
{
    let x: Vec<char> = chars_of(s);
    let mut r: String = String::new();
    let mut i: usize = 0;
    while i < x.len()
        invariant
            i <= x.len(),
            x@ == s@,
            r@ == replaced(s@.take(i as int), set, with@),
        decreases x.len() - i,
    {
        assert(s@.take(i + 1).drop_last() =~= s@.take(i as int));
        if set.contains(x[i]) {
            r.append(with);
        } else {
            let ghost was = r@;
            r.push(x[i]);
            assert(r@ =~= was + seq![x@[i as int]]);
        }
        i = i + 1;
    }
    assert(s@.take(x.len() as int) =~= s@);
    r
}

/// The strings that are not empty, in order.
pub fn drop_empty(parts: Vec<String>) -> (r: Vec<String>)
    ensures
        texts(r@) == filled(texts(parts@)),
{
    let mut r: Vec<String> = Vec::new();
    let mut i: usize = 0;
    let ghost all = texts(parts@);
    let ghost keep = |p: Seq<char>| p.len() > 0;
    proof {
        reveal(Seq::filter);
    }
    assert(texts(r@) =~= all.take(0).filter(keep));
    while i < parts.len()
        invariant
            i <= parts.len(),
            all == texts(parts@),
            keep == (|p: Seq<char>| p.len() > 0),
            texts(r@) == all.take(i as int).filter(keep),
        decreases parts.len() - i,
    {
        proof {
            reveal(Seq::filter);
            assert(all.take(i + 1).drop_last() =~= all.take(i as int));
            assert(all[i as int] == parts@[i as int]@);
        }
        if !parts[i].as_str().is_empty() {
            let ghost was = r@;
            r.push(parts[i].clone());
            assert(texts(r@) =~= texts(was).push(parts@[i as int]@));
        }
        i = i + 1;
    }
    assert(all.take(parts.len() as int) =~= all);
    r
}

/// Whether one of the strings has the text of `s`.
pub fn member(v: &Vec<String>, s: &str) -> (r: bool)
    ensures
        r == texts(v@).contains(s@),
{
    let mut i: usize = 0;
    while i < v.len()
        invariant
            i <= v.len(),
            forall|j: int| 0 <= j < i ==> v@[j]@ != s@,
        decreases v.len() - i,
    {
        if same(v[i].as_str(), s) {
            assert(texts(v@)[i as int] == s@);
            return true;
        }
        i = i + 1;
    }
    assert forall|j: int| 0 <= j < texts(v@).len() implies texts(v@)[j] != s@ by {
        assert(texts(v@)[j] == v@[j]@);
    }
    false
}

/// Whether `a` comes strictly before `b`.
pub fn less(a: &str, b: &str) -> (r: bool)
    ensures
        r == before(a@, b@),
{
    let x: Vec<char> = chars_of(a);
    let y: Vec<char> = chars_of(b);
    let mut i: usize = 0;
    assert(a@.skip(0) =~= a@);
    assert(b@.skip(0) =~= b@);
    while i < x.len() && i < y.len()
        invariant
            i <= x.len(),
            i <= y.len(),
            x@ == a@,
            y@ == b@,
            before(a@, b@) == before(a@.skip(i as int), b@.skip(i as int)),
        decreases x.len() - i,
    {
        assert(a@.skip(i as int)[0] == a@[i as int]);
        assert(b@.skip(i as int)[0] == b@[i as int]);
        if x[i] != y[i] {
            return x[i] < y[i];
        }
        assert(a@.skip(i as int).skip(1) =~= a@.skip(i + 1));
        assert(b@.skip(i as int).skip(1) =~= b@.skip(i + 1));
        i = i + 1;
    }
    i < y.len()
}

/// The order is strict: nothing comes before itself, and of two texts at most
/// one comes before the other.
pub proof fn lemma_before_strict(a: Seq<char>, b: Seq<char>)
    ensures
        !before(a, a),
        !(before(a, b) && before(b, a)),
    decreases a.len(),
{
    if a.len() > 0 {
        lemma_before_strict(a.skip(1), b.skip(1));
    }
}

/// The order is total: of two different texts one comes before the other.
pub proof fn lemma_before_total(a: Seq<char>, b: Seq<char>)
    ensures
        a == b || before(a, b) || before(b, a),
    decreases a.len(),
{
    if a.len() > 0 && b.len() > 0 {
        lemma_before_total(a.skip(1), b.skip(1));
        if a[0] == b[0] && a.skip(1) == b.skip(1) {
            assert(a =~= seq![a[0]] + a.skip(1));
            assert(b =~= seq![b[0]] + b.skip(1));
        }
    } else if a.len() == 0 && b.len() == 0 {
        assert(a =~= b);
    }
}

/// The order is transitive.
pub proof fn lemma_before_transitive(a: Seq<char>, b: Seq<char>, c: Seq<char>)
    requires
        before(a, b),
        before(b, c),
    ensures
        before(a, c),
    decreases a.len(),
{
    if a.len() > 0 && a[0] == b[0] && b[0] == c[0] {
        lemma_before_transitive(a.skip(1), b.skip(1), c.skip(1));
    }
}

/// The lines one after another, each ended by a line feed.
pub open spec fn unlines(ls: Seq<Seq<char>>) -> Seq<char>
    decreases ls.len(),
{
    if ls.len() == 0 {
        Seq::empty()
    } else {
        unlines(ls.drop_last()) + ls.last().push('\n')
    }
}

/// The lines one after another, each ended by a line feed.
pub fn unlines_of(ls: &Vec<String>) -> (r: String)
    ensures
        r@ == unlines(texts(ls@)),
{
    let mut r: String = String::new();
    let mut i: usize = 0;
    let ghost all = texts(ls@);
    while i < ls.len()
        invariant
            i <= ls.len(),
            all == texts(ls@),
            r@ == unlines(all.take(i as int)),
        decreases ls.len() - i,
    {
        assert(all.take(i + 1).drop_last() =~= all.take(i as int));
        assert(all[i as int] == ls@[i as int]@);
        let ghost was = r@;
        r.append(ls[i].as_str());
        r.push('\n');
        assert(r@ =~= was + all[i as int].push('\n'));
        i = i + 1;
    }
    assert(all.take(ls.len() as int) =~= all);
    r
}

/// Moves the strings of `b` behind those of `a`.
pub fn extend(a: &mut Vec<String>, b: Vec<String>)
    ensures
        texts(final(a)@) == texts(old(a)@) + texts(b@),
{
    let mut b: Vec<String> = b;
    let ghost x = a@;
    let ghost y = b@;
    a.append(&mut b);
    assert(texts(a@) =~= texts(x) + texts(y));
}

/// The first `n` characters, or all where there are no more.
pub open spec fn first_chars(s: Seq<char>, n: nat) -> Seq<char> {
    if s.len() <= n {
        s
    } else {
        s.take(n as int)
    }
}

/// The first `n` characters, or all where there are no more.
pub fn head_chars<'a>(s: &'a str, n: usize) -> (r: &'a str)
    ensures
        r@ == first_chars(s@, n as nat),
{
    let len: usize = s.unicode_len();
    if len <= n {
        s
    } else {
        let r = s.substring_char(0, n);
        assert(r@ =~= s@.take(n as int));
        r
    }
}

/// `n` blanks.
pub open spec fn blanks(n: int) -> Seq<char> {
    Seq::new(
        (if n > 0 {
            n
        } else {
            0
        }) as nat,
        |i: int| ' ',
    )
}

/// `s` with blanks behind it, at least `n` characters wide.
pub open spec fn left_aligned(s: Seq<char>, n: int) -> Seq<char> {
    s + blanks(n - s.len())
}

/// `s` with blanks in front of it, at least `n` characters wide.
pub open spec fn right_aligned(s: Seq<char>, n: int) -> Seq<char> {
    blanks(n - s.len()) + s
}

fn make_blanks(n: usize) -> (r: String)
    ensures
        r@ == blanks(n as int),
{
    let mut r: String = String::new();
    let mut i: usize = 0;
    assert(r@ =~= blanks(0));
    while i < n
        invariant
            i <= n,
            r@ == blanks(i as int),
        decreases n - i,
    {
        r.push(' ');
        assert(r@ =~= blanks(i + 1));
        i = i + 1;
    }
    r
}

/// `s` with blanks behind it, at least `n` characters wide.
pub fn pad_right(s: &str, n: usize) -> (r: String)
    ensures
        r@ == left_aligned(s@, n as int),
{
    let len: usize = s.unicode_len();
    if len >= n {
        assert(s@ + blanks(n - s@.len()) =~= s@);
        owned(s)
    } else {
        Draft::of(s).put(make_blanks(n - len).as_str()).text
    }
}

/// `s` with blanks in front of it, at least `n` characters wide.
pub fn pad_left(s: &str, n: usize) -> (r: String)
    ensures
        r@ == right_aligned(s@, n as int),
{
    let len: usize = s.unicode_len();
    if len >= n {
        assert(blanks(n - s@.len()) + s@ =~= s@);
        owned(s)
    } else {
        Draft::of(make_blanks(n - len).as_str()).put(s).text
    }
}

// ---------------------------------------------------------------------
// Bytes
// ---------------------------------------------------------------------

/// The number of bytes that a text takes.
pub open spec fn byte_count(s: Seq<char>) -> nat {
    vstd::utf8::encode_utf8(s).len()
}

/// The number of bytes that a character takes.
pub fn width(c: char) -> (r: usize)
    ensures
        r == vstd::utf8::encode_scalar(c as u32).len(),
        1 <= r <= 4,
{
    let v: u32 = c as u32;
    if v <= 0x7F {
        1
    } else if v <= 0x7FF {
        2
    } else if v <= 0xFFFF {
        3
    } else {
        4
    }
}

pub proof fn lemma_byte_count_step(s: Seq<char>, k: int)
    requires
        0 <= k < s.len(),
    ensures
        byte_count(s.skip(k)) == vstd::utf8::encode_scalar(s[k] as u32).len() + byte_count(
            s.skip(k + 1),
        ),
{
    assert(s.skip(k).drop_first() =~= s.skip(k + 1));
    assert(s.skip(k)[0] == s[k]);
}

/// The number of characters that take the first `n` bytes; nothing where no
/// character ends there.
pub open spec fn byte_place(s: Seq<char>, n: nat) -> Option<nat>
    decreases s.len(),
{
    let w = vstd::utf8::encode_scalar(s[0] as u32).len();
    if n == 0 {
        Some(0)
    } else if s.len() == 0 || w > n {
        None
    } else {
        match byte_place(s.skip(1), (n - w) as nat) {
            Some(k) => Some(k + 1),
            None => None,
        }
    }
}

/// The number of characters that take the first `n` bytes.
pub fn find_byte(s: &str, n: usize) -> (r: Option<usize>)
    ensures
        match r {
            Some(k) => byte_place(s@, n as nat) == Some(k as nat) && k <= s@.len(),
            None => byte_place(s@, n as nat) is None,
        },
{
    let x: Vec<char> = chars_of(s);
    let mut i: usize = 0;
    let mut left: usize = n;
    assert(s@.skip(0) =~= s@);
    while left > 0
        invariant
            i <= x.len(),
            left <= n,
            x@ == s@,
            byte_place(s@, n as nat) == (match byte_place(s@.skip(i as int), left as nat) {
                Some(k) => Some((i + k) as nat),
                None => None,
            }),
        decreases left,
    {
        if i == x.len() {
            return None;
        }
        let w: usize = width(x[i]);
        assert(s@.skip(i as int)[0] == x@[i as int]);
        if w > left {
            return None;
        }
        assert(s@.skip(i as int).skip(1) =~= s@.skip(i + 1));
        left = left - w;
        i = i + 1;
    }
    Some(i)
}

/// Whether a text takes fewer than `n` bytes.
pub fn below_bytes(s: &str, n: usize) -> (r: bool)
    ensures
        r == (byte_count(s@) < n),
{
    let x: Vec<char> = chars_of(s);
    let mut i: usize = 0;
    let mut left: usize = n;
    assert(s@.skip(0) =~= s@);
    while i < x.len()
        invariant
            i <= x.len(),
            left <= n,
            x@ == s@,
            byte_count(s@) == n - left + byte_count(s@.skip(i as int)),
        decreases x.len() - i,
    {
        let w: usize = width(x[i]);
        proof {
            lemma_byte_count_step(s@, i as int);
        }
        if w >= left {
            return false;
        }
        left = left - w;
        i = i + 1;
    }
    assert(s@.skip(i as int) =~= Seq::empty());
    left > 0
}

proof fn lemma_byte_count_split(s: Seq<char>, k: int)
    requires
        0 <= k <= s.len(),
    ensures
        byte_count(s) == byte_count(s.take(k)) + byte_count(s.skip(k)),
    decreases k,
{
    if k == 0 {
        assert(s.skip(0) =~= s);
        assert(s.take(0) =~= Seq::empty());
    } else {
        let rest = s.drop_first();
        lemma_byte_count_split(rest, k - 1);
        assert(s.take(k).drop_first() =~= rest.take(k - 1));
        assert(s.take(k)[0] == s[0]);
        assert(rest.skip(k - 1) =~= s.skip(k));
    }
}

/// The number of bytes that the first `k` characters take.
pub fn bytes_before(s: &str, k: usize) -> (r: usize)
    requires
        k <= s@.len(),
    ensures
        r == byte_count(s@.take(k as int)),
{
    let total: usize = s.as_bytes().len();
    let x: Vec<char> = chars_of(s);
    let mut i: usize = 0;
    let mut sum: usize = 0;
    assert(s@.skip(0) =~= s@);
    while i < k
        invariant
            i <= k,
            k <= x.len(),
            x@ == s@,
            total == byte_count(s@),
            sum + byte_count(s@.skip(i as int)) == total,
        decreases k - i,
    {
        proof {
            lemma_byte_count_step(s@, i as int);
        }
        sum = sum + width(x[i]);
        i = i + 1;
    }
    proof {
        lemma_byte_count_split(s@, k as int);
    }
    sum
}

// ---------------------------------------------------------------------
// Laws of texts
// ---------------------------------------------------------------------

proof fn lemma_trim_left(s: Seq<char>, set: CharSet)
    ensures
        ({
            let t = trim_left(s, set);
            let n = s.len() - t.len();
            &&& 0 <= n <= s.len()
            &&& t == s.skip(n)
            &&& forall|k: int| 0 <= k < n ==> set.has(#[trigger] s[k])
            &&& t.len() > 0 ==> !set.has(t[0])
        }),
    decreases s.len(),
{
    if s.len() > 0 && set.has(s[0]) {
        let rest = s.skip(1);
        lemma_trim_left(rest, set);
        let t = trim_left(s, set);
        let n = s.len() - t.len();
        assert(rest.skip(n - 1) =~= s.skip(n));
        assert forall|k: int| 0 <= k < n implies set.has(#[trigger] s[k]) by {
            if k > 0 {
                assert(rest[k - 1] == s[k]);
            }
        }
    } else {
        assert(s.skip(0) =~= s);
    }
}

proof fn lemma_trim_right(s: Seq<char>, set: CharSet)
    ensures
        ({
            let t = trim_right(s, set);
            &&& t.len() <= s.len()
            &&& t == s.take(t.len() as int)
            &&& forall|k: int| t.len() <= k < s.len() ==> set.has(#[trigger] s[k])
            &&& t.len() > 0 ==> !set.has(t.last())
        }),
    decreases s.len(),
{
    if s.len() > 0 && set.has(s.last()) {
        let front = s.drop_last();
        lemma_trim_right(front, set);
        let t = trim_right(s, set);
        assert(front.take(t.len() as int) =~= s.take(t.len() as int));
        assert forall|k: int| t.len() <= k < s.len() implies set.has(#[trigger] s[k]) by {
            if k < front.len() {
                assert(front[k] == s[k]);
            }
        }
    } else {
        assert(s.take(s.len() as int) =~= s);
    }
}

/// Trimming takes characters of the set, and nothing else, from both ends, and
/// leaves none of them there.
pub proof fn law_trimming(s: Seq<char>, set: CharSet)
    ensures
        exists|i: int, j: int|
            #![trigger s.subrange(i, j)]
            0 <= i <= j <= s.len() && trim_set(s, set) == s.subrange(i, j) && (forall|k: int|
                0 <= k < i || j <= k < s.len() ==> set.has(#[trigger] s[k])),
        trim_set(s, set).len() > 0 ==> !set.has(trim_set(s, set)[0]) && !set.has(
            trim_set(s, set).last(),
        ),
        trimmed(s) == trim_set(s, CharSet::Space),
{
    let a = trim_left(s, set);
    let t = trim_right(a, set);
    lemma_trim_left(s, set);
    lemma_trim_right(a, set);
    let i = s.len() - a.len();
    let j = i + t.len();
    assert(t =~= s.subrange(i, j));
    assert forall|k: int| 0 <= k < i || j <= k < s.len() implies set.has(#[trigger] s[k]) by {
        if k >= j {
            assert(a[k - i] == s[k]);
        }
    }
    if t.len() > 0 {
        assert(t[0] == a[0]);
    }
}

/// A text with nothing to trim at its ends stays as it is.
pub proof fn law_trimmed_stays(s: Seq<char>)
    requires
        s.len() > 0 ==> !is_space(s[0]) && !is_space(s.last()),
    ensures
        trimmed(s) == s,
{
}

/// A text consists of its pieces: with any character `x` between them they are
/// the text with `x` in place of each character of the set.
pub proof fn law_pieces(s: Seq<char>, set: CharSet, x: char)
    ensures
        joined(pieces(s, set), seq![x]) == s.map_values(
            |c: char|
                if set.has(c) {
                    x
                } else {
                    c
                },
        ),
        forall|i: int|
            0 <= i < pieces(s, set).len() ==> !has_char(#[trigger] pieces(s, set)[i], set),
    decreases s.len(),
{
    let f = |c: char|
        if set.has(c) {
            x
        } else {
            c
        };
    lemma_pieces_nonempty(s, set);
    if s.len() == 0 {
        assert(joined(pieces(s, set), seq![x]) =~= s.map_values(f));
    } else {
        let front = s.drop_last();
        law_pieces(front, set, x);
        lemma_pieces_nonempty(front, set);
        let p = pieces(front, set);
        let q = pieces(s, set);
        assert(s.map_values(f) =~= front.map_values(f).push(f(s.last())));
        if set.has(s.last()) {
            assert(q.drop_last() =~= p);
            assert(joined(q, seq![x]) =~= joined(p, seq![x]).push(x));
            assert forall|i: int| 0 <= i < q.len() implies !has_char(#[trigger] q[i], set) by {
                if i < p.len() {
                    assert(!has_char(p[i], set));
                }
            }
        } else {
            assert(q.drop_last() =~= p.drop_last());
            assert(q.last() == p.last().push(s.last()));
            if q.len() == 1 {
                assert(joined(q, seq![x]) =~= joined(p, seq![x]).push(s.last()));
            } else {
                assert(joined(q, seq![x]) =~= joined(p, seq![x]).push(s.last()));
            }
            assert forall|i: int| 0 <= i < q.len() implies !has_char(#[trigger] q[i], set) by {
                assert(!has_char(p[i], set));
                if i == p.len() - 1 {
                    assert forall|k: int| 0 <= k < q[i].len() implies !set.has(
                        #[trigger] q[i][k],
                    ) by {
                        if k < p[i].len() {
                            assert(!set.has(p[i][k]));
                        }
                    }
                }
            }
        }
        assert(joined(q, seq![x]) =~= s.map_values(f));
    }
}

/// The pieces between the occurrences of one character, with that character
/// between them, are the text.
pub proof fn law_pieces_join_back(s: Seq<char>, c: char)
    ensures
        joined(pieces(s, CharSet::One(c)), seq![c]) == s,
{
    law_pieces(s, CharSet::One(c), c);
    assert(s.map_values(
        |d: char|
            if CharSet::One(c).has(d) {
                c
            } else {
                d
            },
    ) =~= s);
}

/// The lines of a text are its pieces between line feeds, without a last empty
/// one; a line may have lost the carriage return at its end and nothing else.
pub proof fn law_lines(s: Seq<char>)
    ensures
        ({
            let p = pieces(s, CharSet::One('\n'));
            let l = lines(s);
            &&& l.len() == (if s.len() == 0 || s.last() == '\n' {
                p.len() - 1
            } else {
                p.len() as int
            })
            &&& forall|i: int|
                0 <= i < l.len() ==> #[trigger] l[i] == p[i] || l[i].push('\r') == p[i]
            &&& forall|i: int|
                0 <= i < p.len() - 1 ==> (#[trigger] l[i]).len() == 0 || l[i].last() != '\r'
                    || l[i].push('\r') == p[i]
            &&& forall|i: int|
                #![trigger p[i]]
                0 <= i < p.len() - 1 && p[i].len() > 0 && p[i].last() == '\r' ==> l[i].push('\r')
                    == p[i]
        }),
{
    let p = pieces(s, CharSet::One('\n'));
    lemma_pieces_nonempty(s, CharSet::One('\n'));
    let l = lines(s);
    if s.len() > 0 {
        lemma_pieces_nonempty(s.drop_last(), CharSet::One('\n'));
    }
    assert forall|i: int| 0 <= i < l.len() implies #[trigger] l[i] == p[i] || l[i].push('\r')
        == p[i] by {
        if p[i].len() > 0 && p[i].last() == '\r' {
            assert(p[i].drop_last().push('\r') =~= p[i]);
        }
    }
    assert forall|i: int|
        #![trigger p[i]]
        0 <= i < p.len() - 1 && p[i].len() > 0 && p[i].last() == '\r' implies l[i].push('\r')
        == p[i] by {
        assert(p[i].drop_last().push('\r') =~= p[i]);
    }
}

/// Texts that are joined stand in order with one separator between neighbours.
pub proof fn law_joining(a: Seq<Seq<char>>, b: Seq<Seq<char>>, sep: Seq<char>)
    ensures
        a.len() == 0 ==> joined(a, sep).len() == 0,
        a.len() == 1 ==> joined(a, sep) == a[0],
        a.len() > 0 && b.len() > 0 ==> joined(a + b, sep) == joined(a, sep) + sep + joined(b, sep),
    decreases b.len(),
{
    if a.len() > 0 && b.len() > 0 {
        let c = a + b;
        assert(c.drop_last() =~= a + b.drop_last());
        assert(c.last() == b.last());
        if b.len() == 1 {
            assert(c.drop_last() =~= a);
            assert(b[0] == b.last());
        } else {
            law_joining(a, b.drop_last(), sep);
            assert(joined(c, sep) =~= joined(a, sep) + sep + joined(b, sep));
        }
    }
}

/// Replacing goes character by character: one of the set gives way to the text,
/// any other stays.
pub proof fn law_replacing(a: Seq<char>, b: Seq<char>, c: char, set: CharSet, with: Seq<char>)
    ensures
        replaced(a + b, set, with) == replaced(a, set, with) + replaced(b, set, with),
        replaced(seq![c], set, with) == (if set.has(c) {
            with
        } else {
            seq![c]
        }),
        !has_char(a, set) ==> replaced(a, set, with) == a,
    decreases b.len(), a.len(),
{
    let one = seq![c];
    assert(one.drop_last() =~= Seq::empty());
    assert(replaced(one.drop_last(), set, with) =~= Seq::empty());
    assert(replaced(one, set, with) =~= if set.has(c) {
        with
    } else {
        seq![c]
    });
    if b.len() == 0 {
        assert(a + b =~= a);
        assert(replaced(a, set, with) + replaced(b, set, with) =~= replaced(a, set, with));
    } else {
        law_replacing(a, b.drop_last(), c, set, with);
        assert((a + b).drop_last() =~= a + b.drop_last());
        assert((a + b).last() == b.last());
        assert(replaced(a + b, set, with) =~= replaced(a, set, with) + replaced(b, set, with));
    }
    if a.len() > 0 && b.len() == 0 {
        let front = a.drop_last();
        if !has_char(a, set) {
            assert(!set.has(a[a.len() - 1]));
            assert forall|i: int| 0 <= i < front.len() implies !set.has(#[trigger] front[i]) by {
                assert(!set.has(a[i]));
            }
        }
        law_replacing(front, Seq::empty(), c, set, with);
        assert(!has_char(a, set) ==> replaced(a, set, with) =~= a);
    } else if b.len() > 0 {
        law_replacing(a, Seq::empty(), c, set, with);
    } else {
        assert(replaced(a, set, with) =~= a);
    }
}

/// The first difference decides which of two texts comes before the other: the
/// smaller character, or the end of the text.
pub proof fn law_order_of_texts(a: Seq<char>, b: Seq<char>, k: int)
    requires
        0 <= k <= a.len(),
        k <= b.len(),
        a.take(k) == b.take(k),
        k < a.len() && k < b.len() ==> a[k] != b[k],
    ensures
        before(a, b) <==> k < b.len() && (k == a.len() || a[k] < b[k]),
    decreases k,
{
    if k > 0 {
        assert(a.take(k)[0] == a[0] && b.take(k)[0] == b[0]);
        assert(a.skip(1).take(k - 1) =~= a.take(k).skip(1));
        assert(b.skip(1).take(k - 1) =~= b.take(k).skip(1));
        law_order_of_texts(a.skip(1), b.skip(1), k - 1);
        assert(before(a, b) == before(a.skip(1), b.skip(1)));
        if k < a.len() && k < b.len() {
            assert(a.skip(1)[k - 1] == a[k] && b.skip(1)[k - 1] == b[k]);
        }
    }
}

/// A text is cut at the first place where the pattern stands, and only where it
/// stands somewhere.
pub proof fn law_cutting(s: Seq<char>, pat: Seq<char>)
    ensures
        match cut_at(s, pat) {
            Some((x, y)) => s == x + pat + y && forall|i: int|
                0 <= i < x.len() ==> !#[trigger] occurs_at(s, pat, i),
            None => forall|i: int| !#[trigger] occurs_at(s, pat, i),
        },
{
    lemma_find_from(s, pat, 0);
    match find_from(s, pat, 0) {
        Some(i) => {
            assert(s =~= s.take(i) + pat + s.skip(i + pat.len())) by {
                assert(s.subrange(i, i + pat.len()) == pat);
                assert forall|k: int| i <= k < i + pat.len() implies s[k] == pat[k - i] by {
                    assert(s.subrange(i, i + pat.len())[k - i] == s[k]);
                }
            }
        },
        None => {},
    }
}

/// What is left when leading copies are taken off does not begin with one, and
/// what was taken off consists of copies.
pub proof fn law_prefixes_are_taken_off(s: Seq<char>, pat: Seq<char>)
    requires
        pat.len() > 0,
    ensures
        ({
            let r = without_prefixes(s, pat);
            let n = s.len() - r.len();
            &&& 0 <= n
            &&& r == s.skip(n)
            &&& !begins(r, pat)
            &&& !begins(s, pat) ==> r == s
            &&& begins(s, pat) ==> r == without_prefixes(s.skip(pat.len() as int), pat)
        }),
    decreases s.len(),
{
    if begins(s, pat) {
        let rest = s.skip(pat.len() as int);
        law_prefixes_are_taken_off(rest, pat);
        let r = without_prefixes(s, pat);
        assert(rest.skip(rest.len() - r.len()) =~= s.skip(s.len() - r.len()));
    } else {
        assert(s.skip(0) =~= s);
    }
}

/// The beginning of a text is cut to so many characters and no shorter.
pub proof fn law_first_chars(s: Seq<char>, n: nat)
    ensures
        first_chars(s, n).len() <= n,
        first_chars(s, n) == s.take(first_chars(s, n).len() as int),
        first_chars(s, n).len() < n ==> first_chars(s, n) == s,
{
    assert(s.take(s.len() as int) =~= s);
}

/// A text that is aligned is wide enough, and only blanks were added.
pub proof fn law_alignment(s: Seq<char>, n: int)
    ensures
        left_aligned(s, n).len() == (if n > s.len() {
            n
        } else {
            s.len() as int
        }),
        right_aligned(s, n).len() == left_aligned(s, n).len(),
        left_aligned(s, n).take(s.len() as int) == s,
        right_aligned(s, n).skip(right_aligned(s, n).len() - s.len()) == s,
        forall|i: int|
            s.len() <= i < left_aligned(s, n).len() ==> #[trigger] left_aligned(s, n)[i] == ' ',
        forall|i: int|
            0 <= i < right_aligned(s, n).len() - s.len() ==> #[trigger] right_aligned(s, n)[i]
                == ' ',
{
    assert(left_aligned(s, n).take(s.len() as int) =~= s);
    assert(right_aligned(s, n).skip(right_aligned(s, n).len() - s.len()) =~= s);
}

/// Lines that are written out stand one behind the other, each with a line feed
/// at its end.
pub proof fn law_unlines(a: Seq<Seq<char>>, b: Seq<Seq<char>>, l: Seq<char>)
    ensures
        unlines(a + b) == unlines(a) + unlines(b),
        unlines(seq![l]) == l.push('\n'),
        unlines(Seq::empty()) == Seq::<char>::empty(),
    decreases b.len(),
{
    let one = seq![l];
    assert(one.drop_last() =~= Seq::empty());
    assert(unlines(one.drop_last()) =~= Seq::empty());
    assert(unlines(one) =~= l.push('\n'));
    if b.len() == 0 {
        assert(a + b =~= a);
        assert(unlines(a) + unlines(b) =~= unlines(a));
    } else {
        law_unlines(a, b.drop_last(), l);
        assert((a + b).drop_last() =~= a + b.drop_last());
        assert(unlines(a + b) =~= unlines(a) + unlines(b));
    }
}

/// Which characters separate: the blanks and the characters that end a word of
/// a shell command, both slashes of paths, and what stands between words.
pub proof fn law_separators(c: char)
    ensures
        CharSet::ShellBreak.has(c) <==> CharSet::Space.has(c) || seq![
            '&',
            '|',
            ';',
            '>',
            '<',
            '(',
            ')',
        ].contains(c),
        CharSet::Slash.has(c) <==> c == '/' || c == '\\',
        CharSet::Quote.has(c) <==> c == '"' || c == '\'',
        CharSet::LineEnd.has(c) <==> c == '\r' || c == '\n',
        CharSet::WordBreak.has(c) <==> c == '-' || c == '_' || c == ' ',
        CharSet::StemBreak.has(c) <==> CharSet::WordBreak.has(c) || c == '.',
        CharSet::NonDigit.has(c) <==> !('0' <= c <= '9'),
        CharSet::Space.has(' ') && CharSet::Space.has('\t') && CharSet::Space.has('\n')
            && CharSet::Space.has('\r'),
        CharSet::Space.has(c) ==> !('!' <= c <= '~'),
        c < '\u{20}' || c == '\u{7f}' ==> CharSet::Control.has(c),
        ' ' <= c <= '~' ==> !CharSet::Control.has(c),
{
    let l = seq!['&', '|', ';', '>', '<', '(', ')'];
    assert(l[0] == '&' && l[1] == '|' && l[2] == ';' && l[3] == '>' && l[4] == '<' && l[5] == '('
        && l[6] == ')');
}

/// The place of a number of bytes in a text is where the characters before it
/// take that many.
pub proof fn law_byte_place(s: Seq<char>, n: nat)
    ensures
        match byte_place(s, n) {
            Some(k) => k <= s.len() && byte_count(s.take(k as int)) == n,
            None => forall|k: int|
                0 <= k <= s.len() ==> byte_count(#[trigger] s.take(k)) != n,
        },
    decreases s.len(),
{
    assert(s.take(0) =~= Seq::empty());
    assert(byte_count(s.take(0)) == 0);
    if n > 0 && s.len() > 0 {
        let w = vstd::utf8::encode_scalar(s[0] as u32).len();
        if w <= n {
            law_byte_place(s.skip(1), (n - w) as nat);
        }
        assert forall|k: int| 0 < k <= s.len() implies byte_count(#[trigger] s.take(k)) == w
            + byte_count(s.skip(1).take(k - 1)) by {
            assert(s.take(k).drop_first() =~= s.skip(1).take(k - 1));
            assert(s.take(k)[0] == s[0]);
        }
        match byte_place(s, n) {
            Some(k) => {
                assert(byte_count(s.take(k as int)) == n);
            },
            None => {
                assert forall|k: int| 0 <= k <= s.len() implies byte_count(#[trigger] s.take(k))
                    != n by {
                    if k > 0 && w <= n {
                        assert(byte_count(s.skip(1).take(k - 1)) != n - w);
                    }
                }
            },
        }
    } else if n > 0 {
        assert forall|k: int| 0 <= k <= s.len() implies byte_count(#[trigger] s.take(k)) != n by {
            assert(k == 0);
        }
    }
}

/// The lower case of a text keeps its length, lowers each capital letter and
/// keeps every other character.
pub proof fn law_lower_case(s: Seq<char>, i: int)
    requires
        0 <= i < s.len(),
    ensures
        ascii_lower(s).len() == s.len(),
        s[i] == 'A' ==> ascii_lower(s)[i] == 'a',
        s[i] == 'Z' ==> ascii_lower(s)[i] == 'z',
        !('A' <= s[i] <= 'Z') ==> ascii_lower(s)[i] == s[i],
        'A' <= s[i] <= 'Z' ==> ascii_lower(s)[i] as u32 == s[i] as u32 + 32,
{
}

/// The lower-case letters and the capitals are the letters.
pub proof fn law_letters(c: char)
    ensures
        is_letter(c) <==> 'a' <= c <= 'z' || 'A' <= c <= 'Z',
        is_lower(c) ==> is_letter(c),
        !(is_digit(c) && is_letter(c)),
{
}

/// A list of texts that is printed for debugging has each of them, in order,
/// between brackets.
pub proof fn law_debug_lists(a: Seq<char>, b: Seq<char>)
    ensures
        debug_list_text(Seq::empty()) == "["@ + "]"@,
        debug_list_text(seq![a]) == "["@ + debug_text(a) + "]"@,
        debug_list_text(seq![a, b]) == "["@ + (debug_text(a) + ", "@ + debug_text(b)) + "]"@,
{
    let e = Seq::<Seq<char>>::empty();
    let x = seq![debug_text(a)];
    let y = seq![debug_text(b)];
    law_joining(e, e, ", "@);
    law_joining(x, y, ", "@);
    law_joining(y, x, ", "@);
    assert(debug_texts(e) =~= e);
    assert(debug_texts(seq![a]) =~= x);
    assert(debug_texts(seq![a, b]) =~= x + y);
    assert(joined(e, ", "@) =~= Seq::empty());
    assert("["@ + Seq::<char>::empty() =~= "["@);
}

} // verus!
