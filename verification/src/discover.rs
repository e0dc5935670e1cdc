//! Components as an agent proposes them, and the rules by which the harness
//! decides what of a proposal is usable.

use vstd::prelude::*;
use crate::checklist;
use crate::checklist::{tier_rank, Tier};
use crate::json;
use crate::json::JsonView;
use crate::number;
use crate::number::to_decimal;
use crate::roundtrip;
use crate::text;
use crate::text::{
    chars_of, contains_char, copied, debug, drop_empty, join, less, member, owned, replace, same, split,
    to_lower, trim, CharSet, Draft,
};

verus! {

/// Most components that one discovery may yield.
pub const MAX_COMPONENTS: usize = 40;

/// Fewest components that one discovery must yield.
pub const MIN_COMPONENTS: usize = 1;

pub open spec fn slug_char(c: char) -> bool {
    text::is_lower(c) || text::is_digit(c) || c == '-'
}

/// A valid slug: segments of lower-case letters and digits with single hyphens
/// between them, at most 64 characters long.
pub open spec fn slug_ok(s: Seq<char>) -> bool {
    &&& 0 < s.len() <= 64
    &&& forall|i: int| 0 <= i < s.len() ==> slug_char(#[trigger] s[i])
    &&& s[0] != '-'
    &&& s.last() != '-'
    &&& forall|i: int| 0 <= i < s.len() - 1 && #[trigger] s[i] == '-' ==> s[i + 1] != '-'
}

/// Whether `slug` is a valid component slug.
pub fn valid_slug(slug: &str) -> (r: bool)
    ensures
        r == slug_ok(slug@),
{
    let x: Vec<char> = chars_of(slug);
    if x.len() == 0 || x.len() > 64 || x[0] == '-' || x[x.len() - 1] == '-' {
        return false;
    }
    let mut i: usize = 0;
    while i < x.len()
        invariant
            i <= x.len(),
            x@ == slug@,
            forall|j: int| 0 <= j < i ==> slug_char(#[trigger] x@[j]),
            forall|j: int|
                0 <= j < i && j < x.len() - 1 && #[trigger] x@[j] == '-' ==> x@[j + 1] != '-',
        decreases x.len() - i,
    {
        let c: char = x[i];
        if !(('a' <= c && c <= 'z') || ('0' <= c && c <= '9') || c == '-') {
            return false;
        }
        if c == '-' && i + 1 < x.len() && x[i + 1] == '-' {
            return false;
        }
        i = i + 1;
    }
    true
}

// ---------------------------------------------------------------------
// What an agent sent
// ---------------------------------------------------------------------

/// What a discovery result holds.
#[derive(Debug)]
pub enum Proposal<'a> {
    /// The components, under their key.
    Wrapped(&'a serde_json::Value),
    /// A bare list of components.
    Bare(&'a serde_json::Value),
    /// A single component.
    Single(&'a serde_json::Value),
    /// None of these.
    Missing,
}

/// Takes a discovery result apart. The agreed form is an object with
/// `components`; a bare list and a single component are accepted too.
pub fn proposal<'a>(result: &'a serde_json::Value) -> (r: Proposal<'a>)
    ensures
        ({
            let v = json::json_view(*result);
            match v.member("components"@) {
                Some(c) => r matches Proposal::Wrapped(x) && json::json_view(*x) == c,
                None => if v is List {
                    r matches Proposal::Bare(x) && json::json_view(*x) == v
                } else if v.member("slug"@) is Some && v.member("paths"@) is Some {
                    r matches Proposal::Single(x) && json::json_view(*x) == v
                } else {
                    r is Missing
                },
            }
        }),
{
    if let Some(c) = json::get(result, "components") {
        return Proposal::Wrapped(c);
    }
    if json::as_array(result).is_some() {
        return Proposal::Bare(result);
    }
    if json::get(result, "slug").is_some() && json::get(result, "paths").is_some() {
        return Proposal::Single(result);
    }
    Proposal::Missing
}

/// Why a discovery result is refused.
pub open spec fn missing_text(v: JsonView) -> Seq<char> {
    "discovery result missing \"components\" key: "@ + json::json_text(v)
}

/// Why a discovery result is refused.
pub fn missing_message(result: &serde_json::Value) -> (r: String)
    ensures
        r@ == missing_text(json::json_view(*result)),
{
    Draft::of("discovery result missing \"components\" key: ").put(
        json::to_text(result).as_str(),
    ).text
}

/// The strings among the values.
pub open spec fn strings(l: Seq<JsonView>) -> Seq<Seq<char>>
    decreases l.len(),
{
    if l.len() == 0 {
        Seq::empty()
    } else {
        match l.last().text() {
            Some(s) => strings(l.drop_last()).push(s),
            None => strings(l.drop_last()),
        }
    }
}

/// The paths that a value proposes: a string is one path, of a list the strings
/// count, and anything else proposes none.
pub open spec fn proposed_paths(v: JsonView) -> Seq<Seq<char>> {
    match v {
        JsonView::Text(s) => seq![s],
        JsonView::List(l) => strings(l),
        _ => Seq::empty(),
    }
}

fn read_strings(l: &Vec<serde_json::Value>) -> (r: Vec<String>)
    ensures
        text::texts(r@) == strings(json::json_views(l@)),
{
    let ghost all = json::json_views(l@);
    let mut out: Vec<String> = Vec::new();
    let mut i: usize = 0;
    assert(all.take(0) =~= Seq::empty());
    assert(text::texts(out@) =~= Seq::empty());
    while i < l.len()
        invariant
            i <= l.len(),
            all == json::json_views(l@),
            text::texts(out@) == strings(all.take(i as int)),
        decreases l.len() - i,
    {
        assert(all.take(i + 1).drop_last() =~= all.take(i as int));
        assert(all.take(i + 1).last() == json::json_view(l@[i as int]));
        if let Some(s) = json::as_str(&l[i]) {
            let ghost was = text::texts(out@);
            out.push(owned(s));
            assert(text::texts(out@) =~= was.push(s@));
        }
        i = i + 1;
    }
    assert(all.take(all.len() as int) =~= all);
    out
}

/// The paths that a value proposes.
pub fn paths_of(v: &serde_json::Value) -> (r: Vec<String>)
    ensures
        text::texts(r@) == proposed_paths(json::json_view(*v)),
{
    if let Some(l) = json::as_array(v) {
        return read_strings(l);
    }
    let mut out: Vec<String> = Vec::new();
    assert(text::texts(out@) =~= Seq::empty());
    if let Some(s) = json::as_str(v) {
        out.push(owned(s));
        assert(text::texts(out@) =~= seq![s@]);
    }
    out
}

/// What is said of the elements of a list that are no strings.
pub open spec fn dropped_entries(l: Seq<JsonView>) -> Seq<Seq<char>>
    decreases l.len(),
{
    if l.len() == 0 {
        Seq::empty()
    } else {
        match l.last().text() {
            Some(_) => dropped_entries(l.drop_last()),
            None => dropped_entries(l.drop_last()).push(
                "dropping non-string path entry "@ + json::json_text(l.last()),
            ),
        }
    }
}

/// What is said of what a value proposes in place of paths.
pub open spec fn path_notes(v: JsonView) -> Seq<Seq<char>> {
    match v {
        JsonView::Null => Seq::empty(),
        JsonView::Text(_) => Seq::empty(),
        JsonView::List(l) => dropped_entries(l),
        _ => seq!["unparseable paths "@ + json::json_text(v) + " — treating as empty"@],
    }
}

/// What is to be said of what a value proposes in place of paths.
pub fn path_remarks(v: &serde_json::Value) -> (r: Vec<String>)
    ensures
        text::texts(r@) == path_notes(json::json_view(*v)),
{
    let mut out: Vec<String> = Vec::new();
    assert(text::texts(out@) =~= Seq::empty());
    if let Some(l) = json::as_array(v) {
        let ghost all = json::json_views(l@);
        let mut i: usize = 0;
        assert(all.take(0) =~= Seq::empty());
        while i < l.len()
            invariant
                i <= l.len(),
                all == json::json_views(l@),
                text::texts(out@) == dropped_entries(all.take(i as int)),
            decreases l.len() - i,
        {
            assert(all.take(i + 1).drop_last() =~= all.take(i as int));
            assert(all.take(i + 1).last() == json::json_view(l@[i as int]));
            if json::as_str(&l[i]).is_none() {
                let ghost was = text::texts(out@);
                let note = Draft::of("dropping non-string path entry ").put(
                    json::to_text(&l[i]).as_str(),
                ).text;
                out.push(note);
                assert(text::texts(out@) =~= was.push(note@));
            }
            i = i + 1;
        }
        assert(all.take(all.len() as int) =~= all);
    } else if json::as_str(v).is_none() && !json::is_null(v) {
        let note = Draft::of("unparseable paths ").put(json::to_text(v).as_str()).put(
            " — treating as empty",
        ).text;
        out.push(note);
        assert(text::texts(out@) =~= seq![note@]);
    }
    out
}

/// The commands that a discovery result names under a key: of a list the
/// strings count, and anything else names none.
pub open spec fn named_commands(v: JsonView, key: Seq<char>) -> Seq<Seq<char>> {
    match v.list_member(key) {
        Some(l) => strings(l),
        None => Seq::empty(),
    }
}

/// The commands that a discovery result names under a key.
pub fn commands_under(v: &serde_json::Value, key: &str) -> (r: Vec<String>)
    ensures
        text::texts(r@) == named_commands(json::json_view(*v), key@),
{
    match json::list_field(v, key) {
        Some(l) => read_strings(l),
        None => {
            let out: Vec<String> = Vec::new();
            assert(text::texts(out@) =~= Seq::empty());
            out
        },
    }
}

/// One component as an agent proposed it.
#[derive(Debug)]
pub struct RawItem {
    pub slug: String,
    pub name: String,
    pub description: String,
    pub paths: Vec<String>,
    /// A single path, beside the others.
    pub path: String,
    pub tier: String,
    /// Zero where the agent gave none.
    pub priority: u32,
}

/// The contents of a [`RawItem`].
pub struct RawView {
    pub slug: Seq<char>,
    pub name: Seq<char>,
    pub description: Seq<char>,
    pub paths: Seq<Seq<char>>,
    pub path: Seq<char>,
    pub tier: Seq<char>,
    pub priority: u32,
}

impl View for RawItem {
    type V = RawView;

    open spec fn view(&self) -> RawView {
        RawView {
            slug: self.slug@,
            name: self.name@,
            description: self.description@,
            paths: text::texts(self.paths@),
            path: self.path@,
            tier: self.tier@,
            priority: self.priority,
        }
    }
}

/// One component that was found usable.
#[derive(Debug)]
pub struct DiscoveredComponent {
    pub slug: String,
    pub name: String,
    pub description: String,
    pub paths: Vec<String>,
    pub tier: String,
    pub priority: u32,
}

/// The contents of a [`DiscoveredComponent`].
pub struct FoundView {
    pub slug: Seq<char>,
    pub name: Seq<char>,
    pub description: Seq<char>,
    pub paths: Seq<Seq<char>>,
    pub tier: Seq<char>,
    pub priority: u32,
}

impl View for DiscoveredComponent {
    type V = FoundView;

    open spec fn view(&self) -> FoundView {
        FoundView {
            slug: self.slug@,
            name: self.name@,
            description: self.description@,
            paths: text::texts(self.paths@),
            tier: self.tier@,
            priority: self.priority,
        }
    }
}

/// The contents of a list of components.
pub open spec fn found(l: Seq<DiscoveredComponent>) -> Seq<FoundView> {
    l.map_values(|c: DiscoveredComponent| c@)
}

/// The contents of a list of proposals.
pub open spec fn raws(l: Seq<RawItem>) -> Seq<RawView> {
    l.map_values(|c: RawItem| c@)
}

// ---------------------------------------------------------------------
// Slugs
// ---------------------------------------------------------------------

/// The words of a text with single hyphens between them.
pub open spec fn dashed(s: Seq<char>, set: CharSet) -> Seq<char> {
    text::joined(text::filled(text::pieces(s, set)), "-"@)
}

/// The segments of a path, without empty ones and those that stand for the
/// directory itself.
pub open spec fn segments(p: Seq<char>, set: CharSet) -> Seq<Seq<char>> {
    text::pieces(p, set).filter(|s: Seq<char>| s.len() > 0 && s != "."@)
}

/// The file name in a path; none where the path ends in `..` or has no segment.
pub open spec fn file_name(p: Seq<char>) -> Option<Seq<char>> {
    let s = segments(p, CharSet::One('/'));
    if s.len() == 0 || s.last() == ".."@ {
        None
    } else {
        Some(s.last())
    }
}

/// A file name without its extension: what stands before the last dot, unless
/// that is nothing.
pub open spec fn stem(name: Seq<char>) -> Seq<char> {
    stem_before(name, name.len() as int)
}

/// The part of `name` before the last dot among its first `n` characters;
/// `name` where there is none or nothing stands before it.
pub open spec fn stem_before(name: Seq<char>, n: int) -> Seq<char>
    decreases n,
{
    if n <= 0 {
        name
    } else if name[n - 1] == '.' {
        if n == 1 {
            name
        } else {
            name.take(n - 1)
        }
    } else {
        stem_before(name, n - 1)
    }
}

/// The slug that a file name suggests.
pub open spec fn stem_slug(p: Seq<char>) -> Seq<char> {
    match file_name(p) {
        Some(n) => dashed(text::lowercase(stem(n)), CharSet::StemBreak),
        None => Seq::empty(),
    }
}

/// The slug that a text suggests.
pub open spec fn text_slug(s: Seq<char>) -> Seq<char> {
    dashed(text::lowercase(text::trimmed(s)), CharSet::WordBreak)
}

/// The slug of a proposal: its own, or that of its first path unless that is
/// `main`, or that of its name; empty where none is valid.
pub open spec fn slug_of(slug: Seq<char>, name: Seq<char>, paths: Seq<Seq<char>>) -> Seq<char> {
    if slug_ok(text_slug(slug)) {
        text_slug(slug)
    } else if paths.len() > 0 && stem_slug(paths[0]) != "main"@ && slug_ok(stem_slug(paths[0])) {
        stem_slug(paths[0])
    } else if slug_ok(text_slug(name)) {
        text_slug(name)
    } else {
        Seq::empty()
    }
}

fn to_dashed(s: &str, set: CharSet) -> (r: String)
    ensures
        r@ == dashed(s@, set),
{
    join(&drop_empty(split(s, set)), "-")
}

fn to_text_slug(s: &str) -> (r: String)
    ensures
        r@ == text_slug(s@),
{
    to_dashed(to_lower(trim(s)).as_str(), CharSet::WordBreak)
}

pub(crate) fn to_segments(p: &str, set: CharSet) -> (r: Vec<String>)
    ensures
        text::texts(r@) == segments(p@, set),
{
    let parts: Vec<String> = split(p, set);
    let ghost all = text::texts(parts@);
    let ghost keep = |s: Seq<char>| s.len() > 0 && s != "."@;
    let mut out: Vec<String> = Vec::new();
    let mut i: usize = 0;
    proof {
        reveal(Seq::filter);
        assert(all.take(0) =~= Seq::empty());
        assert(text::texts(out@) =~= all.take(0).filter(keep));
    }
    while i < parts.len()
        invariant
            i <= parts.len(),
            all == text::texts(parts@),
            keep == (|s: Seq<char>| s.len() > 0 && s != "."@),
            text::texts(out@) == all.take(i as int).filter(keep),
        decreases parts.len() - i,
    {
        proof {
            reveal(Seq::filter);
            assert(all.take(i + 1).drop_last() =~= all.take(i as int));
            assert(all[i as int] == parts@[i as int]@);
        }
        let s = parts[i].as_str();
        if !s.is_empty() && !same(s, ".") {
            let ghost was = text::texts(out@);
            out.push(owned(s));
            assert(text::texts(out@) =~= was.push(s@));
        }
        i = i + 1;
    }
    assert(all.take(all.len() as int) =~= all);
    out
}

pub(crate) fn to_stem<'a>(name: &'a str) -> (r: &'a str)
    ensures
        r@ == stem(name@),
{
    let x: Vec<char> = chars_of(name);
    let mut n: usize = x.len();
    while n > 0
        invariant
            n <= x.len(),
            x@ == name@,
            stem(name@) == stem_before(name@, n as int),
        decreases n,
    {
        if x[n - 1] == '.' {
            if n == 1 {
                return name;
            }
            let r = name.substring_char(0, n - 1);
            assert(r@ =~= name@.take(n - 1));
            return r;
        }
        n = n - 1;
    }
    name
}

fn to_stem_slug(p: &str) -> (r: String)
    ensures
        r@ == stem_slug(p@),
{
    let s: Vec<String> = to_segments(p, CharSet::One('/'));
    let ghost all = text::texts(s@);
    assert(all.len() == s@.len());
    if s.len() > 0 {
        assert(all.last() == s@[s@.len() - 1]@);
        let name = s[s.len() - 1].as_str();
        if !same(name, "..") {
            return to_dashed(to_lower(to_stem(name)).as_str(), CharSet::StemBreak);
        }
    }
    let none: String = String::new();
    assert(none@ =~= Seq::empty());
    none
}

/// The slug of a proposal.
pub fn normalize_slug(slug: &str, name: &str, paths: &Vec<String>) -> (r: String)
    ensures
        r@ == slug_of(slug@, name@, text::texts(paths@)),
{
    let own = to_text_slug(slug);
    if valid_slug(own.as_str()) {
        return own;
    }
    assert(text::texts(paths@).len() == paths@.len());
    if paths.len() > 0 {
        assert(text::texts(paths@)[0] == paths@[0]@);
        let s = to_stem_slug(paths[0].as_str());
        if !same(s.as_str(), "main") && valid_slug(s.as_str()) {
            return s;
        }
    }
    let n = to_text_slug(name);
    if valid_slug(n.as_str()) {
        return n;
    }
    let none: String = String::new();
    assert(none@ =~= Seq::empty());
    none
}

// ---------------------------------------------------------------------
// Paths
// ---------------------------------------------------------------------

/// A path in one spelling: relative, with single slashes, and without segments
/// that stand for the directory itself.
pub open spec fn plain_path(p: Seq<char>) -> Seq<char> {
    text::joined(segments(text::trimmed(p), CharSet::Slash), "/"@)
}

/// A segment that names a drive: a letter and a colon.
pub open spec fn drive(s: Seq<char>) -> bool {
    s.len() >= 2 && text::is_letter(s[0]) && s[1] == ':'
}

/// The path that a proposal names, where it is usable: not absolute, on no
/// drive, without a step upwards, and without characters that the checklist
/// cannot carry.
pub open spec fn usable_path(p: Seq<char>) -> Option<Seq<char>> {
    let raw = text::trimmed(p);
    let segs = segments(raw, CharSet::Slash);
    let plain = plain_path(p);
    if raw.len() > 0 && CharSet::Slash.has(raw[0]) {
        None
    } else if segs.len() == 0 || drive(segs[0]) || segs.contains(".."@) || text::has_char(
        plain,
        CharSet::Control,
    ) || text::has_char(plain, CharSet::One(',')) {
        None
    } else {
        Some(plain)
    }
}

/// The usable paths, each once, in the order in which they first occur.
pub open spec fn usable_paths(ps: Seq<Seq<char>>) -> Seq<Seq<char>>
    decreases ps.len(),
{
    if ps.len() == 0 {
        Seq::empty()
    } else {
        let before = usable_paths(ps.drop_last());
        match usable_path(ps.last()) {
            Some(p) => if before.contains(p) {
                before
            } else {
                before.push(p)
            },
            None => before,
        }
    }
}

/// All paths that a proposal names.
pub open spec fn all_paths(it: RawView) -> Seq<Seq<char>> {
    if text::trimmed(it.path).len() == 0 {
        it.paths
    } else {
        it.paths.push(it.path)
    }
}

fn is_drive_prefixed(s: &str) -> (r: bool)
    ensures
        r == drive(s@),
{
    let x: Vec<char> = chars_of(s);
    x.len() >= 2 && (('a' <= x[0] && x[0] <= 'z') || ('A' <= x[0] && x[0] <= 'Z')) && x[1] == ':'
}

/// A path in one spelling.
pub fn normalize_path(p: &str) -> (r: String)
    ensures
        r@ == plain_path(p@),
{
    join(&to_segments(trim(p), CharSet::Slash), "/")
}

fn check_path(p: &str) -> (r: Option<String>)
    ensures
        match r {
            Some(x) => usable_path(p@) == Some(x@),
            None => usable_path(p@) is None,
        },
{
    let raw = trim(p);
    if !raw.is_empty() && CharSet::Slash.contains(raw.get_char(0)) {
        return None;
    }
    let segs = to_segments(raw, CharSet::Slash);
    let ghost all = text::texts(segs@);
    assert(all.len() == segs@.len());
    if segs.len() == 0 {
        return None;
    }
    assert(all[0] == segs@[0]@);
    if is_drive_prefixed(segs[0].as_str()) || member(&segs, "..") {
        return None;
    }
    let plain = join(&segs, "/");
    if contains_char(plain.as_str(), CharSet::Control) || contains_char(
        plain.as_str(),
        CharSet::One(','),
    ) {
        return None;
    }
    Some(plain)
}

/// The usable paths of a proposal.
pub fn collect_paths(it: &RawItem) -> (r: Vec<String>)
    ensures
        text::texts(r@) == usable_paths(all_paths(it@)),
{
    let mut raw: Vec<String> = copied(&it.paths);
    if !trim(it.path.as_str()).is_empty() {
        let ghost was = text::texts(raw@);
        raw.push(it.path.clone());
        assert(text::texts(raw@) =~= was.push(it.path@));
    }
    let ghost all = text::texts(raw@);
    assert(all == all_paths(it@));
    let mut out: Vec<String> = Vec::new();
    let mut i: usize = 0;
    assert(all.take(0) =~= Seq::empty());
    assert(text::texts(out@) =~= Seq::empty());
    while i < raw.len()
        invariant
            i <= raw.len(),
            all == text::texts(raw@),
            text::texts(out@) == usable_paths(all.take(i as int)),
        decreases raw.len() - i,
    {
        assert(all.take(i + 1).drop_last() =~= all.take(i as int));
        assert(all[i as int] == raw@[i as int]@);
        if let Some(p) = check_path(raw[i].as_str()) {
            if !member(&out, p.as_str()) {
                let ghost was = text::texts(out@);
                let ghost q = p@;
                out.push(p);
                assert(text::texts(out@) =~= was.push(q));
            }
        }
        i = i + 1;
    }
    assert(all.take(all.len() as int) =~= all);
    out
}

// ---------------------------------------------------------------------
// Proposals
// ---------------------------------------------------------------------

/// The name of a component: the proposed one on one line, or the slug.
pub open spec fn name_of(name: Seq<char>, slug: Seq<char>) -> Seq<char> {
    if text::trimmed(name).len() == 0 {
        slug
    } else {
        text::replaced(text::trimmed(name), CharSet::LineEnd, " "@)
    }
}

/// The tier of a proposal.
pub open spec fn tier_of(it: RawView) -> Tier {
    checklist::tier_named(text::lowercase(text::trimmed(it.tier)))
}

/// A component that was not proposed before.
pub open spec fn fresh(it: RawView, slug: Seq<char>, paths: Seq<Seq<char>>) -> FoundView {
    FoundView {
        slug,
        name: name_of(it.name, slug),
        description: text::trimmed(it.description),
        paths,
        tier: tier_of(it).word(),
        priority: if it.priority > 0 {
            it.priority
        } else {
            tier_of(it).floor()
        },
    }
}

/// `base` and behind it the texts that are not there already.
pub open spec fn united(base: Seq<Seq<char>>, more: Seq<Seq<char>>) -> Seq<Seq<char>>
    decreases more.len(),
{
    if more.len() == 0 {
        base
    } else {
        let before = united(base, more.drop_last());
        if before.contains(more.last()) {
            before
        } else {
            before.push(more.last())
        }
    }
}

pub open spec fn at_least(a: u32, b: u32) -> u32 {
    if a < b {
        b
    } else {
        a
    }
}

/// A component that is proposed again: it gets the further paths, the stronger
/// tier and the higher priority. A stronger tier also lifts the priority to
/// what that tier starts at.
pub open spec fn merged(c: FoundView, it: RawView, paths: Seq<Seq<char>>) -> FoundView {
    let t = tier_of(it);
    let stronger = t.place() < checklist::rank_of(c.tier);
    let raised = at_least(c.priority, it.priority);
    FoundView {
        paths: united(c.paths, paths),
        tier: if stronger {
            t.word()
        } else {
            c.tier
        },
        priority: if stronger {
            at_least(raised, t.floor())
        } else {
            raised
        },
        ..c
    }
}

/// The first component with the slug.
pub open spec fn place_of(out: Seq<FoundView>, slug: Seq<char>) -> Option<int>
    decreases out.len(),
{
    if out.len() == 0 {
        None
    } else {
        match place_of(out.drop_last(), slug) {
            Some(i) => Some(i),
            None => if out.last().slug == slug {
                Some(out.len() - 1)
            } else {
                None
            },
        }
    }
}

/// The components after one more proposal: one without a valid slug or without
/// a usable path is dropped.
pub open spec fn taken(out: Seq<FoundView>, it: RawView) -> Seq<FoundView> {
    let slug = slug_of(it.slug, it.name, it.paths);
    let paths = usable_paths(all_paths(it));
    if !slug_ok(slug) || paths.len() == 0 {
        out
    } else {
        match place_of(out, slug) {
            Some(i) => out.update(i, merged(out[i], it, paths)),
            None => out.push(fresh(it, slug, paths)),
        }
    }
}

/// The components of all proposals.
pub open spec fn gathered(items: Seq<RawView>) -> Seq<FoundView>
    decreases items.len(),
{
    if items.len() == 0 {
        Seq::empty()
    } else {
        taken(gathered(items.drop_last()), items.last())
    }
}

/// `a` stands before `b`: it has the higher priority, or the same one and the
/// slug that comes first.
pub open spec fn ahead(a: FoundView, b: FoundView) -> bool {
    a.priority > b.priority || a.priority == b.priority && text::before(a.slug, b.slug)
}

/// The place of `c` among components in order: before the first that stands
/// behind it, among the first `n`.
pub open spec fn rank_place(l: Seq<FoundView>, c: FoundView, n: int) -> int
    decreases n,
{
    if n <= 0 || !ahead(c, l[n - 1]) {
        n
    } else {
        rank_place(l, c, n - 1)
    }
}

/// The components in order.
pub open spec fn ranked(l: Seq<FoundView>) -> Seq<FoundView>
    decreases l.len(),
{
    if l.len() == 0 {
        Seq::empty()
    } else {
        let before = ranked(l.drop_last());
        before.insert(rank_place(before, l.last(), before.len() as int), l.last())
    }
}

/// The first `n` of the components, or all where there are no more.
pub open spec fn first(l: Seq<FoundView>, n: nat) -> Seq<FoundView> {
    if l.len() <= n {
        l
    } else {
        l.take(n as int)
    }
}

/// What a discovery yields: the components in order, as many as there may be;
/// or, where there are too few, how many there are.
pub open spec fn normalized(items: Seq<RawView>) -> Result<Seq<FoundView>, nat> {
    let out = gathered(items);
    if out.len() < MIN_COMPONENTS {
        Err(out.len())
    } else {
        Ok(first(ranked(out), MAX_COMPONENTS as nat))
    }
}

/// A discovery yielded too few components.
#[derive(Debug)]
pub struct TooFew {
    pub found: usize,
}

impl TooFew {
    pub open spec fn words(self) -> Seq<char> {
        "discovery produced "@ + number::decimal(self.found as nat)
            + " usable component(s); need at least "@ + number::decimal(MIN_COMPONENTS as nat)
    }

    /// The fault in words.
    pub fn message(&self) -> (r: String)
        ensures
            r@ == self.words(),
    {
        Draft::of("discovery produced ").put(to_decimal(self.found as u64).as_str()).put(
            " usable component(s); need at least ",
        ).put(to_decimal(MIN_COMPONENTS as u64).as_str()).text
    }
}

fn find_slug(out: &Vec<DiscoveredComponent>, slug: &str) -> (r: Option<usize>)
    ensures
        match r {
            Some(i) => place_of(found(out@), slug@) == Some(i as int) && i < out.len(),
            None => place_of(found(out@), slug@) is None,
        },
{
    let ghost all = found(out@);
    let mut i: usize = 0;
    let mut at: Option<usize> = None;
    assert(all.take(0) =~= Seq::empty());
    while i < out.len()
        invariant
            i <= out.len(),
            all == found(out@),
            match at {
                Some(k) => place_of(all.take(i as int), slug@) == Some(k as int) && k < i,
                None => place_of(all.take(i as int), slug@) is None,
            },
        decreases out.len() - i,
    {
        assert(all.take(i + 1).drop_last() =~= all.take(i as int));
        assert(all.take(i + 1).last() == out@[i as int]@);
        if at.is_none() && same(out[i].slug.as_str(), slug) {
            at = Some(i);
        }
        i = i + 1;
    }
    assert(all.take(all.len() as int) =~= all);
    at
}

fn unite(base: &mut Vec<String>, more: &Vec<String>)
    ensures
        text::texts(final(base)@) == united(text::texts(old(base)@), text::texts(more@)),
{
    let ghost start = text::texts(base@);
    let ghost all = text::texts(more@);
    let mut i: usize = 0;
    assert(all.take(0) =~= Seq::empty());
    while i < more.len()
        invariant
            i <= more.len(),
            all == text::texts(more@),
            text::texts(base@) == united(start, all.take(i as int)),
        decreases more.len() - i,
    {
        assert(all.take(i + 1).drop_last() =~= all.take(i as int));
        assert(all[i as int] == more@[i as int]@);
        let p = more[i].as_str();
        if !member(base, p) {
            let ghost was = text::texts(base@);
            base.push(owned(p));
            assert(text::texts(base@) =~= was.push(p@));
        }
        i = i + 1;
    }
    assert(all.take(all.len() as int) =~= all);
}

fn merge(c: &mut DiscoveredComponent, it: &RawItem, paths: &Vec<String>)
    ensures
        final(c)@ == merged(old(c)@, it@, text::texts(paths@)),
{
    unite(&mut c.paths, paths);
    let t = Tier::parse(it.tier.as_str());
    let stronger: bool = t.rank() < tier_rank(c.tier.as_str());
    if it.priority > c.priority {
        c.priority = it.priority;
    }
    if stronger {
        c.tier = owned(t.as_str());
        let floor: u32 = t.default_priority();
        if c.priority < floor {
            c.priority = floor;
        }
    }
    assert(c@ == merged(old(c)@, it@, text::texts(paths@)));
}

fn take_item(out: &mut Vec<DiscoveredComponent>, it: &RawItem)
    ensures
        found(final(out)@) == taken(found(old(out)@), it@),
{
    let slug = normalize_slug(it.slug.as_str(), it.name.as_str(), &it.paths);
    if !valid_slug(slug.as_str()) {
        return ;
    }
    let paths = collect_paths(it);
    assert(text::texts(paths@).len() == paths@.len());
    if paths.len() == 0 {
        return ;
    }
    let ghost was = found(out@);
    match find_slug(out, slug.as_str()) {
        Some(i) => {
            assert(was[i as int] == out@[i as int]@);
            merge(&mut out[i], it, &paths);
            assert(found(out@) =~= was.update(
                i as int,
                merged(was[i as int], it@, text::texts(paths@)),
            ));
        },
        None => {
            let t = Tier::parse(it.tier.as_str());
            let given = trim(it.name.as_str());
            let name: String = if given.is_empty() {
                slug.clone()
            } else {
                replace(given, CharSet::LineEnd, " ")
            };
            let priority: u32 = if it.priority > 0 {
                it.priority
            } else {
                t.default_priority()
            };
            let c = DiscoveredComponent {
                slug,
                name,
                description: owned(trim(it.description.as_str())),
                paths,
                tier: owned(t.as_str()),
                priority,
            };
            let ghost v = c@;
            out.push(c);
            assert(found(out@) =~= was.push(v));
        },
    }
}

fn is_ahead(a: &DiscoveredComponent, b: &DiscoveredComponent) -> (r: bool)
    ensures
        r == ahead(a@, b@),
{
    a.priority > b.priority || a.priority == b.priority && less(a.slug.as_str(), b.slug.as_str())
}

fn rank(l: Vec<DiscoveredComponent>) -> (r: Vec<DiscoveredComponent>)
    ensures
        found(r@) == ranked(found(l@)),
{
    let ghost all = found(l@);
    let mut rest: Vec<DiscoveredComponent> = l;
    let mut out: Vec<DiscoveredComponent> = Vec::new();
    let ghost mut n: int = 0;
    assert(all.take(0) =~= Seq::empty());
    assert(found(out@) =~= Seq::empty());
    assert(all.skip(0) =~= all);
    while rest.len() > 0
        invariant
            0 <= n <= all.len(),
            found(rest@) == all.skip(n),
            found(out@) == ranked(all.take(n)),
        decreases rest.len(),
    {
        assert(found(rest@).len() == rest@.len());
        let ghost held = found(out@);
        assert(found(rest@)[0] == rest@[0]@);
        let ghost left = found(rest@);
        let c = rest.remove(0);
        assert(found(rest@) =~= left.remove(0));
        assert(left.remove(0) =~= all.skip(n + 1));
        assert(all.take(n + 1).drop_last() =~= all.take(n));
        assert(all.take(n + 1).last() == c@);
        let mut k: usize = out.len();
        assert(held.len() == out@.len());
        let mut go: bool = true;
        while go
            invariant
                k <= out.len(),
                held == found(out@),
                held.len() == out@.len(),
                rank_place(held, c@, held.len() as int) == rank_place(held, c@, k as int),
                !go ==> rank_place(held, c@, k as int) == k,
            decreases k + (if go {
                1int
            } else {
                0
            }),
        {
            if k == 0 {
                go = false;
            } else {
                assert(held[k - 1] == out@[k - 1]@);
                if is_ahead(&c, &out[k - 1]) {
                    k = k - 1;
                } else {
                    go = false;
                }
            }
        }
        let ghost v = c@;
        out.insert(k, c);
        assert(found(out@) =~= held.insert(k as int, v));
        proof {
            n = n + 1;
        }
    }
    assert(found(rest@).len() == rest@.len());
    assert(all.take(n) =~= all);
    out
}

/// What becomes of a proposal that adds no component. `T` is the type of texts.
#[derive(Debug)]
pub enum Remark<T> {
    /// It was rejected: it has no valid slug.
    BadSlug { slug: T, name: T },
    /// It was rejected: it has no usable path.
    NoPaths { slug: T },
    /// It was merged with an earlier one of the same slug, with this many paths.
    Merged { slug: T, paths: usize },
}

impl View for Remark<String> {
    type V = Remark<Seq<char>>;

    open spec fn view(&self) -> Remark<Seq<char>> {
        match *self {
            Remark::BadSlug { slug, name } => Remark::BadSlug { slug: slug@, name: name@ },
            Remark::NoPaths { slug } => Remark::NoPaths { slug: slug@ },
            Remark::Merged { slug, paths } => Remark::Merged { slug: slug@, paths },
        }
    }
}

/// The contents of a list of remarks.
pub open spec fn remarks_in(l: Seq<Remark<String>>) -> Seq<Remark<Seq<char>>> {
    l.map_values(|x: Remark<String>| x@)
}

impl Remark<Seq<char>> {
    /// The remark in words.
    pub open spec fn words(self) -> Seq<char> {
        match self {
            Remark::BadSlug { slug, name } => "rejected item (bad slug "@ + text::debug_text(slug)
                + ", name "@ + text::debug_text(name) + ")"@,
            Remark::NoPaths { slug } => "rejected item "@ + slug + " (no usable paths)"@,
            Remark::Merged { slug, paths } => "merged duplicate slug "@ + slug + " ("@
                + number::decimal(paths as nat) + " paths)"@,
        }
    }
}

impl Remark<String> {
    /// The remark in words.
    pub fn message(&self) -> (r: String)
        ensures
            r@ == self@.words(),
    {
        let b: Draft = match self {
            Remark::BadSlug { slug, name } => Draft::of("rejected item (bad slug ").put(
                debug(slug.as_str()).as_str(),
            ).put(", name ").put(debug(name.as_str()).as_str()).put(")"),
            Remark::NoPaths { slug } => Draft::of("rejected item ").put(slug.as_str()).put(
                " (no usable paths)",
            ),
            Remark::Merged { slug, paths } => Draft::of("merged duplicate slug ").put(
                slug.as_str(),
            ).put(" (").put(to_decimal(*paths as u64).as_str()).put(" paths)"),
        };
        b.text
    }
}

/// What is to be said of a proposal, given the components so far.
pub open spec fn remark_on(out: Seq<FoundView>, it: RawView) -> Option<Remark<Seq<char>>> {
    let slug = slug_of(it.slug, it.name, it.paths);
    let paths = usable_paths(all_paths(it));
    if !slug_ok(slug) {
        Some(Remark::BadSlug { slug: it.slug, name: it.name })
    } else if paths.len() == 0 {
        Some(Remark::NoPaths { slug })
    } else if place_of(out, slug) is Some {
        Some(Remark::Merged { slug, paths: paths.len() as usize })
    } else {
        None
    }
}

/// What is to be said of the proposals, in order.
pub open spec fn remarked(items: Seq<RawView>) -> Seq<Remark<Seq<char>>>
    decreases items.len(),
{
    if items.len() == 0 {
        Seq::empty()
    } else {
        let before = remarked(items.drop_last());
        match remark_on(gathered(items.drop_last()), items.last()) {
            Some(x) => before.push(x),
            None => before,
        }
    }
}

fn find_remark(out: &Vec<DiscoveredComponent>, it: &RawItem) -> (r: Option<Remark<String>>)
    ensures
        match r {
            Some(x) => remark_on(found(out@), it@) == Some(x@),
            None => remark_on(found(out@), it@) is None,
        },
{
    let slug = normalize_slug(it.slug.as_str(), it.name.as_str(), &it.paths);
    if !valid_slug(slug.as_str()) {
        return Some(Remark::BadSlug { slug: it.slug.clone(), name: it.name.clone() });
    }
    let paths = collect_paths(it);
    assert(text::texts(paths@).len() == paths@.len());
    if paths.len() == 0 {
        return Some(Remark::NoPaths { slug });
    }
    match find_slug(out, slug.as_str()) {
        Some(_) => Some(Remark::Merged { slug, paths: paths.len() }),
        None => None,
    }
}

fn gather(items: &Vec<RawItem>) -> (r: (Vec<DiscoveredComponent>, Vec<Remark<String>>))
    ensures
        found(r.0@) == gathered(raws(items@)),
        remarks_in(r.1@) == remarked(raws(items@)),
{
    let ghost all = raws(items@);
    let mut out: Vec<DiscoveredComponent> = Vec::new();
    let mut told: Vec<Remark<String>> = Vec::new();
    let mut i: usize = 0;
    assert(all.take(0) =~= Seq::empty());
    assert(found(out@) =~= Seq::empty());
    assert(remarks_in(told@) =~= Seq::empty());
    while i < items.len()
        invariant
            i <= items.len(),
            all == raws(items@),
            found(out@) == gathered(all.take(i as int)),
            remarks_in(told@) == remarked(all.take(i as int)),
        decreases items.len() - i,
    {
        assert(all.take(i + 1).drop_last() =~= all.take(i as int));
        assert(all.take(i + 1).last() == items@[i as int]@);
        if let Some(x) = find_remark(&out, &items[i]) {
            let ghost was = remarks_in(told@);
            told.push(x);
            assert(remarks_in(told@) =~= was.push(x@));
        }
        take_item(&mut out, &items[i]);
        i = i + 1;
    }
    assert(all.take(all.len() as int) =~= all);
    (out, told)
}

/// What a discovery yields of the proposals.
pub fn normalize(items: &Vec<RawItem>) -> (r: Result<Vec<DiscoveredComponent>, TooFew>)
    ensures
        match r {
            Ok(l) => normalized(raws(items@)) == Ok::<Seq<FoundView>, nat>(found(l@)),
            Err(e) => normalized(raws(items@)) == Err::<Seq<FoundView>, nat>(e.found as nat),
        },
{
    let out: Vec<DiscoveredComponent> = gather(items).0;
    assert(found(out@).len() == out@.len());
    if out.len() < MIN_COMPONENTS {
        return Err(TooFew { found: out.len() });
    }
    let mut sorted: Vec<DiscoveredComponent> = rank(out);
    let ghost full = found(sorted@);
    assert(full.len() == sorted@.len());
    if sorted.len() > MAX_COMPONENTS {
        sorted.truncate(MAX_COMPONENTS);
        assert(found(sorted@) =~= full.take(MAX_COMPONENTS as int));
    }
    Ok(sorted)
}

/// What is to be said of the proposals that add no component: which were
/// rejected and why, and which were merged with an earlier one.
pub fn remarks(items: &Vec<RawItem>) -> (r: Vec<Remark<String>>)
    ensures
        remarks_in(r@) == remarked(raws(items@)),
{
    gather(items).1
}

// ---------------------------------------------------------------------
// Laws
// ---------------------------------------------------------------------

proof fn lemma_rank_place(l: Seq<FoundView>, c: FoundView, n: int)
    requires
        0 <= n <= l.len(),
    ensures
        0 <= rank_place(l, c, n) <= n,
        forall|j: int| rank_place(l, c, n) <= j < n ==> ahead(c, #[trigger] l[j]),
        rank_place(l, c, n) > 0 ==> !ahead(c, l[rank_place(l, c, n) - 1]),
    decreases n,
{
    if n > 0 && ahead(c, l[n - 1]) {
        lemma_rank_place(l, c, n - 1);
    }
}

proof fn lemma_ahead(a: FoundView, b: FoundView, c: FoundView)
    ensures
        !ahead(a, a),
        ahead(a, b) ==> !ahead(b, a),
        ahead(a, b) && ahead(b, c) ==> ahead(a, c),
        !ahead(a, b) && !ahead(b, c) ==> !ahead(a, c),
        a.slug != b.slug ==> ahead(a, b) || ahead(b, a),
{
    text::lemma_before_strict(a.slug, b.slug);
    text::lemma_before_strict(a.slug, c.slug);
    text::lemma_before_strict(b.slug, c.slug);
    text::lemma_before_total(a.slug, b.slug);
    text::lemma_before_total(b.slug, c.slug);
    if text::before(a.slug, b.slug) && text::before(b.slug, c.slug) {
        text::lemma_before_transitive(a.slug, b.slug, c.slug);
    }
    if text::before(b.slug, a.slug) && text::before(c.slug, b.slug) {
        text::lemma_before_transitive(c.slug, b.slug, a.slug);
    }
}

/// Nothing is passed over in silence: a proposal adds a component exactly where
/// there is nothing to say of it, and one that was rejected leaves the
/// components as they were.
pub proof fn law_no_proposal_is_lost_in_silence(out: Seq<FoundView>, it: RawView)
    ensures
        remark_on(out, it) is None <==> taken(out, it).len() == out.len() + 1,
        remark_on(out, it) matches Some(x) && !(x is Merged) ==> taken(out, it) == out,
{
    lemma_place_of(out, slug_of(it.slug, it.name, it.paths));
}

/// No component of the list stands behind one that it should precede.
pub open spec fn in_order(l: Seq<FoundView>) -> bool {
    forall|i: int, j: int| 0 <= i < j < l.len() ==> !ahead(#[trigger] l[j], #[trigger] l[i])
}

/// Ordering keeps the components and puts the one with the higher priority
/// first, of two with the same priority the one whose slug comes first.
pub proof fn law_ranked(l: Seq<FoundView>)
    ensures
        ranked(l).to_multiset() == l.to_multiset(),
        ranked(l).len() == l.len(),
        in_order(ranked(l)),
    decreases l.len(),
{
    if l.len() > 0 {
        let front = l.drop_last();
        let c = l.last();
        law_ranked(front);
        let held = ranked(front);
        let k = rank_place(held, c, held.len() as int);
        lemma_rank_place(held, c, held.len() as int);
        let all = held.insert(k, c);
        all.to_multiset_ensures();
        assert(all.remove(k) =~= held);
        assert(all[k] == c);
        assert(all.contains(c));
        assert(l =~= front.push(c));
        front.to_multiset_ensures();
        assert(all.to_multiset() =~= l.to_multiset());
        assert forall|i: int, j: int| 0 <= i < j < all.len() implies !ahead(
            #[trigger] all[j],
            #[trigger] all[i],
        ) by {
            if i == k {
                assert(all[j] == held[j - 1]);
                lemma_ahead(c, held[j - 1], c);
            } else if j == k {
                assert(all[i] == held[i]);
                lemma_ahead(c, held[k - 1], held[i]);
            } else {
                let x = if i < k {
                    i
                } else {
                    i - 1
                };
                let y = if j < k {
                    j
                } else {
                    j - 1
                };
                assert(all[i] == held[x] && all[j] == held[y]);
            }
        }
    } else {
        assert(ranked(l) =~= l);
    }
}

proof fn lemma_pieces_clean(s: Seq<char>, set: CharSet)
    ensures
        forall|i: int|
            0 <= i < text::pieces(s, set).len() ==> !text::has_char(
                #[trigger] text::pieces(s, set)[i],
                set,
            ),
    decreases s.len(),
{
    if s.len() > 0 {
        let front = text::pieces(s.drop_last(), set);
        lemma_pieces_clean(s.drop_last(), set);
        text::lemma_pieces_nonempty(s.drop_last(), set);
        let all = text::pieces(s, set);
        assert forall|i: int| 0 <= i < all.len() implies !text::has_char(#[trigger] all[i], set) by {
            if set.has(s.last()) {
                if i < front.len() {
                    assert(!text::has_char(front[i], set));
                }
            } else {
                assert(!text::has_char(front[i], set));
                if i == front.len() - 1 {
                    let x = front[i].push(s.last());
                    assert(all[i] == x);
                    assert forall|j: int| 0 <= j < x.len() implies !set.has(#[trigger] x[j]) by {
                        if j < front[i].len() {
                            assert(!set.has(front[i][j]));
                        }
                    }
                }
            }
        }
    }
}

proof fn lemma_segments(p: Seq<char>)
    ensures
        forall|i: int|
            #![trigger segments(p, CharSet::Slash)[i]]
            0 <= i < segments(p, CharSet::Slash).len() ==> {
                let s = segments(p, CharSet::Slash)[i];
                s.len() > 0 && s != "."@ && !text::has_char(s, CharSet::Slash)
            },
{
    lemma_pieces_clean(p, CharSet::Slash);
    lemma_kept(text::pieces(p, CharSet::Slash));
}

proof fn lemma_kept(ps: Seq<Seq<char>>)
    requires
        forall|i: int| 0 <= i < ps.len() ==> !text::has_char(#[trigger] ps[i], CharSet::Slash),
    ensures
        ({
            let l = ps.filter(|s: Seq<char>| s.len() > 0 && s != "."@);
            forall|i: int|
                0 <= i < l.len() ==> (#[trigger] l[i]).len() > 0 && l[i] != "."@
                    && !text::has_char(l[i], CharSet::Slash)
        }),
    decreases ps.len(),
{
    reveal(Seq::filter);
    if ps.len() > 0 {
        let front = ps.drop_last();
        assert forall|i: int| 0 <= i < front.len() implies !text::has_char(
            #[trigger] front[i],
            CharSet::Slash,
        ) by {
            assert(!text::has_char(ps[i], CharSet::Slash));
        }
        lemma_kept(front);
        assert(!text::has_char(ps[ps.len() - 1], CharSet::Slash));
        let keep = |s: Seq<char>| s.len() > 0 && s != "."@;
        let before = front.filter(keep);
        let l = ps.filter(keep);
        assert forall|i: int| 0 <= i < l.len() implies (#[trigger] l[i]).len() > 0 && l[i] != "."@
            && !text::has_char(l[i], CharSet::Slash) by {
            if i < before.len() {
                assert(before[i] == l[i]);
            }
        }
    }
}

proof fn lemma_pieces_of_joined(segs: Seq<Seq<char>>)
    requires
        segs.len() > 0,
        forall|i: int| 0 <= i < segs.len() ==> !text::has_char(#[trigger] segs[i], CharSet::Slash),
    ensures
        text::pieces(text::joined(segs, "/"@), CharSet::One('/')) == segs,
    decreases segs.len(),
{
    reveal_strlit("/");
    let slash = CharSet::One('/');
    let last = segs.last();
    assert(!text::has_char(segs[segs.len() - 1], CharSet::Slash));
    assert forall|i: int| 0 <= i < last.len() implies !slash.has(#[trigger] last[i]) by {
        assert(!CharSet::Slash.has(last[i]));
    }
    if segs.len() == 1 {
        let e = Seq::<char>::empty();
        roundtrip::lemma_pieces_extend(e, last, slash);
        assert(e + last =~= last);
        assert(text::pieces(e, slash) =~= seq![e]);
        assert(seq![e].drop_last().push(last) =~= segs);
    } else {
        let front = segs.drop_last();
        assert forall|i: int| 0 <= i < front.len() implies !text::has_char(
            #[trigger] front[i],
            CharSet::Slash,
        ) by {
            assert(!text::has_char(segs[i], CharSet::Slash));
        }
        lemma_pieces_of_joined(front);
        let a = text::joined(front, "/"@);
        roundtrip::lemma_pieces_cut(a, '/', last);
        assert(text::joined(segs, "/"@) =~= a.push('/') + last);
        assert(front.push(last) =~= segs);
    }
}

/// A path that stays inside the repository and that the checklist can carry.
pub open spec fn safe_path(p: Seq<char>) -> bool {
    let segs = text::pieces(p, CharSet::One('/'));
    &&& forall|i: int|
        0 <= i < segs.len() ==> (#[trigger] segs[i]).len() > 0 && segs[i] != "."@ && segs[i]
            != ".."@
    &&& segs.len() > 0
    &&& !drive(segs[0])
    &&& !text::has_char(p, CharSet::Control)
    &&& !text::has_char(p, CharSet::One(','))
}

/// A path that is accepted stays inside the repository: it is relative, has no
/// step upwards and no drive, and is in the one spelling by which paths are
/// compared.
pub proof fn law_usable_paths_are_safe(p: Seq<char>)
    requires
        usable_path(p) is Some,
    ensures
        safe_path(usable_path(p)->Some_0),
{
    let segs = segments(text::trimmed(p), CharSet::Slash);
    lemma_segments(text::trimmed(p));
    assert forall|i: int| 0 <= i < segs.len() implies !text::has_char(
        #[trigger] segs[i],
        CharSet::Slash,
    ) by {}
    lemma_pieces_of_joined(segs);
    assert forall|i: int| 0 <= i < segs.len() implies (#[trigger] segs[i]).len() > 0 && segs[i]
        != "."@ && segs[i] != ".."@ by {
        assert(segs.contains(segs[i]));
    }
}

/// Texts of which none occurs twice, each a safe path.
pub open spec fn safe_paths(ps: Seq<Seq<char>>) -> bool {
    &&& ps.no_duplicates()
    &&& forall|i: int| 0 <= i < ps.len() ==> safe_path(#[trigger] ps[i])
}

proof fn lemma_usable_paths(ps: Seq<Seq<char>>)
    ensures
        safe_paths(usable_paths(ps)),
    decreases ps.len(),
{
    if ps.len() > 0 {
        lemma_usable_paths(ps.drop_last());
        if usable_path(ps.last()) is Some {
            law_usable_paths_are_safe(ps.last());
            let before = usable_paths(ps.drop_last());
            let p = usable_path(ps.last())->Some_0;
            if !before.contains(p) {
                let all = before.push(p);
                assert forall|i: int| 0 <= i < all.len() implies safe_path(#[trigger] all[i]) by {
                    if i < before.len() {
                        assert(safe_path(before[i]));
                    }
                }
            }
        }
    }
}

proof fn lemma_united(base: Seq<Seq<char>>, more: Seq<Seq<char>>)
    requires
        safe_paths(base),
        safe_paths(more),
    ensures
        safe_paths(united(base, more)),
        united(base, more).len() >= base.len(),
    decreases more.len(),
{
    if more.len() > 0 {
        let front = more.drop_last();
        assert forall|i: int| 0 <= i < front.len() implies safe_path(#[trigger] front[i]) by {
            assert(safe_path(more[i]));
        }
        assert(front.no_duplicates());
        lemma_united(base, front);
        assert(safe_path(more[more.len() - 1]));
        let before = united(base, front);
        let p = more.last();
        if !before.contains(p) {
            let all = before.push(p);
            assert forall|i: int| 0 <= i < all.len() implies safe_path(#[trigger] all[i]) by {
                if i < before.len() {
                    assert(safe_path(before[i]));
                }
            }
        }
    }
}

/// A component as a discovery may yield it.
pub open spec fn sound(c: FoundView) -> bool {
    &&& slug_ok(c.slug)
    &&& c.paths.len() > 0
    &&& safe_paths(c.paths)
    &&& c.tier == "high"@ || c.tier == "medium"@ || c.tier == "low"@
    &&& c.priority > 0
}

pub open spec fn all_sound(l: Seq<FoundView>) -> bool {
    forall|i: int| 0 <= i < l.len() ==> sound(#[trigger] l[i])
}

pub open spec fn distinct_slugs(l: Seq<FoundView>) -> bool {
    forall|i: int, j: int|
        0 <= i < l.len() && 0 <= j < l.len() && i != j ==> (#[trigger] l[i]).slug != (
        #[trigger] l[j]).slug
}

proof fn lemma_place_of(out: Seq<FoundView>, slug: Seq<char>)
    ensures
        match place_of(out, slug) {
            Some(i) => 0 <= i < out.len() && out[i].slug == slug,
            None => forall|i: int| 0 <= i < out.len() ==> (#[trigger] out[i]).slug != slug,
        },
    decreases out.len(),
{
    if out.len() > 0 {
        let front = out.drop_last();
        lemma_place_of(front, slug);
        match place_of(front, slug) {
            Some(i) => {
                assert(front[i] == out[i]);
            },
            None => {
                assert forall|i: int| 0 <= i < front.len() implies (#[trigger] out[i]).slug
                    != slug by {
                    assert(front[i].slug != slug);
                }
            },
        }
    }
}

proof fn lemma_taken(out: Seq<FoundView>, it: RawView)
    requires
        all_sound(out),
        distinct_slugs(out),
    ensures
        all_sound(taken(out, it)),
        distinct_slugs(taken(out, it)),
{
    let slug = slug_of(it.slug, it.name, it.paths);
    let paths = usable_paths(all_paths(it));
    lemma_usable_paths(all_paths(it));
    lemma_place_of(out, slug);
    if slug_ok(slug) && paths.len() > 0 {
        match place_of(out, slug) {
            Some(i) => {
                assert(sound(out[i]));
                lemma_united(out[i].paths, paths);
                let c = merged(out[i], it, paths);
                assert(sound(c));
                let all = out.update(i, c);
                assert forall|j: int| 0 <= j < all.len() implies sound(#[trigger] all[j]) by {
                    if j != i {
                        assert(sound(out[j]));
                    }
                }
            },
            None => {
                let c = fresh(it, slug, paths);
                assert(sound(c));
                let all = out.push(c);
                assert forall|j: int| 0 <= j < all.len() implies sound(#[trigger] all[j]) by {
                    if j < out.len() {
                        assert(sound(out[j]));
                    }
                }
            },
        }
    }
}

proof fn lemma_gathered(items: Seq<RawView>)
    ensures
        all_sound(gathered(items)),
        distinct_slugs(gathered(items)),
    decreases items.len(),
{
    if items.len() > 0 {
        lemma_gathered(items.drop_last());
        lemma_taken(gathered(items.drop_last()), items.last());
    }
}

proof fn lemma_ranked_members(l: Seq<FoundView>)
    requires
        all_sound(l),
        distinct_slugs(l),
    ensures
        all_sound(ranked(l)),
        distinct_slugs(ranked(l)),
        forall|c: FoundView| #[trigger] ranked(l).contains(c) <==> l.contains(c),
    decreases l.len(),
{
    if l.len() > 0 {
        let front = l.drop_last();
        let c = l.last();
        assert forall|i: int| 0 <= i < front.len() implies sound(#[trigger] front[i]) by {
            assert(sound(l[i]));
        }
        assert(distinct_slugs(front));
        lemma_ranked_members(front);
        let held = ranked(front);
        let k = rank_place(held, c, held.len() as int);
        lemma_rank_place(held, c, held.len() as int);
        let all = held.insert(k, c);
        assert(sound(l[l.len() - 1]));
        assert(all[k] == c);
        assert forall|i: int| 0 <= i < all.len() implies sound(#[trigger] all[i]) by {
            if i < k {
                assert(sound(held[i]));
            } else if i > k {
                assert(sound(held[i - 1]));
            }
        }
        assert forall|i: int| 0 <= i < held.len() implies (#[trigger] held[i]).slug != c.slug by {
            assert(held.contains(held[i]));
            assert(front.contains(held[i]));
            let j = choose|j: int| 0 <= j < front.len() && front[j] == held[i];
            assert(l[j].slug != l[l.len() - 1].slug);
        }
        assert forall|i: int, j: int|
            0 <= i < all.len() && 0 <= j < all.len() && i != j implies (#[trigger] all[i]).slug != (
        #[trigger] all[j]).slug by {
            let x = if i < k {
                i
            } else {
                i - 1
            };
            let y = if j < k {
                j
            } else {
                j - 1
            };
            if i != k {
                assert(all[i] == held[x]);
            }
            if j != k {
                assert(all[j] == held[y]);
            }
        }
        assert forall|x: FoundView| #[trigger] all.contains(x) <==> l.contains(x) by {
            if all.contains(x) && x != c {
                let i = choose|i: int| 0 <= i < all.len() && all[i] == x;
                let m = if i < k {
                    i
                } else {
                    i - 1
                };
                assert(held[m] == x);
                assert(held.contains(x));
                assert(front.contains(x));
                let j = choose|j: int| 0 <= j < front.len() && front[j] == x;
                assert(l[j] == x);
            }
            if l.contains(x) && x != c {
                let j = choose|j: int| 0 <= j < l.len() && l[j] == x;
                assert(front[j] == x);
                assert(front.contains(x));
                assert(held.contains(x));
                let m = choose|m: int| 0 <= m < held.len() && held[m] == x;
                if m < k {
                    assert(all[m] == x);
                } else {
                    assert(all[m + 1] == x);
                }
            }
            assert(l[l.len() - 1] == c);
        }
    } else {
        assert(ranked(l) =~= l);
    }
}

/// What a discovery yields can be worked on: between one and the most
/// components there may be, each with a valid slug that no other has, with safe
/// paths, a known tier and a priority, in the order of their priorities; and
/// no component that was left out stands before one that was kept.
pub proof fn law_discovery_is_usable(items: Seq<RawView>)
    requires
        normalized(items) is Ok,
    ensures
        ({
            let l = normalized(items)->Ok_0;
            &&& MIN_COMPONENTS <= l.len() <= MAX_COMPONENTS
            &&& all_sound(l)
            &&& distinct_slugs(l)
            &&& in_order(l)
            &&& forall|i: int, c: FoundView|
                #![trigger l[i], gathered(items).contains(c)]
                0 <= i < l.len() && gathered(items).contains(c) && !l.contains(c) ==> !ahead(
                    c,
                    l[i],
                )
        }),
{
    let all = gathered(items);
    lemma_gathered(items);
    law_ranked(all);
    lemma_ranked_members(all);
    let full = ranked(all);
    let l = normalized(items)->Ok_0;
    assert forall|i: int| 0 <= i < l.len() implies sound(#[trigger] l[i]) by {
        assert(l[i] == full[i]);
        assert(sound(full[i]));
    }
    assert forall|i: int, c: FoundView|
        #![trigger l[i], all.contains(c)]
        0 <= i < l.len() && all.contains(c) && !l.contains(c) implies !ahead(c, l[i]) by {
        assert(full.contains(c));
        let j = choose|j: int| 0 <= j < full.len() && full[j] == c;
        if j < l.len() {
            assert(l[j] == c);
        }
        assert(full[i] == l[i]);
    }
}

// ---------------------------------------------------------------------
// Laws of what is kept
// ---------------------------------------------------------------------

/// The proposal names the path, in its list or beside it, in some spelling that
/// is usable.
pub open spec fn names_path(it: RawView, p: Seq<char>) -> bool {
    ||| exists|k: int| 0 <= k < it.paths.len() && usable_path(#[trigger] it.paths[k]) == Some(p)
    ||| text::trimmed(it.path).len() > 0 && usable_path(it.path) == Some(p)
}

proof fn lemma_usable_members(ps: Seq<Seq<char>>, p: Seq<char>)
    ensures
        usable_paths(ps).contains(p) <==> exists|k: int|
            0 <= k < ps.len() && usable_path(#[trigger] ps[k]) == Some(p),
    decreases ps.len(),
{
    if ps.len() > 0 {
        let front = ps.drop_last();
        lemma_usable_members(front, p);
        let before = usable_paths(front);
        let all = usable_paths(ps);
        assert(ps[ps.len() - 1] == ps.last());
        if before.contains(p) {
            let k = choose|k: int| 0 <= k < front.len() && usable_path(#[trigger] front[k]) == Some(
                p,
            );
            assert(usable_path(ps[k]) == Some(p));
            let m = choose|m: int| 0 <= m < before.len() && before[m] == p;
            assert(all[m] == p);
        }
        if usable_path(ps.last()) == Some(p) && !before.contains(p) {
            assert(all[all.len() - 1] == p);
        }
        if all.contains(p) && !before.contains(p) {
            let m = choose|m: int| 0 <= m < all.len() && all[m] == p;
            if m < before.len() {
                assert(before[m] == p);
            }
            assert(usable_path(ps[ps.len() - 1]) == Some(p));
        }
        if exists|k: int| 0 <= k < ps.len() && usable_path(#[trigger] ps[k]) == Some(p) {
            let k = choose|k: int| 0 <= k < ps.len() && usable_path(#[trigger] ps[k]) == Some(p);
            if k < front.len() {
                assert(usable_path(front[k]) == Some(p));
            }
        }
    }
}

/// The usable paths of a proposal are exactly those that it names in a usable
/// spelling, each once.
pub proof fn law_usable_paths_of_a_proposal(it: RawView, p: Seq<char>)
    ensures
        usable_paths(all_paths(it)).contains(p) <==> names_path(it, p),
        usable_paths(all_paths(it)).no_duplicates(),
{
    let l = all_paths(it);
    lemma_usable_members(l, p);
    lemma_usable_paths(l);
    if exists|k: int| 0 <= k < l.len() && usable_path(#[trigger] l[k]) == Some(p) {
        let k = choose|k: int| 0 <= k < l.len() && usable_path(#[trigger] l[k]) == Some(p);
        if k < it.paths.len() {
            assert(usable_path(it.paths[k]) == Some(p));
        }
    }
    if names_path(it, p) {
        if exists|k: int| 0 <= k < it.paths.len() && usable_path(#[trigger] it.paths[k]) == Some(p) {
            let k = choose|k: int|
                0 <= k < it.paths.len() && usable_path(#[trigger] it.paths[k]) == Some(p);
            assert(usable_path(l[k]) == Some(p));
        } else {
            assert(usable_path(l[l.len() - 1]) == Some(p));
        }
    }
}

proof fn lemma_united_members(base: Seq<Seq<char>>, more: Seq<Seq<char>>, p: Seq<char>)
    ensures
        united(base, more).contains(p) <==> base.contains(p) || more.contains(p),
        united(base, more).len() >= base.len(),
        united(base, more).take(base.len() as int) == base,
    decreases more.len(),
{
    if more.len() > 0 {
        let front = more.drop_last();
        let before = united(base, front);
        let all = united(base, more);
        lemma_united_members(base, front, p);
        assert(more[more.len() - 1] == more.last());
        if front.contains(p) {
            let k = choose|k: int| 0 <= k < front.len() && front[k] == p;
            assert(more[k] == p);
        }
        if more.contains(p) && p != more.last() {
            let k = choose|k: int| 0 <= k < more.len() && more[k] == p;
            assert(front[k] == p);
        }
        if before.contains(p) {
            let k = choose|k: int| 0 <= k < before.len() && before[k] == p;
            assert(all[k] == p);
        }
        if !before.contains(more.last()) {
            assert(all[all.len() - 1] == more.last());
        }
        if all.contains(p) && !before.contains(p) {
            let k = choose|k: int| 0 <= k < all.len() && all[k] == p;
            if k < before.len() {
                assert(before[k] == p);
            }
        }
        assert(all.take(base.len() as int) =~= before.take(base.len() as int));
    } else {
        assert(base.take(base.len() as int) =~= base);
    }
}

/// A component that is proposed again keeps what it had: its paths in front of
/// the new ones, its name and its description; it gets every path of the
/// proposal, the stronger of the two tiers and no lower priority.
pub proof fn law_merging(c: FoundView, it: RawView, paths: Seq<Seq<char>>, p: Seq<char>)
    ensures
        ({
            let m = merged(c, it, paths);
            &&& m.paths.contains(p) <==> c.paths.contains(p) || paths.contains(p)
            &&& c.paths.len() <= m.paths.len() && m.paths.take(c.paths.len() as int) == c.paths
            &&& m.slug == c.slug && m.name == c.name && m.description == c.description
            &&& m.priority >= c.priority && m.priority >= it.priority
            &&& tier_of(it).place() >= checklist::rank_of(c.tier) ==> m.tier == c.tier && (
            m.priority == c.priority || m.priority == it.priority)
            &&& tier_of(it).place() < checklist::rank_of(c.tier) ==> m.tier == tier_of(it).word()
                && m.priority >= tier_of(it).floor() && (m.priority == c.priority || m.priority
                == it.priority || m.priority == tier_of(it).floor())
        }),
{
    lemma_united_members(c.paths, paths, p);
}

/// The proposal has the slug and is usable: it names some usable path.
pub open spec fn counts_for(it: RawView, slug: Seq<char>) -> bool {
    slug_of(it.slug, it.name, it.paths) == slug && slug_ok(slug) && exists|p: Seq<char>| #[trigger]
        names_path(it, p)
}

proof fn lemma_counts(it: RawView, slug: Seq<char>)
    ensures
        counts_for(it, slug) <==> slug_of(it.slug, it.name, it.paths) == slug && slug_ok(slug)
            && usable_paths(all_paths(it)).len() > 0,
{
    let u = usable_paths(all_paths(it));
    if u.len() > 0 {
        law_usable_paths_of_a_proposal(it, u[0]);
        assert(u.contains(u[0]));
        assert(names_path(it, u[0]));
    }
    if counts_for(it, slug) {
        let p = choose|p: Seq<char>| #[trigger] names_path(it, p);
        law_usable_paths_of_a_proposal(it, p);
    }
}

/// The proposal in this place counts for the component, and is the first that
/// does: it gives the name and the description.
pub open spec fn named_after(c: FoundView, items: Seq<RawView>, i: int) -> bool {
    &&& 0 <= i < items.len()
    &&& counts_for(items[i], c.slug)
    &&& c.name == name_of(items[i].name, c.slug)
    &&& c.description == text::trimmed(items[i].description)
    &&& forall|j: int| 0 <= j < i ==> !counts_for(#[trigger] items[j], c.slug)
}

/// The proposal in this place counts for the component and names the path.
pub open spec fn gives_path(c: FoundView, items: Seq<RawView>, p: Seq<char>, i: int) -> bool {
    0 <= i < items.len() && counts_for(items[i], c.slug) && names_path(items[i], p)
}

/// The proposal in this place counts for the component and has its tier.
pub open spec fn gives_tier(c: FoundView, items: Seq<RawView>, i: int) -> bool {
    0 <= i < items.len() && counts_for(items[i], c.slug) && c.tier == tier_of(items[i]).word()
}

/// The proposal in this place counts for the component and has its priority, or
/// the tier that the priority belongs to.
pub open spec fn gives_priority(c: FoundView, items: Seq<RawView>, i: int) -> bool {
    0 <= i < items.len() && counts_for(items[i], c.slug) && (c.priority == items[i].priority
        || c.priority == tier_of(items[i]).floor())
}

/// What a component is made of: the proposals of its slug, and nothing else.
pub open spec fn made_of(c: FoundView, items: Seq<RawView>) -> bool {
    &&& forall|p: Seq<char>| #[trigger]
        c.paths.contains(p) <==> exists|i: int| gives_path(c, items, p, i)
    &&& forall|i: int|
        0 <= i < items.len() && counts_for(#[trigger] items[i], c.slug) ==> c.priority
            >= items[i].priority && checklist::rank_of(c.tier) <= tier_of(items[i]).place()
    &&& exists|i: int| named_after(c, items, i)
    &&& exists|i: int| gives_tier(c, items, i)
    &&& exists|i: int| gives_priority(c, items, i)
}

pub open spec fn some_counts(items: Seq<RawView>, slug: Seq<char>) -> bool {
    exists|i: int| 0 <= i < items.len() && #[trigger] counts_for(items[i], slug)
}

proof fn lemma_tier_words(t: Tier)
    ensures
        checklist::rank_of(t.word()) == t.place(),
{
    reveal_strlit("high");
    reveal_strlit("medium");
    reveal_strlit("low");
    assert("high"@.len() == 4 && "medium"@.len() == 6 && "low"@.len() == 3);
}

proof fn lemma_made_other(c: FoundView, items: Seq<RawView>, it: RawView)
    requires
        made_of(c, items),
        !counts_for(it, c.slug),
    ensures
        made_of(c, items.push(it)),
{
    let all = items.push(it);
    assert forall|p: Seq<char>| #[trigger] c.paths.contains(p) <==> exists|i: int|
        gives_path(c, all, p, i) by {
        if c.paths.contains(p) {
            let i = choose|i: int| gives_path(c, items, p, i);
            assert(gives_path(c, all, p, i));
        }
        if exists|i: int| gives_path(c, all, p, i) {
            let i = choose|i: int| gives_path(c, all, p, i);
            assert(gives_path(c, items, p, i));
        }
    }
    assert forall|i: int| 0 <= i < all.len() && counts_for(#[trigger] all[i], c.slug) implies c.priority
        >= all[i].priority && checklist::rank_of(c.tier) <= tier_of(all[i]).place() by {
        assert(counts_for(items[i], c.slug));
    }
    lemma_still_named(c, c, items, it);
    let b = choose|i: int| gives_tier(c, items, i);
    assert(gives_tier(c, all, b));
    let d = choose|i: int| gives_priority(c, items, i);
    assert(gives_priority(c, all, d));
}

proof fn lemma_still_named(c: FoundView, m: FoundView, items: Seq<RawView>, it: RawView)
    requires
        exists|i: int| named_after(c, items, i),
        m.slug == c.slug,
        m.name == c.name,
        m.description == c.description,
    ensures
        exists|i: int| named_after(m, items.push(it), i),
{
    let all = items.push(it);
    let a = choose|i: int| named_after(c, items, i);
    assert forall|j: int| 0 <= j < a implies !counts_for(#[trigger] all[j], m.slug) by {
        assert(!counts_for(items[j], c.slug));
    }
    assert(named_after(m, all, a));
}

proof fn lemma_made_merged(c: FoundView, items: Seq<RawView>, it: RawView)
    requires
        made_of(c, items),
        counts_for(it, c.slug),
    ensures
        made_of(merged(c, it, usable_paths(all_paths(it))), items.push(it)),
{
    let all = items.push(it);
    let n = items.len() as int;
    let u = usable_paths(all_paths(it));
    let m = merged(c, it, u);
    assert(all[n] == it);
    assert forall|p: Seq<char>| #[trigger] m.paths.contains(p) <==> exists|i: int|
        gives_path(m, all, p, i) by {
        lemma_united_members(c.paths, u, p);
        law_usable_paths_of_a_proposal(it, p);
        if c.paths.contains(p) {
            let i = choose|i: int| gives_path(c, items, p, i);
            assert(gives_path(m, all, p, i));
        }
        if u.contains(p) {
            assert(gives_path(m, all, p, n));
        }
        if exists|i: int| gives_path(m, all, p, i) {
            let i = choose|i: int| gives_path(m, all, p, i);
            if i < n {
                assert(gives_path(c, items, p, i));
                assert(c.paths.contains(p));
            }
        }
    }
    lemma_tier_words(tier_of(it));
    assert forall|i: int| 0 <= i < all.len() && counts_for(#[trigger] all[i], m.slug) implies m.priority
        >= all[i].priority && checklist::rank_of(m.tier) <= tier_of(all[i]).place() by {
        if i < n {
            assert(counts_for(items[i], c.slug));
        }
    }
    lemma_still_named(c, m, items, it);
    let b = choose|i: int| gives_tier(c, items, i);
    assert(gives_tier(m, all, b) || gives_tier(m, all, n));
    let d = choose|i: int| gives_priority(c, items, i);
    assert(gives_priority(m, all, d) || gives_priority(m, all, n));
}

proof fn lemma_made_fresh(items: Seq<RawView>, it: RawView, slug: Seq<char>)
    requires
        counts_for(it, slug),
        !some_counts(items, slug),
    ensures
        made_of(fresh(it, slug, usable_paths(all_paths(it))), items.push(it)),
{
    let all = items.push(it);
    let n = items.len() as int;
    let u = usable_paths(all_paths(it));
    let c = fresh(it, slug, u);
    assert(all[n] == it);
    assert forall|i: int| 0 <= i < n implies !counts_for(#[trigger] all[i], slug) by {
        assert(!counts_for(items[i], slug));
    }
    assert forall|p: Seq<char>| #[trigger] c.paths.contains(p) <==> exists|i: int|
        gives_path(c, all, p, i) by {
        law_usable_paths_of_a_proposal(it, p);
        if c.paths.contains(p) {
            assert(gives_path(c, all, p, n));
        }
        if exists|i: int| gives_path(c, all, p, i) {
            let i = choose|i: int| gives_path(c, all, p, i);
            if i < n {
                assert(!counts_for(all[i], slug));
            }
        }
    }
    lemma_tier_words(tier_of(it));
    assert forall|i: int| 0 <= i < all.len() && counts_for(#[trigger] all[i], c.slug) implies c.priority
        >= all[i].priority && checklist::rank_of(c.tier) <= tier_of(all[i]).place() by {
        assert(i == n);
    }
    assert(named_after(c, all, n));
    assert(gives_tier(c, all, n));
    assert(gives_priority(c, all, n));
}

proof fn lemma_gathered_made(items: Seq<RawView>)
    ensures
        forall|k: int|
            0 <= k < gathered(items).len() ==> made_of(#[trigger] gathered(items)[k], items),
        forall|slug: Seq<char>| #[trigger]
            some_counts(items, slug) <==> exists|k: int|
                0 <= k < gathered(items).len() && (#[trigger] gathered(items)[k]).slug == slug,
    decreases items.len(),
{
    if items.len() > 0 {
        let front = items.drop_last();
        let it = items.last();
        let out = gathered(front);
        let now = gathered(items);
        lemma_gathered_made(front);
        lemma_gathered(front);
        assert(front.push(it) =~= items);
        let slug = slug_of(it.slug, it.name, it.paths);
        let u = usable_paths(all_paths(it));
        lemma_counts(it, slug);
        lemma_place_of(out, slug);
        let n = front.len() as int;
        assert forall|k: int| 0 <= k < now.len() implies made_of(#[trigger] now[k], items) by {
            if k < out.len() {
                assert(made_of(out[k], front));
                if counts_for(it, out[k].slug) {
                    assert(out[k].slug == slug);
                    let i = place_of(out, slug)->Some_0;
                    assert(out[i].slug == out[k].slug);
                    assert(i == k);
                    lemma_made_merged(out[k], front, it);
                } else {
                    lemma_made_other(out[k], front, it);
                    lemma_counts(it, out[k].slug);
                    assert(now[k] == out[k]);
                }
            } else {
                assert(!some_counts(front, slug)) by {
                    if some_counts(front, slug) {
                        let j = choose|j: int|
                            0 <= j < out.len() && (#[trigger] out[j]).slug == slug;
                        assert(out[j].slug == slug);
                    }
                }
                lemma_made_fresh(front, it, slug);
            }
        }
        assert forall|s: Seq<char>| #[trigger] some_counts(items, s) <==> exists|k: int|
            0 <= k < now.len() && (#[trigger] now[k]).slug == s by {
            lemma_counts(it, s);
            if some_counts(items, s) {
                let i = choose|i: int| 0 <= i < items.len() && #[trigger] counts_for(items[i], s);
                if i < n {
                    assert(counts_for(front[i], s));
                    assert(some_counts(front, s));
                    let k = choose|k: int| 0 <= k < out.len() && (#[trigger] out[k]).slug == s;
                    assert(now[k].slug == s);
                } else {
                    assert(s == slug);
                    match place_of(out, slug) {
                        Some(k) => {
                            assert(now[k].slug == s);
                        },
                        None => {
                            assert(now[now.len() - 1].slug == s);
                        },
                    }
                }
            }
            if exists|k: int| 0 <= k < now.len() && (#[trigger] now[k]).slug == s {
                let k = choose|k: int| 0 <= k < now.len() && (#[trigger] now[k]).slug == s;
                if k < out.len() {
                    assert(out[k].slug == s);
                    assert(some_counts(front, s));
                    let i = choose|i: int| 0 <= i < front.len() && #[trigger] counts_for(front[i], s);
                    assert(counts_for(items[i], s));
                } else {
                    assert(counts_for(items[n], s));
                }
            }
        }
    }
}

/// No usable path is lost and none is invented: a path is one of a component's
/// exactly where a usable proposal whose slug is the component's names it. The
/// component has the name and the description of the first such proposal, the
/// strongest of their tiers, and no lower priority than any of them asks for.
/// Every slug that a usable proposal has is that of a component, and no other.
pub proof fn law_nothing_proposed_is_lost(items: Seq<RawView>, c: FoundView, slug: Seq<char>)
    ensures
        gathered(items).contains(c) ==> made_of(c, items),
        some_counts(items, slug) <==> exists|k: int|
            0 <= k < gathered(items).len() && (#[trigger] gathered(items)[k]).slug == slug,
        normalized(items) matches Ok(l) ==> l.contains(c) ==> made_of(c, items),
{
    let all = gathered(items);
    lemma_gathered_made(items);
    lemma_gathered(items);
    lemma_ranked_members(all);
    if all.contains(c) {
        let k = choose|k: int| 0 <= k < all.len() && all[k] == c;
        assert(made_of(all[k], items));
    }
    if let Ok(l) = normalized(items) {
        if l.contains(c) {
            let k = choose|k: int| 0 <= k < l.len() && l[k] == c;
            assert(ranked(all)[k] == c);
            assert(ranked(all).contains(c));
            assert(all.contains(c));
            let m = choose|m: int| 0 <= m < all.len() && all[m] == c;
            assert(made_of(all[m], items));
        }
    }
}

/// As many components are kept as there may be: all of them, or the forty that
/// stand first, ordered by priority and then by slug; a discovery without a
/// usable proposal fails and says so.
pub proof fn law_discoveries_are_capped(items: Seq<RawView>)
    ensures
        normalized(items) is Err <==> gathered(items).len() == 0,
        normalized(items) matches Err(n) ==> n == gathered(items).len(),
        normalized(items) matches Ok(l) ==> l.len() == (if gathered(items).len() <= 40 {
            gathered(items).len()
        } else {
            40
        }),
        normalized(items) matches Ok(l) ==> forall|i: int|
            0 <= i < l.len() ==> gathered(items).contains(#[trigger] l[i]),
        normalized(items) matches Ok(l) ==> forall|i: int, j: int|
            0 <= i < j < l.len() ==> (#[trigger] l[i]).priority >= (#[trigger] l[j]).priority && (
            l[i].priority == l[j].priority ==> text::before(l[i].slug, l[j].slug)),
{
    let all = gathered(items);
    lemma_gathered(items);
    law_ranked(all);
    lemma_ranked_members(all);
    if let Ok(l) = normalized(items) {
        let full = ranked(all);
        assert forall|i: int| 0 <= i < l.len() implies all.contains(#[trigger] l[i]) by {
            assert(full[i] == l[i]);
            assert(full.contains(full[i]));
        }
        assert forall|i: int, j: int| 0 <= i < j < l.len() implies (#[trigger] l[i]).priority >= (
        #[trigger] l[j]).priority && (l[i].priority == l[j].priority ==> text::before(
            l[i].slug,
            l[j].slug,
        )) by {
            assert(full[i] == l[i] && full[j] == l[j]);
            assert(!ahead(full[j], full[i]));
            assert(full[i].slug != full[j].slug);
            text::lemma_before_total(l[i].slug, l[j].slug);
        }
    }
}

/// Every proposal is accounted for: it adds a component or a remark.
pub proof fn law_every_proposal_is_accounted_for(items: Seq<RawView>)
    ensures
        gathered(items).len() + remarked(items).len() == items.len(),
    decreases items.len(),
{
    if items.len() > 0 {
        law_every_proposal_is_accounted_for(items.drop_last());
        law_no_proposal_is_lost_in_silence(gathered(items.drop_last()), items.last());
        lemma_place_of(
            gathered(items.drop_last()),
            slug_of(items.last().slug, items.last().name, items.last().paths),
        );
    }
}

/// What is said of a proposal: that its slug is bad, that it has no usable path,
/// or that it was merged, and with how many paths.
pub proof fn law_remarks(out: Seq<FoundView>, it: RawView)
    ensures
        ({
            let slug = slug_of(it.slug, it.name, it.paths);
            let paths = usable_paths(all_paths(it));
            &&& !slug_ok(slug) <==> remark_on(out, it) == Some(
                Remark::BadSlug { slug: it.slug, name: it.name },
            )
            &&& slug_ok(slug) && paths.len() == 0 <==> remark_on(out, it) == Some(
                Remark::NoPaths { slug },
            )
            &&& slug_ok(slug) && paths.len() > 0 && (exists|k: int|
                0 <= k < out.len() && (#[trigger] out[k]).slug == slug) <==> remark_on(out, it)
                == Some(Remark::Merged { slug, paths: paths.len() as usize })
        }),
{
    lemma_place_of(out, slug_of(it.slug, it.name, it.paths));
}

/// A fresh component has what its proposal says: its own name on one line or
/// else the slug, its tier, and the priority that it asks for or else that of
/// the tier.
pub proof fn law_fresh_components(it: RawView, slug: Seq<char>, paths: Seq<Seq<char>>)
    ensures
        ({
            let c = fresh(it, slug, paths);
            &&& c.slug == slug && c.paths == paths
            &&& c.description == text::trimmed(it.description)
            &&& text::trimmed(it.name).len() == 0 ==> c.name == slug
            &&& text::trimmed(it.name).len() > 0 && !text::has_char(
                text::trimmed(it.name),
                CharSet::LineEnd,
            ) ==> c.name == text::trimmed(it.name)
            &&& it.priority > 0 ==> c.priority == it.priority
            &&& it.priority == 0 ==> c.priority == tier_of(it).floor()
            &&& c.tier == tier_of(it).word()
        }),
{
    text::law_replacing(text::trimmed(it.name), Seq::empty(), ' ', CharSet::LineEnd, " "@);
}

/// Strings in a list are taken as they are and in their order, and everything
/// else in it is remarked on.
pub proof fn law_strings_of_a_list(l: Seq<JsonView>)
    ensures
        strings(l) == l.filter(|v: JsonView| v is Text).map_values(|v: JsonView| v->Text_0),
        strings(l).len() + dropped_entries(l).len() == l.len(),
        proposed_paths(JsonView::List(l)) == strings(l),
        path_notes(JsonView::List(l)) == dropped_entries(l),
    decreases l.len(),
{
    reveal(Seq::filter);
    let f = |v: JsonView| v is Text;
    let g = |v: JsonView| v->Text_0;
    if l.len() > 0 {
        law_strings_of_a_list(l.drop_last());
        let before = l.drop_last().filter(f);
        if l.last() is Text {
            assert(before.push(l.last()).map_values(g) =~= before.map_values(g).push(g(l.last())));
        }
    }
    assert(strings(l) =~= l.filter(f).map_values(g));
}

/// A single string is one path; a value that is neither a string nor a list
/// proposes none and is remarked on, unless it is null. Commands are taken from
/// lists only.
pub proof fn law_proposed_values(v: JsonView, s: Seq<char>, o: JsonView, key: Seq<char>)
    ensures
        proposed_paths(JsonView::Text(s)) == seq![s],
        path_notes(JsonView::Text(s)).len() == 0,
        !(v is Text) && !(v is List) ==> proposed_paths(v).len() == 0,
        !(v is Text) && !(v is List) ==> (path_notes(v).len() == 0 <==> v is Null),
        o.member(key) matches Some(JsonView::List(l)) ==> named_commands(o, key) == strings(l),
        !(o.member(key) matches Some(JsonView::List(_))) ==> named_commands(o, key).len() == 0,
{
}

/// The slug of a proposal is its own where that is valid, else that of its first
/// path, else that of its name; it is valid or empty.
pub proof fn law_slugs(slug: Seq<char>, name: Seq<char>, paths: Seq<Seq<char>>)
    ensures
        ({
            let s = slug_of(slug, name, paths);
            &&& s.len() == 0 || slug_ok(s)
            &&& slug_ok(text_slug(slug)) ==> s == text_slug(slug)
            &&& !slug_ok(text_slug(slug)) && paths.len() > 0 && slug_ok(stem_slug(paths[0]))
                && stem_slug(paths[0]) != "main"@ ==> s == stem_slug(paths[0])
            &&& !slug_ok(text_slug(slug)) && (paths.len() == 0 || !slug_ok(stem_slug(paths[0]))
                || stem_slug(paths[0]) == "main"@) && slug_ok(text_slug(name)) ==> s == text_slug(
                name,
            )
        }),
        text_slug(name) == text::joined(
            text::pieces(
                text::lowercase(text::trimmed(name)),
                CharSet::WordBreak,
            ).filter(|p: Seq<char>| p.len() > 0),
            "-"@,
        ),
{
}

/// A valid slug: up to 64 small letters, digits and single hyphens, with a
/// letter or digit at both ends; and everything of this kind is one.
pub proof fn law_valid_slugs(s: Seq<char>)
    ensures
        slug_ok(s) <==> {
            &&& 1 <= s.len() <= 64
            &&& forall|i: int|
                0 <= i < s.len() ==> 'a' <= #[trigger] s[i] <= 'z' || '0' <= s[i] <= '9' || (s[i]
                    == '-' && 0 < i < s.len() - 1 && s[i + 1] != '-')
        },
{
    if slug_ok(s) {
        assert forall|i: int| 0 <= i < s.len() implies 'a' <= #[trigger] s[i] <= 'z' || '0' <= s[i]
            <= '9' || (s[i] == '-' && 0 < i < s.len() - 1 && s[i + 1] != '-') by {
            assert(slug_char(s[i]));
        }
    }
    if 1 <= s.len() <= 64 && forall|i: int|
        0 <= i < s.len() ==> 'a' <= #[trigger] s[i] <= 'z' || '0' <= s[i] <= '9' || (s[i] == '-'
            && 0 < i < s.len() - 1 && s[i + 1] != '-') {
        assert forall|i: int| 0 <= i < s.len() implies slug_char(#[trigger] s[i]) by {}
        assert(s[s.len() - 1] == s.last());
    }
}

/// A path that is safe and in the one spelling already is taken as it is.
pub proof fn law_safe_paths_are_taken(p: Seq<char>)
    requires
        safe_path(p),
        text::trimmed(p) == p,
        !text::has_char(p, CharSet::One('\\')),
    ensures
        usable_path(p) == Some(p),
{
    reveal_strlit("/");
    let segs = text::pieces(p, CharSet::One('/'));
    lemma_same_pieces(p);
    lemma_all_kept(segs);
    text::law_pieces_join_back(p, '/');
    assert(seq!['/'] =~= "/"@);
    assert(segments(p, CharSet::Slash) == segs);
    if segs.contains(".."@) {
        let i = choose|i: int| 0 <= i < segs.len() && segs[i] == ".."@;
        assert(segs[i] != ".."@);
    }
    if p.len() > 0 && CharSet::Slash.has(p[0]) {
        assert(p[0] == '/') by {
            assert(!CharSet::One('\\').has(p[0]));
        }
        lemma_leading_slash(p);
        assert(segs[0].len() > 0);
    }
}

proof fn lemma_same_pieces(p: Seq<char>)
    requires
        !text::has_char(p, CharSet::One('\\')),
    ensures
        text::pieces(p, CharSet::Slash) == text::pieces(p, CharSet::One('/')),
    decreases p.len(),
{
    if p.len() > 0 {
        assert(!CharSet::One('\\').has(p[p.len() - 1]));
        let front = p.drop_last();
        assert forall|i: int| 0 <= i < front.len() implies !CharSet::One('\\').has(
            #[trigger] front[i],
        ) by {
            assert(!CharSet::One('\\').has(p[i]));
        }
        lemma_same_pieces(front);
    }
}

proof fn lemma_all_kept(ps: Seq<Seq<char>>)
    requires
        forall|i: int| 0 <= i < ps.len() ==> (#[trigger] ps[i]).len() > 0 && ps[i] != "."@,
    ensures
        ps.filter(|s: Seq<char>| s.len() > 0 && s != "."@) == ps,
    decreases ps.len(),
{
    reveal(Seq::filter);
    if ps.len() > 0 {
        let front = ps.drop_last();
        assert forall|i: int| 0 <= i < front.len() implies (#[trigger] front[i]).len() > 0
            && front[i] != "."@ by {
            assert(front[i] == ps[i]);
        }
        lemma_all_kept(front);
        assert(ps[ps.len() - 1].len() > 0);
        assert(front.push(ps.last()) =~= ps);
    } else {
        assert(ps.filter(|s: Seq<char>| s.len() > 0 && s != "."@) =~= ps);
    }
}

proof fn lemma_leading_slash(p: Seq<char>)
    requires
        p.len() > 0,
        p[0] == '/',
    ensures
        text::pieces(p, CharSet::One('/')).len() > 1,
        text::pieces(p, CharSet::One('/'))[0].len() == 0,
    decreases p.len(),
{
    let e = Seq::<char>::empty();
    if p.len() == 1 {
        assert(p.drop_last() =~= e);
        assert(text::pieces(e, CharSet::One('/')) =~= seq![e]);
    } else {
        lemma_leading_slash(p.drop_last());
    }
}

/// What leads out of the repository is refused: an absolute path, one on a
/// drive, and one with a step upwards in it; so is what the checklist cannot
/// carry.
pub proof fn law_paths_that_are_refused(p: Seq<char>)
    ensures
        text::trimmed(p).len() == 0 ==> usable_path(p) is None,
        text::trimmed(p).len() > 0 && (text::trimmed(p)[0] == '/' || text::trimmed(p)[0] == '\\')
            ==> usable_path(p) is None,
        text::pieces(text::trimmed(p), CharSet::Slash).contains(".."@) ==> usable_path(p) is None,
        usable_path(p) matches Some(q) ==> !text::has_char(q, CharSet::One(','))
            && !text::has_char(q, CharSet::Control),
{
    reveal_strlit(".");
    reveal_strlit("..");
    let raw = text::trimmed(p);
    let ps = text::pieces(raw, CharSet::Slash);
    let keep = |s: Seq<char>| s.len() > 0 && s != "."@;
    if raw.len() == 0 {
        assert(ps =~= seq![Seq::<char>::empty()]);
        lemma_none_kept(ps);
    }
    if ps.contains(".."@) {
        assert("."@.len() == 1 && ".."@.len() == 2);
        lemma_kept_stays(ps, ".."@);
    }
}

proof fn lemma_none_kept(ps: Seq<Seq<char>>)
    requires
        forall|i: int| 0 <= i < ps.len() ==> (#[trigger] ps[i]).len() == 0,
    ensures
        ps.filter(|s: Seq<char>| s.len() > 0 && s != "."@).len() == 0,
    decreases ps.len(),
{
    reveal(Seq::filter);
    if ps.len() > 0 {
        assert(ps[ps.len() - 1].len() == 0);
        let front = ps.drop_last();
        assert forall|i: int| 0 <= i < front.len() implies (#[trigger] front[i]).len() == 0 by {
            assert(front[i] == ps[i]);
        }
        lemma_none_kept(front);
    }
}

proof fn lemma_kept_stays(ps: Seq<Seq<char>>, s: Seq<char>)
    requires
        ps.contains(s),
        s.len() > 0,
        s != "."@,
    ensures
        ps.filter(|x: Seq<char>| x.len() > 0 && x != "."@).contains(s),
    decreases ps.len(),
{
    reveal(Seq::filter);
    let keep = |x: Seq<char>| x.len() > 0 && x != "."@;
    let front = ps.drop_last();
    let l = ps.filter(keep);
    if ps.last() == s {
        assert(l[l.len() - 1] == s);
    } else {
        let i = choose|i: int| 0 <= i < ps.len() && ps[i] == s;
        assert(front[i] == s);
        lemma_kept_stays(front, s);
        let before = front.filter(keep);
        let k = choose|k: int| 0 <= k < before.len() && before[k] == s;
        assert(l[k] == s);
    }
}

/// A result without components is told with what it is.
pub proof fn law_missing_components_in_words(v: JsonView)
    ensures
        missing_text(v) == "discovery result missing \"components\" key: "@ + json::json_text(v),
{
}

} // verus!
