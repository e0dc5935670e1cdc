//! The component checklist: a markdown file with one item per component,
//! grouped under tier headings.
//!
//! ```text
//! # Checklist
//!
//! ## high
//! - [ ] my-slug — Human Name
//!   paths: src/foo.rs, src/foo/
//!   verify: <the command that checks this slice>
//! - [x] done-slug — Already Done
//!   paths: src/done.rs
//! ```

use vstd::prelude::*;
use crate::discover;
use crate::discover::valid_slug;
use crate::text;
use crate::text::{
    copied, debug, debug_list, drop_empty, lines_of, owned, same, split, split_once, strip_prefix,
    to_lower, trim, CharSet, Draft,
};

verus! {

/// One slice of the repository that is reviewed on its own.
#[derive(Debug, Clone)]
pub struct Component {
    pub slug: String,
    pub name: String,
    pub tier: String,
    pub done: bool,
    pub paths: Vec<String>,
    /// Commands that check this component; none means the repository-wide list.
    pub verify: Vec<String>,
}

/// The contents of a [`Component`].
pub struct ComponentView {
    pub slug: Seq<char>,
    pub name: Seq<char>,
    pub tier: Seq<char>,
    pub done: bool,
    pub paths: Seq<Seq<char>>,
    pub verify: Seq<Seq<char>>,
}

impl View for Component {
    type V = ComponentView;

    open spec fn view(&self) -> ComponentView {
        ComponentView {
            slug: self.slug@,
            name: self.name@,
            tier: self.tier@,
            done: self.done,
            paths: text::texts(self.paths@),
            verify: text::texts(self.verify@),
        }
    }
}

/// The contents of a list of components.
pub open spec fn views(cs: Seq<Component>) -> Seq<ComponentView> {
    cs.map_values(|c: Component| c@)
}

impl Component {
    /// An open component without paths; its tier in lower case.
    pub fn new(slug: &str, name: &str, tier: &str) -> (r: Component)
        ensures
            r@ == (ComponentView {
                slug: slug@,
                name: name@,
                tier: text::lowercase(tier@),
                done: false,
                paths: Seq::empty(),
                verify: Seq::empty(),
            }),
    {
        let r = Component {
            slug: owned(slug),
            name: owned(name),
            tier: to_lower(tier),
            done: false,
            paths: Vec::new(),
            verify: Vec::new(),
        };
        assert(text::texts(r.paths@) =~= Seq::empty());
        assert(text::texts(r.verify@) =~= Seq::empty());
        r
    }

    /// A component with the same contents.
    pub fn duplicate(&self) -> (r: Component)
        ensures
            r@ == self@,
    {
        Component {
            slug: self.slug.clone(),
            name: self.name.clone(),
            tier: self.tier.clone(),
            done: self.done,
            paths: copied(&self.paths),
            verify: copied(&self.verify),
        }
    }
}

/// Review priority band.
#[derive(Debug, Clone, Copy, PartialEq, Eq, Structural)]
pub enum Tier {
    High,
    Medium,
    Low,
}

/// The tier that a word names; every unknown word names the middle one.
pub open spec fn tier_named(word: Seq<char>) -> Tier {
    if word == "high"@ {
        Tier::High
    } else if word == "low"@ {
        Tier::Low
    } else {
        Tier::Medium
    }
}

impl Tier {
    pub open spec fn word(self) -> Seq<char> {
        match self {
            Tier::High => "high"@,
            Tier::Medium => "medium"@,
            Tier::Low => "low"@,
        }
    }

    pub open spec fn place(self) -> nat {
        match self {
            Tier::High => 0,
            Tier::Medium => 1,
            Tier::Low => 2,
        }
    }

    pub open spec fn floor(self) -> u32 {
        match self {
            Tier::High => 100,
            Tier::Medium => 50,
            Tier::Low => 10,
        }
    }

    /// The tier named by `s`, whatever its case and the space around it.
    pub fn parse(s: &str) -> (r: Tier)
        ensures
            r == tier_named(text::lowercase(text::trimmed(s@))),
    {
        let word: String = to_lower(trim(s));
        if same(word.as_str(), "high") {
            Tier::High
        } else if same(word.as_str(), "low") {
            Tier::Low
        } else {
            Tier::Medium
        }
    }

    pub fn as_str(self) -> (r: &'static str)
        ensures
            r@ == self.word(),
    {
        match self {
            Tier::High => "high",
            Tier::Medium => "medium",
            Tier::Low => "low",
        }
    }

    /// Sort key: 0 is the highest priority.
    pub fn rank(self) -> (r: usize)
        ensures
            r == self.place(),
    {
        match self {
            Tier::High => 0,
            Tier::Medium => 1,
            Tier::Low => 2,
        }
    }

    /// High is stronger than medium, and medium is stronger than low.
    pub fn is_stronger_than(self, other: Tier) -> (r: bool)
        ensures
            r == (self.place() < other.place()),
    {
        self.rank() < other.rank()
    }

    /// The priority of a component that was proposed without one.
    pub fn default_priority(self) -> (r: u32)
        ensures
            r == self.floor(),
    {
        match self {
            Tier::High => 100,
            Tier::Medium => 50,
            Tier::Low => 10,
        }
    }
}

/// The place of a tier heading: the known tiers by priority, all others last.
pub open spec fn rank_of(tier: Seq<char>) -> nat {
    if tier == "high"@ {
        0
    } else if tier == "medium"@ {
        1
    } else if tier == "low"@ {
        2
    } else {
        3
    }
}

/// The rank of a tier string: 0 is highest, unknown tiers come last.
pub fn tier_rank(tier: &str) -> (r: usize)
    ensures
        r == rank_of(tier@),
{
    if same(tier, "high") {
        Tier::High.rank()
    } else if same(tier, "medium") {
        Tier::Medium.rank()
    } else if same(tier, "low") {
        Tier::Low.rank()
    } else {
        3
    }
}

/// The names of the known tiers, highest first.
pub open spec fn tier_words() -> Seq<Seq<char>> {
    seq!["high"@, "medium"@, "low"@]
}

/// The names of the known tiers, highest first.
pub fn tiers() -> (r: Vec<String>)
    ensures
        text::texts(r@) == tier_words(),
{
    let mut r: Vec<String> = Vec::new();
    r.push(owned(Tier::High.as_str()));
    r.push(owned(Tier::Medium.as_str()));
    r.push(owned(Tier::Low.as_str()));
    assert(text::texts(r@) =~= seq!["high"@, "medium"@, "low"@]);
    r
}

// ---------------------------------------------------------------------
// Reading
// ---------------------------------------------------------------------

/// What one line of a checklist says. `T` is the type of the texts in it, `L`
/// that of lists of texts.
#[derive(Debug)]
pub enum Line<T, L> {
    /// Nothing: the line is blank.
    Blank,
    /// A heading: the items below belong to this tier.
    Heading { tier: T },
    /// The paths of the item above.
    Paths { list: L },
    /// A command that checks the item above, or nothing.
    Verify { command: T },
    /// An item.
    Item { done: bool, slug: T, name: T },
    /// An item whose slug is not valid.
    BadSlug { slug: T },
    /// Anything else.
    Other,
}

impl View for Line<String, Vec<String>> {
    type V = Line<Seq<char>, Seq<Seq<char>>>;

    open spec fn view(&self) -> Line<Seq<char>, Seq<Seq<char>>> {
        match *self {
            Line::Blank => Line::Blank,
            Line::Heading { tier } => Line::Heading { tier: tier@ },
            Line::Paths { list } => Line::Paths { list: text::texts(list@) },
            Line::Verify { command } => Line::Verify { command: command@ },
            Line::Item { done, slug, name } => Line::Item { done, slug: slug@, name: name@ },
            Line::BadSlug { slug } => Line::BadSlug { slug: slug@ },
            Line::Other => Line::Other,
        }
    }
}

/// The comma-separated parts of `s`, trimmed, without the empty ones.
pub open spec fn path_list(s: Seq<char>) -> Seq<Seq<char>> {
    text::filled(
        text::pieces(s, CharSet::One(',')).map_values(|p: Seq<char>| text::trimmed(p)),
    )
}

/// Slug and name of an item: what stands around the first ` — `, or else
/// around the first ` - `; without either the whole is the slug.
pub open spec fn slug_and_name(body: Seq<char>) -> (Seq<char>, Seq<char>) {
    match text::cut_at(body, " — "@) {
        Some((a, b)) => (text::trimmed(a), text::trimmed(b)),
        None => match text::cut_at(body, " - "@) {
            Some((a, b)) => (text::trimmed(a), text::trimmed(b)),
            None => (body, Seq::empty()),
        },
    }
}

/// What stands behind `- [` of a trimmed line.
pub open spec fn read_item(rest: Seq<char>) -> Line<Seq<char>, Seq<Seq<char>>> {
    if rest.len() >= 2 && (rest[0] == ' ' || rest[0] == 'x' || rest[0] == 'X') && rest[1] == ']' {
        let (slug, name) = slug_and_name(text::trimmed(rest.skip(2)));
        if slug.len() == 0 {
            Line::Other
        } else if !discover::slug_ok(slug) {
            Line::BadSlug { slug }
        } else {
            Line::Item { done: rest[0] != ' ', slug, name }
        }
    } else {
        Line::Other
    }
}

/// What a line says.
pub open spec fn read_line(line: Seq<char>) -> Line<Seq<char>, Seq<Seq<char>>> {
    let t = text::trimmed(line);
    if t.len() == 0 {
        Line::Blank
    } else if text::begins(t, "## "@) {
        Line::Heading { tier: text::lowercase(text::trimmed(t.skip(3))) }
    } else if text::begins(t, "paths:"@) {
        Line::Paths { list: path_list(t.skip(6)) }
    } else if text::begins(t, "verify:"@) {
        Line::Verify { command: text::trimmed(t.skip(7)) }
    } else if text::begins(t, "- ["@) {
        read_item(t.skip(3))
    } else {
        Line::Other
    }
}

fn trim_all(parts: Vec<String>) -> (r: Vec<String>)
    ensures
        text::texts(r@) == text::texts(parts@).map_values(|p: Seq<char>| text::trimmed(p)),
{
    let mut r: Vec<String> = Vec::new();
    let mut i: usize = 0;
    while i < parts.len()
        invariant
            i <= parts.len(),
            r.len() == i,
            forall|j: int| 0 <= j < i ==> (#[trigger] r@[j])@ == text::trimmed(parts@[j]@),
        decreases parts.len() - i,
    {
        r.push(owned(trim(parts[i].as_str())));
        i = i + 1;
    }
    assert(text::texts(r@) =~= text::texts(parts@).map_values(|p: Seq<char>| text::trimmed(p)));
    r
}

fn read_item_line(rest: &str) -> (r: Line<String, Vec<String>>)
    ensures
        r@ == read_item(rest@),
{
    let n: usize = rest.unicode_len();
    if n < 2 {
        return Line::Other;
    }
    let marker: char = rest.get_char(0);
    if !(marker == ' ' || marker == 'x' || marker == 'X') || rest.get_char(1) != ']' {
        return Line::Other;
    }
    let after: &str = rest.substring_char(2, n);
    assert(after@ =~= rest@.skip(2));
    let body: &str = trim(after);
    let (slug, name): (&str, &str) = match split_once(body, " — ") {
        Some((a, b)) => (trim(a), trim(b)),
        None => match split_once(body, " - ") {
            Some((a, b)) => (trim(a), trim(b)),
            None => (body, ""),
        },
    };
    proof {
        reveal_strlit("");
        assert(""@ =~= Seq::<char>::empty());
        assert(slug_and_name(text::trimmed(rest@.skip(2))) == (slug@, name@));
    }
    if slug.is_empty() {
        Line::Other
    } else if !valid_slug(slug) {
        Line::BadSlug { slug: owned(slug) }
    } else {
        Line::Item { done: marker != ' ', slug: owned(slug), name: owned(name) }
    }
}

/// What a line of a checklist says.
pub fn classify(line: &str) -> (r: Line<String, Vec<String>>)
    ensures
        r@ == read_line(line@),
{
    proof {
        reveal_strlit("## ");
        reveal_strlit("paths:");
        reveal_strlit("verify:");
        reveal_strlit("- [");
    }
    let t: &str = trim(line);
    if t.is_empty() {
        return Line::Blank;
    }
    if let Some(h) = strip_prefix(t, "## ") {
        return Line::Heading { tier: to_lower(trim(h)) };
    }
    if let Some(rest) = strip_prefix(t, "paths:") {
        return Line::Paths { list: drop_empty(trim_all(split(rest, CharSet::One(',')))) };
    }
    if let Some(rest) = strip_prefix(t, "verify:") {
        return Line::Verify { command: owned(trim(rest)) };
    }
    if let Some(rest) = strip_prefix(t, "- [") {
        return read_item_line(rest);
    }
    Line::Other
}

/// Why a checklist could not be read or written. `T` is the type of the texts
/// in it, `C` that of components.
#[derive(Debug)]
pub enum ChecklistError<T, C> {
    /// The file does not exist.
    NotFound,
    /// The file has content, but no component in it.
    NoComponents,
    /// An item has a slug that is not valid.
    InvalidSlug { slug: T },
    /// There is nothing to write.
    Empty,
    /// There is nothing to save.
    SaveEmpty,
    /// Slug, name or tier has a line break in it.
    LineBreak { slug: T },
    /// The slug has a separator in it.
    Separator { component: C },
    /// The tier is blank.
    EmptyTier { slug: T },
    /// A path has a line break in it.
    PathLineBreak { slug: T, path: T },
    /// A path has a comma in it.
    PathComma { slug: T, path: T },
    /// A command has a line break in it.
    VerifyLineBreak { slug: T, command: T },
}

pub type Fault = ChecklistError<String, Component>;

pub type FaultView = ChecklistError<Seq<char>, ComponentView>;

impl View for ChecklistError<String, Component> {
    type V = ChecklistError<Seq<char>, ComponentView>;

    open spec fn view(&self) -> ChecklistError<Seq<char>, ComponentView> {
        match *self {
            ChecklistError::NotFound => ChecklistError::NotFound,
            ChecklistError::NoComponents => ChecklistError::NoComponents,
            ChecklistError::InvalidSlug { slug } => ChecklistError::InvalidSlug { slug: slug@ },
            ChecklistError::Empty => ChecklistError::Empty,
            ChecklistError::SaveEmpty => ChecklistError::SaveEmpty,
            ChecklistError::LineBreak { slug } => ChecklistError::LineBreak { slug: slug@ },
            ChecklistError::Separator { component } => ChecklistError::Separator {
                component: component@,
            },
            ChecklistError::EmptyTier { slug } => ChecklistError::EmptyTier { slug: slug@ },
            ChecklistError::PathLineBreak { slug, path } => ChecklistError::PathLineBreak {
                slug: slug@,
                path: path@,
            },
            ChecklistError::PathComma { slug, path } => ChecklistError::PathComma {
                slug: slug@,
                path: path@,
            },
            ChecklistError::VerifyLineBreak { slug, command } => ChecklistError::VerifyLineBreak {
                slug: slug@,
                command: command@,
            },
        }
    }
}

/// A component as it is printed for debugging.
pub open spec fn component_text(c: ComponentView) -> Seq<char> {
    "Component { slug: "@ + text::debug_text(c.slug) + ", name: "@ + text::debug_text(c.name)
        + ", tier: "@ + text::debug_text(c.tier) + ", done: "@ + (if c.done {
        "true"@
    } else {
        "false"@
    }) + ", paths: "@ + text::debug_list_text(c.paths) + ", verify: "@ + text::debug_list_text(
        c.verify,
    ) + " }"@
}

fn print_component(c: &Component) -> (r: String)
    ensures
        r@ == component_text(c@),
{
    Draft::of("Component { slug: ").put(debug(c.slug.as_str()).as_str()).put(", name: ").put(
        debug(c.name.as_str()).as_str(),
    ).put(", tier: ").put(debug(c.tier.as_str()).as_str()).put(", done: ").put(
        if c.done {
            "true"
        } else {
            "false"
        },
    ).put(", paths: ").put(debug_list(&c.paths).as_str()).put(", verify: ").put(
        debug_list(&c.verify).as_str(),
    ).put(" }").text
}

impl ChecklistError<Seq<char>, ComponentView> {
    /// The fault in words, for the checklist file at `path`.
    pub open spec fn words(self, path: Seq<char>) -> Seq<char> {
        match self {
            ChecklistError::NotFound => "checklist not found at "@ + path
                + " — run `gaggle init` first"@,
            ChecklistError::NoComponents => "checklist at "@ + path
                + " has content but no parseable components — refusing to treat it as empty (that would wipe recorded component progress)"@,
            ChecklistError::InvalidSlug { slug } => "invalid checklist slug "@ + text::debug_text(
                slug,
            )
                + " — lowercase a-z0-9 hyphen-joined segments (e.g. `loop-engine`)"@,
            ChecklistError::Empty =>
                "cannot render an empty checklist — would produce a header-only file"@,
            ChecklistError::SaveEmpty =>
                "cannot save an empty checklist — refusing to persist a no-op file"@,
            ChecklistError::LineBreak { slug } => "component `"@ + slug
                + "` name/slug/tier contains a newline — cannot round-trip through the checklist format"@,
            ChecklistError::Separator { component } => "component slug "@ + component_text(
                component,
            ) + " contains the list separator (— or ' - ') — cannot round-trip"@,
            ChecklistError::EmptyTier { slug } => "component `"@ + slug
                + "` has an empty tier — cannot round-trip through a `## ` heading"@,
            ChecklistError::PathLineBreak { slug, path } => "component `"@ + slug
                + "` has a path with a newline: "@ + text::debug_text(path),
            ChecklistError::PathComma { slug, path } => "component `"@ + slug
                + "` has a path containing a comma: "@ + text::debug_text(path)
                + " — paths are comma-separated in the checklist format and would not round-trip"@,
            ChecklistError::VerifyLineBreak { slug, command } => "component `"@ + slug
                + "` has a verify command with a newline: "@ + text::debug_text(command),
        }
    }
}

impl ChecklistError<String, Component> {
    /// The fault in words, for the checklist file at `path`.
    pub fn message(&self, path: &str) -> (r: String)
        ensures
            r@ == self@.words(path@),
    {
        let b: Draft = match self {
            ChecklistError::NotFound => Draft::of("checklist not found at ").put(path).put(
                " — run `gaggle init` first",
            ),
            ChecklistError::NoComponents => Draft::of("checklist at ").put(path).put(
                " has content but no parseable components — refusing to treat it as empty (that would wipe recorded component progress)",
            ),
            ChecklistError::InvalidSlug { slug } => Draft::of("invalid checklist slug ").put(
                debug(slug.as_str()).as_str(),
            ).put(" — lowercase a-z0-9 hyphen-joined segments (e.g. `loop-engine`)"),
            ChecklistError::Empty => Draft::of(
                "cannot render an empty checklist — would produce a header-only file",
            ),
            ChecklistError::SaveEmpty => Draft::of(
                "cannot save an empty checklist — refusing to persist a no-op file",
            ),
            ChecklistError::LineBreak { slug } => Draft::of("component `").put(slug.as_str()).put(
                "` name/slug/tier contains a newline — cannot round-trip through the checklist format",
            ),
            ChecklistError::Separator { component } => Draft::of("component slug ").put(
                print_component(component).as_str(),
            ).put(" contains the list separator (— or ' - ') — cannot round-trip"),
            ChecklistError::EmptyTier { slug } => Draft::of("component `").put(slug.as_str()).put(
                "` has an empty tier — cannot round-trip through a `## ` heading",
            ),
            ChecklistError::PathLineBreak { slug, path } => Draft::of("component `").put(
                slug.as_str(),
            ).put("` has a path with a newline: ").put(debug(path.as_str()).as_str()),
            ChecklistError::PathComma { slug, path } => Draft::of("component `").put(
                slug.as_str(),
            ).put("` has a path containing a comma: ").put(debug(path.as_str()).as_str()).put(
                " — paths are comma-separated in the checklist format and would not round-trip",
            ),
            ChecklistError::VerifyLineBreak { slug, command } => Draft::of("component `").put(
                slug.as_str(),
            ).put("` has a verify command with a newline: ").put(
                debug(command.as_str()).as_str(),
            ),
        };
        b.text
    }
}

/// How far a checklist has been read: the items so far, the tier of the last
/// heading, and whether the next `paths:` or `verify:` line belongs to the
/// last item.
pub struct Reading {
    pub items: Seq<ComponentView>,
    pub tier: Seq<char>,
    pub bound: bool,
}

/// Nothing read yet: items without a heading are of the middle tier.
pub open spec fn reading_start() -> Reading {
    Reading { items: Seq::empty(), tier: "medium"@, bound: false }
}

/// The reading after one more line, or the slug that ends it.
pub open spec fn advance(st: Reading, line: Line<Seq<char>, Seq<Seq<char>>>) -> Result<
    Reading,
    Seq<char>,
> {
    match line {
        Line::Blank => Ok(st),
        Line::Heading { tier } => Ok(Reading { tier, bound: false, ..st }),
        Line::Paths { list } => if st.bound && st.items.len() > 0 {
            let last = ComponentView { paths: list, ..st.items.last() };
            Ok(Reading { items: st.items.drop_last().push(last), ..st })
        } else {
            Ok(st)
        },
        Line::Verify { command } => if st.bound && st.items.len() > 0 && command.len() > 0 {
            let last = ComponentView {
                verify: st.items.last().verify.push(command),
                ..st.items.last()
            };
            Ok(Reading { items: st.items.drop_last().push(last), ..st })
        } else {
            Ok(st)
        },
        Line::Item { done, slug, name } => Ok(
            Reading {
                items: st.items.push(
                    ComponentView {
                        slug,
                        name,
                        tier: st.tier,
                        done,
                        paths: Seq::empty(),
                        verify: Seq::empty(),
                    },
                ),
                tier: st.tier,
                bound: true,
            },
        ),
        Line::BadSlug { slug } => Err(slug),
        Line::Other => Ok(Reading { bound: false, ..st }),
    }
}

/// The reading after the lines `ls`, from `st` on.
pub open spec fn read_from(st: Reading, ls: Seq<Seq<char>>) -> Result<Reading, Seq<char>>
    decreases ls.len(),
{
    if ls.len() == 0 {
        Ok(st)
    } else {
        match read_from(st, ls.drop_last()) {
            Ok(mid) => advance(mid, read_line(ls.last())),
            Err(slug) => Err(slug),
        }
    }
}

/// The components of a checklist text.
pub open spec fn parsed(text: Seq<char>) -> Result<Seq<ComponentView>, FaultView> {
    match read_from(reading_start(), text::lines(text)) {
        Ok(st) => Ok(st.items),
        Err(slug) => Err(ChecklistError::InvalidSlug { slug }),
    }
}

proof fn lemma_read_from_stops(st: Reading, ls: Seq<Seq<char>>, k: int)
    requires
        0 <= k <= ls.len(),
        read_from(st, ls.take(k)) is Err,
    ensures
        read_from(st, ls) == read_from(st, ls.take(k)),
    decreases ls.len(),
{
    if k < ls.len() {
        assert(ls.drop_last().take(k) =~= ls.take(k));
        lemma_read_from_stops(st, ls.drop_last(), k);
    } else {
        assert(ls.take(k) =~= ls);
    }
}

/// What is said of a line that belongs to an item but follows none: it has no
/// effect.
pub open spec fn orphan_note(bound: bool, line: Seq<char>) -> Option<Seq<char>> {
    if bound {
        None
    } else {
        match read_line(line) {
            Line::Paths { .. } => Some("orphan `paths:` line ignored: "@ + text::trimmed(line)),
            Line::Verify { .. } => Some("orphan `verify:` line ignored: "@ + text::trimmed(line)),
            _ => None,
        }
    }
}

/// The remarks on lines without effect, up to where the reading ends.
pub open spec fn orphan_notes(ls: Seq<Seq<char>>) -> Seq<Seq<char>>
    decreases ls.len(),
{
    if ls.len() == 0 {
        Seq::empty()
    } else {
        let before = orphan_notes(ls.drop_last());
        match read_from(reading_start(), ls.drop_last()) {
            Err(_) => before,
            Ok(st) => match orphan_note(st.bound, ls.last()) {
                Some(n) => before.push(n),
                None => before,
            },
        }
    }
}

proof fn lemma_orphan_notes_stop(ls: Seq<Seq<char>>, k: int)
    requires
        0 <= k <= ls.len(),
        read_from(reading_start(), ls.take(k)) is Err,
    ensures
        orphan_notes(ls) == orphan_notes(ls.take(k)),
    decreases ls.len(),
{
    if k < ls.len() {
        let front = ls.drop_last();
        assert(front.take(k) =~= ls.take(k));
        lemma_orphan_notes_stop(front, k);
        lemma_read_from_stops(reading_start(), front, k);
    } else {
        assert(ls.take(k) =~= ls);
    }
}

fn read_text(text: &str) -> (r: (Result<Vec<Component>, Fault>, Vec<String>))
    ensures
        text::texts(r.1@) == orphan_notes(text::lines(text@)),
        match r.0 {
            Ok(items) => parsed(text@) == Ok::<Seq<ComponentView>, FaultView>(views(items@)),
            Err(e) => parsed(text@) == Err::<Seq<ComponentView>, FaultView>(e@),
        },
{
    let all: Vec<String> = lines_of(text);
    let ghost ls = text::lines(text@);
    let mut items: Vec<Component> = Vec::new();
    let mut notes: Vec<String> = Vec::new();
    let mut tier: String = owned("medium");
    let mut bound: bool = false;
    let mut i: usize = 0;
    assert(views(items@) =~= Seq::empty());
    assert(text::texts(notes@) =~= Seq::empty());
    assert(ls.take(0) =~= Seq::empty());
    while i < all.len()
        invariant
            i <= all.len(),
            ls == text::lines(text@),
            ls == text::texts(all@),
            read_from(reading_start(), ls.take(i as int)) == Ok::<Reading, Seq<char>>(
                Reading { items: views(items@), tier: tier@, bound },
            ),
            text::texts(notes@) == orphan_notes(ls.take(i as int)),
        decreases all.len() - i,
    {
        let ghost before = views(items@);
        let ghost told = text::texts(notes@);
        assert(ls.take(i + 1).drop_last() =~= ls.take(i as int));
        assert(ls[i as int] == all@[i as int]@);
        match classify(all[i].as_str()) {
            Line::Blank => {},
            Line::Heading { tier: t } => {
                tier = t;
                bound = false;
            },
            Line::Paths { list } => {
                if !bound {
                    let note = Draft::of("orphan `paths:` line ignored: ").put(
                        trim(all[i].as_str()),
                    ).text;
                    notes.push(note);
                    assert(text::texts(notes@) =~= told.push(note@));
                }
                if bound && items.len() > 0 {
                    let last: Option<Component> = items.pop();
                    if let Some(mut c) = last {
                        assert(c@ == before.last());
                        c.paths = list;
                        items.push(c);
                        assert(views(items@) =~= before.drop_last().push(c@));
                    }
                }
            },
            Line::Verify { command } => {
                if !bound {
                    let note = Draft::of("orphan `verify:` line ignored: ").put(
                        trim(all[i].as_str()),
                    ).text;
                    notes.push(note);
                    assert(text::texts(notes@) =~= told.push(note@));
                }
                if bound && items.len() > 0 && !command.as_str().is_empty() {
                    let last: Option<Component> = items.pop();
                    if let Some(mut c) = last {
                        assert(c@ == before.last());
                        let ghost was = c.verify@;
                        c.verify.push(command);
                        assert(text::texts(c.verify@) =~= text::texts(was).push(command@));
                        items.push(c);
                        assert(views(items@) =~= before.drop_last().push(c@));
                    }
                }
            },
            Line::Item { done, slug, name } => {
                let c = Component {
                    slug,
                    name,
                    tier: tier.clone(),
                    done,
                    paths: Vec::new(),
                    verify: Vec::new(),
                };
                assert(text::texts(c.paths@) =~= Seq::empty());
                assert(text::texts(c.verify@) =~= Seq::empty());
                items.push(c);
                assert(views(items@) =~= before.push(c@));
                bound = true;
            },
            Line::BadSlug { slug } => {
                proof {
                    lemma_read_from_stops(reading_start(), ls, i + 1);
                    lemma_orphan_notes_stop(ls, i + 1);
                }
                return (Err(ChecklistError::InvalidSlug { slug }), notes);
            },
            Line::Other => {
                bound = false;
            },
        }
        i = i + 1;
    }
    assert(ls.take(all.len() as int) =~= ls);
    (Ok(items), notes)
}

/// The components of a checklist text.
pub fn parse(text: &str) -> (r: Result<Vec<Component>, Fault>)
    ensures
        match r {
            Ok(items) => parsed(text@) == Ok::<Seq<ComponentView>, FaultView>(views(items@)),
            Err(e) => parsed(text@) == Err::<Seq<ComponentView>, FaultView>(e@),
        },
{
    read_text(text).0
}

/// What is to be said of the lines of a checklist that have no effect: `paths:`
/// and `verify:` lines that follow no item.
pub fn orphans(text: &str) -> (r: Vec<String>)
    ensures
        text::texts(r@) == orphan_notes(text::lines(text@)),
{
    read_text(text).1
}

/// The components of a checklist file: a file that is not there, or that has
/// content but no component, is refused.
pub open spec fn loaded(content: Option<Seq<char>>) -> Result<Seq<ComponentView>, FaultView> {
    match content {
        None => Err(ChecklistError::NotFound),
        Some(text) => match parsed(text) {
            Err(e) => Err(e),
            Ok(items) => if items.len() == 0 && text::trimmed(text).len() > 0 {
                Err(ChecklistError::NoComponents)
            } else {
                Ok(items)
            },
        },
    }
}

/// The components of a checklist file with the given content.
pub fn load(content: Option<&str>) -> (r: Result<Vec<Component>, Fault>)
    ensures
        ({
            let c = match content {
                Some(s) => Some(s@),
                None => None,
            };
            match r {
                Ok(items) => loaded(c) == Ok::<Seq<ComponentView>, FaultView>(views(items@)),
                Err(e) => loaded(c) == Err::<Seq<ComponentView>, FaultView>(e@),
            }
        }),
{
    match content {
        None => Err(ChecklistError::NotFound),
        Some(s) => match parse(s) {
            Err(e) => Err(e),
            Ok(items) => {
                assert(views(items@).len() == items.len());
                if items.len() == 0 && !trim(s).is_empty() {
                    Err(ChecklistError::NoComponents)
                } else {
                    Ok(items)
                }
            },
        },
    }
}

// ---------------------------------------------------------------------
// Writing
// ---------------------------------------------------------------------

pub open spec fn has_line_break(s: Seq<char>) -> bool {
    text::has_char(s, CharSet::LineEnd)
}

/// The first path that the line format cannot carry.
pub open spec fn path_fault(slug: Seq<char>, paths: Seq<Seq<char>>) -> Option<FaultView>
    decreases paths.len(),
{
    if paths.len() == 0 {
        None
    } else {
        match path_fault(slug, paths.drop_last()) {
            Some(e) => Some(e),
            None => if has_line_break(paths.last()) {
                Some(ChecklistError::PathLineBreak { slug, path: paths.last() })
            } else if text::has_char(paths.last(), CharSet::One(',')) {
                Some(ChecklistError::PathComma { slug, path: paths.last() })
            } else {
                None
            },
        }
    }
}

/// The first command that the line format cannot carry.
pub open spec fn verify_fault(slug: Seq<char>, commands: Seq<Seq<char>>) -> Option<FaultView>
    decreases commands.len(),
{
    if commands.len() == 0 {
        None
    } else {
        match verify_fault(slug, commands.drop_last()) {
            Some(e) => Some(e),
            None => if has_line_break(commands.last()) {
                Some(ChecklistError::VerifyLineBreak { slug, command: commands.last() })
            } else {
                None
            },
        }
    }
}

/// Why the line format cannot carry a component.
pub open spec fn component_fault(c: ComponentView) -> Option<FaultView> {
    if has_line_break(c.slug) || has_line_break(c.name) || has_line_break(c.tier) {
        Some(ChecklistError::LineBreak { slug: text::trimmed(c.slug) })
    } else if text::has_text(c.slug, " — "@) || text::has_text(c.slug, " - "@) {
        Some(ChecklistError::Separator { component: c })
    } else if text::trimmed(c.tier).len() == 0 {
        Some(ChecklistError::EmptyTier { slug: c.slug })
    } else {
        match path_fault(c.slug, c.paths) {
            Some(e) => Some(e),
            None => verify_fault(c.slug, c.verify),
        }
    }
}

/// The first fault among the components.
pub open spec fn first_fault(cs: Seq<ComponentView>) -> Option<FaultView>
    decreases cs.len(),
{
    if cs.len() == 0 {
        None
    } else {
        match first_fault(cs.drop_last()) {
            Some(e) => Some(e),
            None => component_fault(cs.last()),
        }
    }
}

/// The tiers of the components, each once, in the order in which they appear.
pub open spec fn tiers_seen(cs: Seq<ComponentView>) -> Seq<Seq<char>>
    decreases cs.len(),
{
    if cs.len() == 0 {
        Seq::empty()
    } else {
        let seen = tiers_seen(cs.drop_last());
        if seen.contains(cs.last().tier) {
            seen
        } else {
            seen.push(cs.last().tier)
        }
    }
}

/// The tiers of rank `k`, in order.
pub open spec fn of_rank(ts: Seq<Seq<char>>, k: nat) -> Seq<Seq<char>> {
    ts.filter(|t: Seq<char>| rank_of(t) == k)
}

/// The tiers by rank, those of one rank in their order.
pub open spec fn by_rank(ts: Seq<Seq<char>>) -> Seq<Seq<char>> {
    of_rank(ts, 0) + of_rank(ts, 1) + of_rank(ts, 2) + of_rank(ts, 3)
}

/// The line of an item itself.
pub open spec fn item_head(c: ComponentView) -> Seq<char> {
    let start = (if c.done {
        "- [x] "@
    } else {
        "- [ ] "@
    }) + c.slug;
    if c.name.len() == 0 {
        start
    } else {
        start + " — "@ + c.name
    }
}

/// The lines of an item.
pub open spec fn item_lines(c: ComponentView) -> Seq<Seq<char>> {
    seq![item_head(c)] + (if c.paths.len() == 0 {
        Seq::<Seq<char>>::empty()
    } else {
        seq!["  paths: "@ + text::joined(c.paths, ", "@)]
    }) + c.verify.map_values(|v: Seq<char>| "  verify: "@ + v)
}

/// The lines of the items of one tier.
pub open spec fn tier_items(cs: Seq<ComponentView>, tier: Seq<char>) -> Seq<Seq<char>>
    decreases cs.len(),
{
    if cs.len() == 0 {
        Seq::empty()
    } else if cs.last().tier == tier {
        tier_items(cs.drop_last(), tier) + item_lines(cs.last())
    } else {
        tier_items(cs.drop_last(), tier)
    }
}

/// The lines of the given tiers: a blank line, the heading, the items.
pub open spec fn tier_lines(cs: Seq<ComponentView>, ts: Seq<Seq<char>>) -> Seq<Seq<char>>
    decreases ts.len(),
{
    if ts.len() == 0 {
        Seq::empty()
    } else {
        tier_lines(cs, ts.drop_last()) + seq![Seq::<char>::empty(), "## "@ + ts.last()]
            + tier_items(cs, ts.last())
    }
}

/// The lines of a checklist.
pub open spec fn checklist_lines(cs: Seq<ComponentView>) -> Seq<Seq<char>> {
    seq!["# Checklist"@] + tier_lines(cs, by_rank(tiers_seen(cs)))
}

/// The text of a checklist, or why there is none.
pub open spec fn rendered(cs: Seq<ComponentView>) -> Result<Seq<char>, FaultView> {
    if cs.len() == 0 {
        Err(ChecklistError::Empty)
    } else {
        match first_fault(cs) {
            Some(e) => Err(e),
            None => Ok(text::unlines(checklist_lines(cs))),
        }
    }
}

fn find_path_fault(slug: &str, paths: &Vec<String>) -> (r: Option<Fault>)
    ensures
        match r {
            Some(e) => path_fault(slug@, text::texts(paths@)) == Some(e@),
            None => path_fault(slug@, text::texts(paths@)) is None,
        },
{
    let ghost all = text::texts(paths@);
    let mut r: Option<Fault> = None;
    let mut i: usize = 0;
    while i < paths.len()
        invariant
            i <= paths.len(),
            all == text::texts(paths@),
            match r {
                Some(e) => path_fault(slug@, all.take(i as int)) == Some(e@),
                None => path_fault(slug@, all.take(i as int)) is None,
            },
        decreases paths.len() - i,
    {
        assert(all.take(i + 1).drop_last() =~= all.take(i as int));
        assert(all[i as int] == paths@[i as int]@);
        if r.is_none() {
            if text::contains_char(paths[i].as_str(), CharSet::LineEnd) {
                r = Some(
                    ChecklistError::PathLineBreak { slug: owned(slug), path: paths[i].clone() },
                );
            } else if text::contains_char(paths[i].as_str(), CharSet::One(',')) {
                r = Some(ChecklistError::PathComma { slug: owned(slug), path: paths[i].clone() });
            }
        }
        i = i + 1;
    }
    assert(all.take(paths.len() as int) =~= all);
    r
}

fn find_verify_fault(slug: &str, commands: &Vec<String>) -> (r: Option<Fault>)
    ensures
        match r {
            Some(e) => verify_fault(slug@, text::texts(commands@)) == Some(e@),
            None => verify_fault(slug@, text::texts(commands@)) is None,
        },
{
    let ghost all = text::texts(commands@);
    let mut r: Option<Fault> = None;
    let mut i: usize = 0;
    while i < commands.len()
        invariant
            i <= commands.len(),
            all == text::texts(commands@),
            match r {
                Some(e) => verify_fault(slug@, all.take(i as int)) == Some(e@),
                None => verify_fault(slug@, all.take(i as int)) is None,
            },
        decreases commands.len() - i,
    {
        assert(all.take(i + 1).drop_last() =~= all.take(i as int));
        assert(all[i as int] == commands@[i as int]@);
        if r.is_none() && text::contains_char(commands[i].as_str(), CharSet::LineEnd) {
            r = Some(
                ChecklistError::VerifyLineBreak { slug: owned(slug), command: commands[i].clone() },
            );
        }
        i = i + 1;
    }
    assert(all.take(commands.len() as int) =~= all);
    r
}

fn find_fault(c: &Component) -> (r: Option<Fault>)
    ensures
        match r {
            Some(e) => component_fault(c@) == Some(e@),
            None => component_fault(c@) is None,
        },
{
    let slug: &str = c.slug.as_str();
    if text::contains_char(slug, CharSet::LineEnd) || text::contains_char(
        c.name.as_str(),
        CharSet::LineEnd,
    ) || text::contains_char(c.tier.as_str(), CharSet::LineEnd) {
        return Some(ChecklistError::LineBreak { slug: owned(trim(slug)) });
    }
    if text::contains(slug, " — ") || text::contains(slug, " - ") {
        return Some(ChecklistError::Separator { component: c.duplicate() });
    }
    if trim(c.tier.as_str()).is_empty() {
        return Some(ChecklistError::EmptyTier { slug: owned(slug) });
    }
    let p: Option<Fault> = find_path_fault(slug, &c.paths);
    if p.is_some() {
        return p;
    }
    find_verify_fault(slug, &c.verify)
}

fn find_first_fault(cs: &Vec<Component>) -> (r: Option<Fault>)
    ensures
        match r {
            Some(e) => first_fault(views(cs@)) == Some(e@),
            None => first_fault(views(cs@)) is None,
        },
{
    let ghost all = views(cs@);
    let mut r: Option<Fault> = None;
    let mut i: usize = 0;
    while i < cs.len()
        invariant
            i <= cs.len(),
            all == views(cs@),
            match r {
                Some(e) => first_fault(all.take(i as int)) == Some(e@),
                None => first_fault(all.take(i as int)) is None,
            },
        decreases cs.len() - i,
    {
        assert(all.take(i + 1).drop_last() =~= all.take(i as int));
        assert(all[i as int] == cs@[i as int]@);
        if r.is_none() {
            r = find_fault(&cs[i]);
        }
        i = i + 1;
    }
    assert(all.take(cs.len() as int) =~= all);
    r
}

fn collect_tiers(cs: &Vec<Component>) -> (r: Vec<String>)
    ensures
        text::texts(r@) == tiers_seen(views(cs@)),
{
    let ghost all = views(cs@);
    let mut r: Vec<String> = Vec::new();
    let mut i: usize = 0;
    assert(text::texts(r@) =~= Seq::empty());
    while i < cs.len()
        invariant
            i <= cs.len(),
            all == views(cs@),
            text::texts(r@) == tiers_seen(all.take(i as int)),
        decreases cs.len() - i,
    {
        assert(all.take(i + 1).drop_last() =~= all.take(i as int));
        assert(all[i as int] == cs@[i as int]@);
        if !text::member(&r, cs[i].tier.as_str()) {
            let ghost was = r@;
            r.push(cs[i].tier.clone());
            assert(text::texts(r@) =~= text::texts(was).push(cs@[i as int].tier@));
        }
        i = i + 1;
    }
    assert(all.take(cs.len() as int) =~= all);
    r
}

fn pick_rank(ts: &Vec<String>, k: usize) -> (r: Vec<String>)
    ensures
        text::texts(r@) == of_rank(text::texts(ts@), k as nat),
{
    let ghost all = text::texts(ts@);
    let ghost keep = |t: Seq<char>| rank_of(t) == k as nat;
    let mut r: Vec<String> = Vec::new();
    let mut i: usize = 0;
    proof {
        reveal(Seq::filter);
    }
    assert(text::texts(r@) =~= all.take(0).filter(keep));
    while i < ts.len()
        invariant
            i <= ts.len(),
            all == text::texts(ts@),
            keep == (|t: Seq<char>| rank_of(t) == k as nat),
            text::texts(r@) == all.take(i as int).filter(keep),
        decreases ts.len() - i,
    {
        proof {
            reveal(Seq::filter);
            assert(all.take(i + 1).drop_last() =~= all.take(i as int));
            assert(all[i as int] == ts@[i as int]@);
        }
        if tier_rank(ts[i].as_str()) == k {
            let ghost was = r@;
            r.push(ts[i].clone());
            assert(text::texts(r@) =~= text::texts(was).push(ts@[i as int]@));
        }
        i = i + 1;
    }
    assert(all.take(ts.len() as int) =~= all);
    r
}

fn sort_tiers(ts: &Vec<String>) -> (r: Vec<String>)
    ensures
        text::texts(r@) == by_rank(text::texts(ts@)),
{
    let mut r: Vec<String> = pick_rank(ts, 0);
    text::extend(&mut r, pick_rank(ts, 1));
    text::extend(&mut r, pick_rank(ts, 2));
    text::extend(&mut r, pick_rank(ts, 3));
    r
}

fn push_item(out: &mut Vec<String>, c: &Component)
    ensures
        text::texts(final(out)@) == text::texts(old(out)@) + item_lines(c@),
{
    let ghost start = text::texts(out@);
    let mark: &str = if c.done {
        "- [x] "
    } else {
        "- [ ] "
    };
    let head: Draft = Draft::of(mark).put(c.slug.as_str());
    let head: Draft = if c.name.as_str().is_empty() {
        head
    } else {
        head.put(" — ").put(c.name.as_str())
    };
    let ghost was = out@;
    out.push(head.text);
    assert(text::texts(out@) =~= text::texts(was) + seq![item_head(c@)]);
    if c.paths.len() > 0 {
        let ghost was = out@;
        let line: Draft = Draft::of("  paths: ").put(text::join(&c.paths, ", ").as_str());
        out.push(line.text);
        assert(text::texts(out@) =~= text::texts(was) + seq![
            "  paths: "@ + text::joined(c@.paths, ", "@),
        ]);
    }
    let ghost front = text::texts(out@);
    let ghost tail = c@.verify.map_values(|v: Seq<char>| "  verify: "@ + v);
    let mut i: usize = 0;
    assert(front + tail.take(0) =~= front);
    while i < c.verify.len()
        invariant
            i <= c.verify.len(),
            tail == c@.verify.map_values(|v: Seq<char>| "  verify: "@ + v),
            text::texts(out@) == front + tail.take(i as int),
        decreases c.verify.len() - i,
    {
        let ghost was = out@;
        assert(c@.verify[i as int] == c.verify@[i as int]@);
        let line: Draft = Draft::of("  verify: ").put(c.verify[i].as_str());
        out.push(line.text);
        assert(text::texts(out@) =~= text::texts(was).push(tail[i as int]));
        assert(tail.take(i + 1) =~= tail.take(i as int).push(tail[i as int]));
        assert(front + tail.take(i + 1) =~= (front + tail.take(i as int)).push(tail[i as int]));
        i = i + 1;
    }
    assert(tail.take(c.verify.len() as int) =~= tail);
    proof {
        let head_line = seq![item_head(c@)];
        if c@.paths.len() == 0 {
            assert(front =~= start + head_line);
            assert(start + item_lines(c@) =~= front + tail);
        } else {
            let p = seq!["  paths: "@ + text::joined(c@.paths, ", "@)];
            assert(front =~= start + head_line + p);
            assert(start + item_lines(c@) =~= front + tail);
        }
    }
}

fn push_tier(out: &mut Vec<String>, cs: &Vec<Component>, tier: &str)
    ensures
        text::texts(final(out)@) == text::texts(old(out)@) + seq![
            Seq::<char>::empty(),
            "## "@ + tier@,
        ] + tier_items(views(cs@), tier@),
{
    let ghost start = text::texts(out@);
    out.push(String::new());
    out.push(Draft::of("## ").put(tier).text);
    let ghost front = start + seq![Seq::<char>::empty(), "## "@ + tier@];
    assert(text::texts(out@) =~= front);
    let ghost all = views(cs@);
    let mut i: usize = 0;
    assert(front + tier_items(all.take(0), tier@) =~= front);
    while i < cs.len()
        invariant
            i <= cs.len(),
            all == views(cs@),
            text::texts(out@) == front + tier_items(all.take(i as int), tier@),
        decreases cs.len() - i,
    {
        assert(all.take(i + 1).drop_last() =~= all.take(i as int));
        assert(all[i as int] == cs@[i as int]@);
        if same(cs[i].tier.as_str(), tier) {
            push_item(out, &cs[i]);
            assert(front + tier_items(all.take(i + 1), tier@) =~= front + tier_items(
                all.take(i as int),
                tier@,
            ) + item_lines(cs@[i as int]@));
        }
        i = i + 1;
    }
    assert(all.take(cs.len() as int) =~= all);
}

/// The checklist text of the components.
pub fn render(components: &Vec<Component>) -> (r: Result<String, Fault>)
    ensures
        match r {
            Ok(s) => rendered(views(components@)) == Ok::<Seq<char>, FaultView>(s@),
            Err(e) => rendered(views(components@)) == Err::<Seq<char>, FaultView>(e@),
        },
{
    assert(views(components@).len() == components.len());
    if components.len() == 0 {
        return Err(ChecklistError::Empty);
    }
    if let Some(e) = find_first_fault(components) {
        return Err(e);
    }
    let ts: Vec<String> = sort_tiers(&collect_tiers(components));
    let ghost all = text::texts(ts@);
    let ghost cs = views(components@);
    let mut out: Vec<String> = Vec::new();
    out.push(owned("# Checklist"));
    assert(text::texts(out@) =~= seq!["# Checklist"@] + tier_lines(cs, all.take(0)));
    let mut i: usize = 0;
    while i < ts.len()
        invariant
            i <= ts.len(),
            all == text::texts(ts@),
            cs == views(components@),
            text::texts(out@) == seq!["# Checklist"@] + tier_lines(cs, all.take(i as int)),
        decreases ts.len() - i,
    {
        assert(all.take(i + 1).drop_last() =~= all.take(i as int));
        assert(all[i as int] == ts@[i as int]@);
        push_tier(&mut out, components, ts[i].as_str());
        assert(text::texts(out@) =~= seq!["# Checklist"@] + tier_lines(cs, all.take(i + 1)));
        i = i + 1;
    }
    assert(all.take(ts.len() as int) =~= all);
    Ok(text::unlines_of(&out))
}

/// The text to save for the components: an empty list is refused.
pub fn save(components: &Vec<Component>) -> (r: Result<String, Fault>)
    ensures
        match r {
            Ok(s) => rendered(views(components@)) == Ok::<Seq<char>, FaultView>(s@),
            Err(e) => if components@.len() == 0 {
                e@ == FaultView::SaveEmpty
            } else {
                rendered(views(components@)) == Err::<Seq<char>, FaultView>(e@)
            },
        },
{
    if components.len() == 0 {
        return Err(ChecklistError::SaveEmpty);
    }
    render(components)
}

// ---------------------------------------------------------------------
// Laws of tiers
// ---------------------------------------------------------------------

/// The tiers in their order: high before medium before low, every other word
/// last; a word that names no tier names the middle one.
pub proof fn law_order_of_tiers(w: Seq<char>)
    ensures
        rank_of("high"@) == 0 && rank_of("medium"@) == 1 && rank_of("low"@) == 2,
        w != "high"@ && w != "medium"@ && w != "low"@ ==> rank_of(w) == 3,
        tier_named("high"@) is High && tier_named("low"@) is Low,
        w != "high"@ && w != "low"@ ==> tier_named(w) is Medium,
        Tier::High.word() == "high"@ && Tier::Medium.word() == "medium"@ && Tier::Low.word()
            == "low"@,
        Tier::High.place() < Tier::Medium.place() < Tier::Low.place(),
        Tier::High.floor() == 100 && Tier::Medium.floor() == 50 && Tier::Low.floor() == 10,
        rank_of(tier_named(w).word()) == tier_named(w).place(),
{
    reveal_strlit("high");
    reveal_strlit("medium");
    reveal_strlit("low");
    assert("high"@.len() == 4 && "medium"@.len() == 6 && "low"@.len() == 3);
}

// ---------------------------------------------------------------------
// Laws of reading
// ---------------------------------------------------------------------

/// An item starts a component of the tier of the last heading; the components
/// before it stay as they are.
pub proof fn law_items_start_components(
    st: Reading,
    done: bool,
    slug: Seq<char>,
    name: Seq<char>,
)
    ensures
        ({
            let r = advance(st, Line::Item { done, slug, name });
            &&& r is Ok
            &&& r->Ok_0.items.len() == st.items.len() + 1
            &&& r->Ok_0.items.take(st.items.len() as int) == st.items
            &&& r->Ok_0.items.last() == (ComponentView {
                slug,
                name,
                tier: st.tier,
                done,
                paths: Seq::empty(),
                verify: Seq::empty(),
            })
            &&& r->Ok_0.bound && r->Ok_0.tier == st.tier
        }),
{
    let r = advance(st, Line::Item { done, slug, name })->Ok_0;
    assert(r.items.take(st.items.len() as int) =~= st.items);
}

/// Paths and commands belong to the item above them: its paths are those of the
/// last such line, and its commands are those of all such lines in their order.
/// No other component is touched, and without an item nothing is.
pub proof fn law_details_belong_to_the_item_above(
    st: Reading,
    list: Seq<Seq<char>>,
    command: Seq<char>,
)
    ensures
        ({
            let p = advance(st, Line::Paths { list });
            let v = advance(st, Line::Verify { command });
            let n = st.items.len();
            &&& p is Ok && v is Ok
            &&& !st.bound || n == 0 ==> p->Ok_0 == st && v->Ok_0 == st
            &&& st.bound && n > 0 ==> {
                &&& p->Ok_0.items.len() == n
                &&& p->Ok_0.items.drop_last() == st.items.drop_last()
                &&& p->Ok_0.items.last() == (ComponentView { paths: list, ..st.items.last() })
                &&& p->Ok_0.tier == st.tier && p->Ok_0.bound
            }
            &&& st.bound && n > 0 && command.len() > 0 ==> {
                &&& v->Ok_0.items.len() == n
                &&& v->Ok_0.items.drop_last() == st.items.drop_last()
                &&& v->Ok_0.items.last() == (ComponentView {
                    verify: st.items.last().verify.push(command),
                    ..st.items.last()
                })
                &&& v->Ok_0.tier == st.tier && v->Ok_0.bound
            }
            &&& command.len() == 0 ==> v->Ok_0 == st
        }),
{
    let p = advance(st, Line::Paths { list })->Ok_0;
    let v = advance(st, Line::Verify { command })->Ok_0;
    if st.bound && st.items.len() > 0 {
        assert(p.items.drop_last() =~= st.items.drop_last());
        if command.len() > 0 {
            assert(v.items.drop_last() =~= st.items.drop_last());
        }
    }
}

/// Headings change the tier of what follows and no component; other lines change
/// nothing but that details need a new item above them; blank lines change
/// nothing at all; a slug that is not valid ends the reading.
pub proof fn law_other_lines_of_a_checklist(st: Reading, tier: Seq<char>)
    ensures
        advance(st, Line::Heading { tier }) == Ok::<Reading, Seq<char>>(
            Reading { items: st.items, tier, bound: false },
        ),
        advance(st, Line::Blank) == Ok::<Reading, Seq<char>>(st),
        advance(st, Line::Other) == Ok::<Reading, Seq<char>>(
            Reading { items: st.items, tier: st.tier, bound: false },
        ),
        advance(st, Line::BadSlug { slug: tier }) == Err::<Reading, Seq<char>>(tier),
        reading_start().items.len() == 0 && reading_start().tier == "medium"@
            && !reading_start().bound,
{
}

/// A checklist is read line by line: what the first lines say stands when the
/// others follow, and a fault in them is the fault of the whole.
pub proof fn law_reading_goes_line_by_line(st: Reading, a: Seq<Seq<char>>, l: Seq<char>)
    ensures
        read_from(st, Seq::empty()) == Ok::<Reading, Seq<char>>(st),
        read_from(st, a) matches Ok(mid) ==> read_from(st, a.push(l)) == advance(
            mid,
            read_line(l),
        ),
        read_from(st, a) matches Err(e) ==> read_from(st, a.push(l)) == Err::<Reading, Seq<char>>(e),
{
    assert(a.push(l).drop_last() =~= a);
}

/// What a mark means: a small or a capital `x` that the component is done, a
/// blank that it is open; anything else in the brackets is no item.
pub proof fn law_marks_of_items(mark: char, rest: Seq<char>)
    ensures
        ({
            let r = read_item(seq![mark, ']'] + rest);
            &&& r matches Line::Item { done, slug, name } ==> {
                &&& done <==> mark == 'x' || mark == 'X'
                &&& !done <==> mark == ' '
                &&& discover::slug_ok(slug)
                &&& (slug, name) == slug_and_name(text::trimmed(rest))
            }
            &&& mark != ' ' && mark != 'x' && mark != 'X' ==> r is Other
            &&& (mark == ' ' || mark == 'x' || mark == 'X') && discover::slug_ok(
                slug_and_name(text::trimmed(rest)).0,
            ) ==> r is Item
            &&& (mark == ' ' || mark == 'x' || mark == 'X') && slug_and_name(
                text::trimmed(rest),
            ).0.len() > 0 && !discover::slug_ok(slug_and_name(text::trimmed(rest)).0) ==> r
                == Line::<Seq<char>, Seq<Seq<char>>>::BadSlug {
                slug: slug_and_name(text::trimmed(rest)).0,
            }
        }),
{
    let s = seq![mark, ']'] + rest;
    assert(s.skip(2) =~= rest);
}

/// Slug and name stand around the separator: a dash, or where there is none a
/// hyphen, with a blank on either side.
pub proof fn law_slug_and_name(a: Seq<char>, b: Seq<char>)
    requires
        forall|i: int| !#[trigger] text::occurs_at(a + " - "@ + b, " — "@, i),
        forall|i: int| 0 <= i < a.len() ==> !#[trigger] text::occurs_at(a + " - "@ + b, " - "@, i),
    ensures
        slug_and_name(a + " - "@ + b) == (text::trimmed(a), text::trimmed(b)),
{
    reveal_strlit(" - ");
    let w = a + " - "@ + b;
    text::law_cutting(w, " — "@);
    if let Some((x, y)) = text::cut_at(w, " — "@) {
        assert(w.subrange(x.len() as int, (x.len() + " — "@.len()) as int) =~= " — "@);
        assert(text::occurs_at(w, " — "@, x.len() as int));
    }
    text::law_cutting(w, " - "@);
    assert(w.subrange(a.len() as int, (a.len() + 3) as int) =~= " - "@);
    assert(text::occurs_at(w, " - "@, a.len() as int));
    if let Some((x, y)) = text::cut_at(w, " - "@) {
        assert(w.subrange(x.len() as int, (x.len() + 3) as int) =~= " - "@);
        assert(text::occurs_at(w, " - "@, x.len() as int));
        assert(x.len() == a.len());
        assert forall|k: int| 0 <= k < a.len() implies x[k] == a[k] by {
            assert(w[k] == (x + " - "@ + y)[k]);
        }
        assert(x =~= a);
        assert forall|k: int| 0 <= k < b.len() implies y[k] == b[k] by {
            assert(w[a.len() + 3 + k] == (x + " - "@ + y)[a.len() + 3 + k]);
        }
        assert(w.len() == x.len() + 3 + y.len());
        assert(y =~= b);
    }
}

/// The paths on a line are the parts between the commas, trimmed, and none that
/// is empty.
pub proof fn law_paths_on_a_line(s: Seq<char>)
    ensures
        path_list(s) == text::pieces(s, CharSet::One(',')).map_values(
            |x: Seq<char>| text::trimmed(x),
        ).filter(|x: Seq<char>| x.len() > 0),
{
}

/// A checklist file is refused where it is missing or says something but lists
/// nothing; otherwise its components are those of its text.
pub proof fn law_loading(t: Seq<char>)
    ensures
        loaded(None) == Err::<Seq<ComponentView>, FaultView>(ChecklistError::NotFound),
        parsed(t) is Err ==> loaded(Some(t)) == parsed(t),
        parsed(t) matches Ok(l) ==> l.len() > 0 ==> loaded(Some(t)) == parsed(t),
        parsed(t) matches Ok(l) ==> l.len() == 0 && text::trimmed(t).len() > 0 ==> loaded(Some(t))
            == Err::<Seq<ComponentView>, FaultView>(ChecklistError::NoComponents),
        parsed(t) matches Ok(l) ==> l.len() == 0 && text::trimmed(t).len() == 0 ==> loaded(Some(t))
            == parsed(t),
{
}

/// A line of paths or a command that stands under no item is remarked on, and
/// only such a line.
pub proof fn law_orphans_are_told(a: Seq<Seq<char>>, l: Seq<char>)
    ensures
        ({
            let before = orphan_notes(a);
            let now = orphan_notes(a.push(l));
            let orphan = read_from(reading_start(), a) matches Ok(st) && !st.bound && (read_line(
                l,
            ) is Paths || read_line(l) is Verify);
            &&& orphan ==> now.len() == before.len() + 1 && now.drop_last() == before
            &&& !orphan ==> now == before
        }),
{
    assert(a.push(l).drop_last() =~= a);
    let before = orphan_notes(a);
    let now = orphan_notes(a.push(l));
    if now.len() > before.len() {
        assert(now.drop_last() =~= before);
    }
}

// ---------------------------------------------------------------------
// Laws of writing
// ---------------------------------------------------------------------

/// A component that the lines of a checklist can carry.
pub open spec fn carriable(c: ComponentView) -> bool {
    &&& !text::has_char(c.slug, CharSet::LineEnd) && !text::has_char(c.name, CharSet::LineEnd)
        && !text::has_char(c.tier, CharSet::LineEnd)
    &&& !text::has_text(c.slug, " — "@) && !text::has_text(c.slug, " - "@)
    &&& text::trimmed(c.tier).len() > 0
    &&& forall|i: int|
        0 <= i < c.paths.len() ==> !text::has_char(#[trigger] c.paths[i], CharSet::LineEnd)
            && !text::has_char(c.paths[i], CharSet::One(','))
    &&& forall|i: int|
        0 <= i < c.verify.len() ==> !text::has_char(#[trigger] c.verify[i], CharSet::LineEnd)
}

proof fn lemma_path_faults(slug: Seq<char>, ps: Seq<Seq<char>>)
    ensures
        path_fault(slug, ps) is None <==> forall|i: int|
            0 <= i < ps.len() ==> !text::has_char(#[trigger] ps[i], CharSet::LineEnd)
                && !text::has_char(ps[i], CharSet::One(',')),
    decreases ps.len(),
{
    if ps.len() > 0 {
        let front = ps.drop_last();
        lemma_path_faults(slug, front);
        assert(ps[ps.len() - 1] == ps.last());
        if path_fault(slug, ps) is None {
            assert forall|i: int| 0 <= i < ps.len() implies !text::has_char(
                #[trigger] ps[i],
                CharSet::LineEnd,
            ) && !text::has_char(ps[i], CharSet::One(',')) by {
                if i < front.len() {
                    assert(front[i] == ps[i]);
                }
            }
        } else if path_fault(slug, front) is Some {
            let i = choose|i: int|
                0 <= i < front.len() && !(!text::has_char(#[trigger] front[i], CharSet::LineEnd)
                    && !text::has_char(front[i], CharSet::One(',')));
            assert(front[i] == ps[i]);
        }
    }
}

proof fn lemma_verify_faults(slug: Seq<char>, ps: Seq<Seq<char>>)
    ensures
        verify_fault(slug, ps) is None <==> forall|i: int|
            0 <= i < ps.len() ==> !text::has_char(#[trigger] ps[i], CharSet::LineEnd),
    decreases ps.len(),
{
    if ps.len() > 0 {
        let front = ps.drop_last();
        lemma_verify_faults(slug, front);
        assert(ps[ps.len() - 1] == ps.last());
        if verify_fault(slug, ps) is None {
            assert forall|i: int| 0 <= i < ps.len() implies !text::has_char(
                #[trigger] ps[i],
                CharSet::LineEnd,
            ) by {
                if i < front.len() {
                    assert(front[i] == ps[i]);
                }
            }
        } else if verify_fault(slug, front) is Some {
            let i = choose|i: int|
                0 <= i < front.len() && text::has_char(#[trigger] front[i], CharSet::LineEnd);
            assert(front[i] == ps[i]);
        }
    }
}

/// A checklist is written exactly where there is a component and the lines can
/// carry each: nothing is written that would not read back.
pub proof fn law_only_what_reads_back_is_written(cs: Seq<ComponentView>)
    ensures
        rendered(cs) is Ok <==> cs.len() > 0 && forall|i: int|
            0 <= i < cs.len() ==> carriable(#[trigger] cs[i]),
        cs.len() == 0 ==> rendered(cs) == Err::<Seq<char>, FaultView>(ChecklistError::Empty),
{
    lemma_faults(cs);
}

proof fn lemma_faults(cs: Seq<ComponentView>)
    ensures
        first_fault(cs) is None <==> forall|i: int|
            0 <= i < cs.len() ==> carriable(#[trigger] cs[i]),
    decreases cs.len(),
{
    if cs.len() > 0 {
        let front = cs.drop_last();
        let c = cs.last();
        lemma_faults(front);
        lemma_path_faults(c.slug, c.paths);
        lemma_verify_faults(c.slug, c.verify);
        assert(cs[cs.len() - 1] == c);
        assert(component_fault(c) is None <==> carriable(c));
        if first_fault(cs) is None {
            assert forall|i: int| 0 <= i < cs.len() implies carriable(#[trigger] cs[i]) by {
                if i < front.len() {
                    assert(carriable(front[i]));
                }
            }
        } else if first_fault(front) is Some {
            let i = choose|i: int| 0 <= i < front.len() && !carriable(#[trigger] front[i]);
            assert(!carriable(cs[i]));
        }
    }
}

/// The lines of an item: its mark, slug and name, its paths where it has any,
/// and each of its commands.
pub proof fn law_lines_of_an_item(c: ComponentView)
    ensures
        ({
            let l = item_lines(c);
            let n: int = if c.paths.len() > 0 {
                2
            } else {
                1
            };
            &&& l.len() == n + c.verify.len()
            &&& c.done && c.name.len() > 0 ==> l[0] == "- [x] "@ + c.slug + " — "@ + c.name
            &&& !c.done && c.name.len() > 0 ==> l[0] == "- [ ] "@ + c.slug + " — "@ + c.name
            &&& c.done && c.name.len() == 0 ==> l[0] == "- [x] "@ + c.slug
            &&& !c.done && c.name.len() == 0 ==> l[0] == "- [ ] "@ + c.slug
            &&& c.paths.len() > 0 ==> l[1] == "  paths: "@ + text::joined(c.paths, ", "@)
            &&& forall|i: int|
                0 <= i < c.verify.len() ==> l[n + i] == "  verify: "@ + #[trigger] c.verify[i]
        }),
{
}

proof fn lemma_of_rank(ts: Seq<Seq<char>>, k: nat, t: Seq<char>)
    ensures
        forall|i: int| 0 <= i < of_rank(ts, k).len() ==> rank_of(#[trigger] of_rank(ts, k)[i]) == k,
        of_rank(ts, k).contains(t) <==> ts.contains(t) && rank_of(t) == k,
    decreases ts.len(),
{
    reveal(Seq::filter);
    if ts.len() > 0 {
        let front = ts.drop_last();
        lemma_of_rank(front, k, t);
        let before = of_rank(front, k);
        let all = of_rank(ts, k);
        assert(ts[ts.len() - 1] == ts.last());
        assert forall|i: int| 0 <= i < all.len() implies rank_of(#[trigger] all[i]) == k by {
            if i < before.len() {
                assert(rank_of(before[i]) == k);
            }
        }
        if front.contains(t) {
            let i = choose|i: int| 0 <= i < front.len() && front[i] == t;
            assert(ts[i] == t);
        }
        if ts.contains(t) && t != ts.last() {
            let i = choose|i: int| 0 <= i < ts.len() && ts[i] == t;
            assert(front[i] == t);
        }
        if before.contains(t) {
            let i = choose|i: int| 0 <= i < before.len() && before[i] == t;
            assert(all[i] == t);
        }
        if t == ts.last() && rank_of(t) == k {
            assert(all[all.len() - 1] == t);
        }
        if all.contains(t) && !before.contains(t) {
            let i = choose|i: int| 0 <= i < all.len() && all[i] == t;
            if i < before.len() {
                assert(before[i] == t);
            }
        }
    }
}

/// The tiers of a checklist are listed by rank, each that occurs and no other.
pub proof fn law_tiers_are_listed_by_rank(ts: Seq<Seq<char>>, t: Seq<char>)
    ensures
        by_rank(ts).contains(t) <==> ts.contains(t),
        forall|i: int, j: int|
            0 <= i < j < by_rank(ts).len() ==> rank_of(#[trigger] by_rank(ts)[i]) <= rank_of(
                #[trigger] by_rank(ts)[j],
            ),
{
    lemma_of_rank(ts, 0, t);
    lemma_of_rank(ts, 1, t);
    lemma_of_rank(ts, 2, t);
    lemma_of_rank(ts, 3, t);
    let a = of_rank(ts, 0);
    let b = of_rank(ts, 1);
    let c = of_rank(ts, 2);
    let d = of_rank(ts, 3);
    let all = a + b + c + d;
    assert(all == by_rank(ts));
    let x = a.len() as int;
    let y = (a.len() + b.len()) as int;
    let z = (a.len() + b.len() + c.len()) as int;
    assert forall|i: int| 0 <= i < all.len() implies rank_of(#[trigger] all[i]) == (if i < x {
        0nat
    } else if i < y {
        1
    } else if i < z {
        2
    } else {
        3
    }) by {
        if i < x {
            assert(all[i] == a[i]);
        } else if i < y {
            assert(all[i] == b[i - x]);
        } else if i < z {
            assert(all[i] == c[i - y]);
        } else {
            assert(all[i] == d[i - z]);
        }
    }
    if ts.contains(t) {
        if rank_of(t) == 0 {
            let i = choose|i: int| 0 <= i < a.len() && a[i] == t;
            assert(all[i] == t);
        } else if rank_of(t) == 1 {
            let i = choose|i: int| 0 <= i < b.len() && b[i] == t;
            assert(all[x + i] == t);
        } else if rank_of(t) == 2 {
            let i = choose|i: int| 0 <= i < c.len() && c[i] == t;
            assert(all[y + i] == t);
        } else {
            let i = choose|i: int| 0 <= i < d.len() && d[i] == t;
            assert(all[z + i] == t);
        }
    }
    if all.contains(t) {
        let i = choose|i: int| 0 <= i < all.len() && all[i] == t;
        if i < x {
            assert(a[i] == t);
        } else if i < y {
            assert(b[i - x] == t);
        } else if i < z {
            assert(c[i - y] == t);
        } else {
            assert(d[i - z] == t);
        }
    }
}

/// The tiers that components have, each once and in the order in which they are
/// met.
pub proof fn law_tiers_that_occur(cs: Seq<ComponentView>, t: Seq<char>)
    ensures
        tiers_seen(cs).no_duplicates(),
        tiers_seen(cs).contains(t) <==> exists|i: int|
            0 <= i < cs.len() && (#[trigger] cs[i]).tier == t,
    decreases cs.len(),
{
    if cs.len() > 0 {
        let front = cs.drop_last();
        law_tiers_that_occur(front, t);
        let before = tiers_seen(front);
        let all = tiers_seen(cs);
        assert(cs[cs.len() - 1] == cs.last());
        if before.contains(t) {
            let k = choose|k: int| 0 <= k < before.len() && before[k] == t;
            assert(all[k] == t);
            let i = choose|i: int| 0 <= i < front.len() && (#[trigger] front[i]).tier == t;
            assert(cs[i].tier == t);
        }
        if t == cs.last().tier && !before.contains(t) {
            assert(all[all.len() - 1] == t);
        }
        if all.contains(t) && !before.contains(t) {
            let k = choose|k: int| 0 <= k < all.len() && all[k] == t;
            if k < before.len() {
                assert(before[k] == t);
            }
            assert(cs[cs.len() - 1].tier == t);
        }
        if exists|i: int| 0 <= i < cs.len() && (#[trigger] cs[i]).tier == t {
            let i = choose|i: int| 0 <= i < cs.len() && (#[trigger] cs[i]).tier == t;
            if i < front.len() {
                assert(front[i].tier == t);
            }
        }
    }
}

} // verus!
