//! The command line: what its arguments ask for, and when a command would lose
//! recorded progress.

use vstd::prelude::*;
use crate::checklist;
use crate::checklist::tiers;
use crate::discover;
use crate::discover::valid_slug;
use crate::json;
use crate::json::JsonView;
use crate::number;
use crate::number::{parse_unsigned, to_decimal};
use crate::text;
use crate::text::{
    contains_char, debug, join, member, owned, same, split, starts_with, to_lower, trim, CharSet,
    Draft,
};

verus! {

// ---------------------------------------------------------------------
// Faults
// ---------------------------------------------------------------------

/// Why arguments are refused. `T` is the type of the texts in it.
#[derive(Debug)]
pub enum CliError<T> {
    /// `run` got something else than its flag.
    RunArguments { given: T },
    /// `--tail` is there more than once.
    TailRepeated { times: usize },
    /// `--tail` is the last argument.
    TailMissing,
    /// The value of `--tail` is no number.
    TailNotNumber { given: T },
    /// The value of `--tail` is zero.
    TailZero,
    /// `status` got something else than its flag.
    StatusArgument { given: T },
    /// `history` got more than one run.
    HistoryArguments,
    /// `requeue` got a flag that it does not know.
    RequeueFlag { given: T },
    /// `requeue` got slugs beside `--all`.
    RequeueBoth,
    /// `requeue` got nothing.
    RequeueNothing,
    /// `--components` is the last argument.
    ComponentsMissing,
    /// The value of `--components` is empty.
    ComponentsEmpty,
    /// The value of `--components` is a flag.
    ComponentsFlag { given: T },
    /// The value of `--components` has no separator.
    ComponentsForm { given: T },
    /// An entry is empty.
    EntryEmpty,
    /// An entry has not two or three parts.
    EntryParts { entry: T },
    /// An entry has no slug.
    SlugEmpty { entry: T },
    /// The slug of an entry is not valid.
    SlugInvalid { slug: T, entry: T },
    /// An entry has no name.
    NameEmpty { entry: T },
    /// The tier of an entry is not known.
    TierUnknown { tier: T, entry: T },
    /// A slug is there twice.
    SlugRepeated { slug: T },
    /// `init` got a flag that it does not know.
    InitFlag { given: T },
}

impl View for CliError<String> {
    type V = CliError<Seq<char>>;

    open spec fn view(&self) -> CliError<Seq<char>> {
        match *self {
            CliError::RunArguments { given } => CliError::RunArguments { given: given@ },
            CliError::TailRepeated { times } => CliError::TailRepeated { times },
            CliError::TailMissing => CliError::TailMissing,
            CliError::TailNotNumber { given } => CliError::TailNotNumber { given: given@ },
            CliError::TailZero => CliError::TailZero,
            CliError::StatusArgument { given } => CliError::StatusArgument { given: given@ },
            CliError::HistoryArguments => CliError::HistoryArguments,
            CliError::RequeueFlag { given } => CliError::RequeueFlag { given: given@ },
            CliError::RequeueBoth => CliError::RequeueBoth,
            CliError::RequeueNothing => CliError::RequeueNothing,
            CliError::ComponentsMissing => CliError::ComponentsMissing,
            CliError::ComponentsEmpty => CliError::ComponentsEmpty,
            CliError::ComponentsFlag { given } => CliError::ComponentsFlag { given: given@ },
            CliError::ComponentsForm { given } => CliError::ComponentsForm { given: given@ },
            CliError::EntryEmpty => CliError::EntryEmpty,
            CliError::EntryParts { entry } => CliError::EntryParts { entry: entry@ },
            CliError::SlugEmpty { entry } => CliError::SlugEmpty { entry: entry@ },
            CliError::SlugInvalid { slug, entry } => CliError::SlugInvalid {
                slug: slug@,
                entry: entry@,
            },
            CliError::NameEmpty { entry } => CliError::NameEmpty { entry: entry@ },
            CliError::TierUnknown { tier, entry } => CliError::TierUnknown {
                tier: tier@,
                entry: entry@,
            },
            CliError::SlugRepeated { slug } => CliError::SlugRepeated { slug: slug@ },
            CliError::InitFlag { given } => CliError::InitFlag { given: given@ },
        }
    }
}

impl CliError<Seq<char>> {
    /// The fault in words.
    pub open spec fn words(self) -> Seq<char> {
        match self {
            CliError::RunArguments { given } =>
                "`run` takes no arguments except --review-only (got: "@ + given + ")"@,
            CliError::TailRepeated { times } => "--tail was specified "@ + number::decimal(
                times as nat,
            ) + " times; provide it at most once"@,
            CliError::TailMissing =>
                "--tail expects a positive integer, but no value was provided"@,
            CliError::TailNotNumber { given } => "--tail expects a positive integer, got `"@ + given
                + "`"@,
            CliError::TailZero => "--tail must be at least 1 (0 would show no activity)"@,
            CliError::StatusArgument { given } => "unrecognized status argument: "@
                + text::debug_text(given) + " — usage: gaggle status [--tail N]"@,
            CliError::HistoryArguments =>
                "history takes at most one run-id — usage: gaggle history [run-id]"@,
            CliError::RequeueFlag { given } => "unrecognized requeue flag: "@ + given
                + " — usage: gaggle requeue <slug>… | --all"@,
            CliError::RequeueBoth => "--all cannot be combined with explicit slugs"@,
            CliError::RequeueNothing =>
                "requeue needs one or more slugs, or --all (see `gaggle list` for quarantined components)"@,
            CliError::ComponentsMissing => "--components needs a value"@,
            CliError::ComponentsEmpty => "--components value must not be empty"@,
            CliError::ComponentsFlag { given } => "--components needs a value, but got flag `"@
                + given + "`"@,
            CliError::ComponentsForm { given } =>
                "--components needs a value like `slug|Name|tier`, but got `"@ + given
                + "` (missing `|` separator)"@,
            CliError::EntryEmpty =>
                "--components contains an empty entry (check for stray commas)"@,
            CliError::EntryParts { entry } => "bad component entry: "@ + entry
                + " (want slug|Name|tier)"@,
            CliError::SlugEmpty { entry } => "component slug must not be empty (entry: `"@ + entry
                + "`)"@,
            CliError::SlugInvalid { slug, entry } => "invalid slug "@ + text::debug_text(slug)
                + " in entry `"@ + entry
                + "` — lowercase a-z0-9 hyphen-joined segments (e.g. `loop-engine`)"@,
            CliError::NameEmpty { entry } => "component name must not be empty (entry: `"@ + entry
                + "`)"@,
            CliError::TierUnknown { tier, entry } => "unknown tier "@ + text::debug_text(tier)
                + " in entry `"@ + entry
                + "` — valid tiers: high/medium/low (case-insensitive)"@,
            CliError::SlugRepeated { slug } => "duplicate component slug `"@ + slug
                + "` — each --components entry must be unique"@,
            CliError::InitFlag { given } => "unknown init flag: "@ + given,
        }
    }
}

impl CliError<String> {
    /// The fault in words.
    pub fn message(&self) -> (r: String)
        ensures
            r@ == self@.words(),
    {
        let b: Draft = match self {
            CliError::RunArguments { given } => Draft::of(
                "`run` takes no arguments except --review-only (got: ",
            ).put(given.as_str()).put(")"),
            CliError::TailRepeated { times } => Draft::of("--tail was specified ").put(
                to_decimal(*times as u64).as_str(),
            ).put(" times; provide it at most once"),
            CliError::TailMissing => Draft::of(
                "--tail expects a positive integer, but no value was provided",
            ),
            CliError::TailNotNumber { given } => Draft::of(
                "--tail expects a positive integer, got `",
            ).put(given.as_str()).put("`"),
            CliError::TailZero => Draft::of(
                "--tail must be at least 1 (0 would show no activity)",
            ),
            CliError::StatusArgument { given } => Draft::of("unrecognized status argument: ").put(
                debug(given.as_str()).as_str(),
            ).put(" — usage: gaggle status [--tail N]"),
            CliError::HistoryArguments => Draft::of(
                "history takes at most one run-id — usage: gaggle history [run-id]",
            ),
            CliError::RequeueFlag { given } => Draft::of("unrecognized requeue flag: ").put(
                given.as_str(),
            ).put(" — usage: gaggle requeue <slug>… | --all"),
            CliError::RequeueBoth => Draft::of("--all cannot be combined with explicit slugs"),
            CliError::RequeueNothing => Draft::of(
                "requeue needs one or more slugs, or --all (see `gaggle list` for quarantined components)",
            ),
            CliError::ComponentsMissing => Draft::of("--components needs a value"),
            CliError::ComponentsEmpty => Draft::of("--components value must not be empty"),
            CliError::ComponentsFlag { given } => Draft::of(
                "--components needs a value, but got flag `",
            ).put(given.as_str()).put("`"),
            CliError::ComponentsForm { given } => Draft::of(
                "--components needs a value like `slug|Name|tier`, but got `",
            ).put(given.as_str()).put("` (missing `|` separator)"),
            CliError::EntryEmpty => Draft::of(
                "--components contains an empty entry (check for stray commas)",
            ),
            CliError::EntryParts { entry } => Draft::of("bad component entry: ").put(
                entry.as_str(),
            ).put(" (want slug|Name|tier)"),
            CliError::SlugEmpty { entry } => Draft::of(
                "component slug must not be empty (entry: `",
            ).put(entry.as_str()).put("`)"),
            CliError::SlugInvalid { slug, entry } => Draft::of("invalid slug ").put(
                debug(slug.as_str()).as_str(),
            ).put(" in entry `").put(entry.as_str()).put(
                "` — lowercase a-z0-9 hyphen-joined segments (e.g. `loop-engine`)",
            ),
            CliError::NameEmpty { entry } => Draft::of(
                "component name must not be empty (entry: `",
            ).put(entry.as_str()).put("`)"),
            CliError::TierUnknown { tier, entry } => Draft::of("unknown tier ").put(
                debug(tier.as_str()).as_str(),
            ).put(" in entry `").put(entry.as_str()).put(
                "` — valid tiers: high/medium/low (case-insensitive)",
            ),
            CliError::SlugRepeated { slug } => Draft::of("duplicate component slug `").put(
                slug.as_str(),
            ).put("` — each --components entry must be unique"),
            CliError::InitFlag { given } => Draft::of("unknown init flag: ").put(given.as_str()),
        };
        b.text
    }
}

// ---------------------------------------------------------------------
// Commands
// ---------------------------------------------------------------------

/// Whether `run` only reviews.
pub open spec fn run_mode(args: Seq<Seq<char>>) -> Result<bool, CliError<Seq<char>>> {
    if args.len() == 0 {
        Ok(false)
    } else if args.len() == 1 && args[0] == "--review-only"@ {
        Ok(true)
    } else {
        Err(CliError::RunArguments { given: text::joined(args, " "@) })
    }
}

/// Whether `run` only reviews.
pub fn parse_run(args: &Vec<String>) -> (r: Result<bool, CliError<String>>)
    ensures
        match r {
            Ok(b) => run_mode(text::texts(args@)) == Ok::<bool, CliError<Seq<char>>>(b),
            Err(e) => run_mode(text::texts(args@)) == Err::<bool, CliError<Seq<char>>>(e@),
        },
{
    assert(text::texts(args@).len() == args@.len());
    if args.len() == 0 {
        return Ok(false);
    }
    assert(text::texts(args@)[0] == args@[0]@);
    if args.len() == 1 && same(args[0].as_str(), "--review-only") {
        return Ok(true);
    }
    Err(CliError::RunArguments { given: join(args, " ") })
}

/// How many lines of the timeline `status` shows by default.
pub const DEFAULT_TAIL: usize = 8;

/// How often `--tail` occurs.
pub open spec fn tails(args: Seq<Seq<char>>) -> nat
    decreases args.len(),
{
    if args.len() == 0 {
        0
    } else {
        tails(args.drop_last()) + (if args.last() == "--tail"@ {
            1nat
        } else {
            0
        })
    }
}

/// The number of lines that the arguments from `i` on ask for, where `tail` was
/// asked for before them.
pub open spec fn tail_from(args: Seq<Seq<char>>, i: int, tail: nat) -> Result<
    nat,
    CliError<Seq<char>>,
>
    decreases args.len() - i,
{
    if i < 0 || i >= args.len() {
        Ok(tail)
    } else if args[i] != "--tail"@ {
        Err(CliError::StatusArgument { given: args[i] })
    } else if i + 1 >= args.len() {
        Err(CliError::TailMissing)
    } else {
        match number::parsed(args[i + 1], usize::MAX as nat) {
            None => Err(CliError::TailNotNumber { given: args[i + 1] }),
            Some(n) => if n == 0 {
                Err(CliError::TailZero)
            } else {
                tail_from(args, i + 2, n)
            },
        }
    }
}

/// The number of lines that `status` shows.
pub open spec fn tail_asked(args: Seq<Seq<char>>) -> Result<nat, CliError<Seq<char>>> {
    if tails(args) > 1 {
        Err(CliError::TailRepeated { times: tails(args) as usize })
    } else {
        tail_from(args, 0, DEFAULT_TAIL as nat)
    }
}

/// The number of lines that `status` shows. What is not understood is refused,
/// never ignored.
pub fn parse_status(args: &Vec<String>) -> (r: Result<usize, CliError<String>>)
    ensures
        match r {
            Ok(n) => tail_asked(text::texts(args@)) == Ok::<nat, CliError<Seq<char>>>(n as nat),
            Err(e) => tail_asked(text::texts(args@)) == Err::<nat, CliError<Seq<char>>>(e@),
        },
{
    let ghost all = text::texts(args@);
    let mut times: usize = 0;
    let mut k: usize = 0;
    assert(all.take(0) =~= Seq::empty());
    while k < args.len()
        invariant
            k <= args.len(),
            times <= k,
            all == text::texts(args@),
            times == tails(all.take(k as int)),
        decreases args.len() - k,
    {
        assert(all.take(k + 1).drop_last() =~= all.take(k as int));
        assert(all.take(k + 1).last() == args@[k as int]@);
        if same(args[k].as_str(), "--tail") {
            times = times + 1;
        }
        k = k + 1;
    }
    assert(all.take(all.len() as int) =~= all);
    if times > 1 {
        return Err(CliError::TailRepeated { times });
    }
    let mut tail: usize = DEFAULT_TAIL;
    let mut i: usize = 0;
    while i < args.len()
        invariant
            i <= args.len(),
            all == text::texts(args@),
            all.len() == args@.len(),
            tail_from(all, 0, DEFAULT_TAIL as nat) == tail_from(all, i as int, tail as nat),
            tail_asked(all) == tail_from(all, 0, DEFAULT_TAIL as nat),
        decreases args.len() - i,
    {
        assert(all[i as int] == args@[i as int]@);
        if !same(args[i].as_str(), "--tail") {
            return Err(CliError::StatusArgument { given: args[i].clone() });
        }
        if args.len() - i < 2 {
            return Err(CliError::TailMissing);
        }
        assert(all[i + 1] == args@[i + 1]@);
        match parse_unsigned(args[i + 1].as_str(), usize::MAX as u64) {
            None => {
                return Err(CliError::TailNotNumber { given: args[i + 1].clone() });
            },
            Some(n) => {
                if n == 0 {
                    return Err(CliError::TailZero);
                }
                tail = n as usize;
            },
        }
        i = i + 2;
    }
    Ok(tail)
}

/// The run that `history` shows; none for the list of all.
pub fn parse_history(args: &Vec<String>) -> (r: Result<Option<String>, CliError<String>>)
    ensures
        match r {
            Ok(None) => args@.len() == 0,
            Ok(Some(ts)) => args@.len() == 1 && ts@ == args@[0]@,
            Err(e) => args@.len() > 1 && e@ == CliError::<Seq<char>>::HistoryArguments,
        },
{
    if args.len() == 0 {
        Ok(None)
    } else if args.len() == 1 {
        Ok(Some(args[0].clone()))
    } else {
        Err(CliError::HistoryArguments)
    }
}

/// The slugs among the arguments of `requeue`, and whether `--all` is there; or
/// the first flag that is not known.
pub open spec fn requeue_words(args: Seq<Seq<char>>) -> Result<
    (Seq<Seq<char>>, bool),
    CliError<Seq<char>>,
>
    decreases args.len(),
{
    if args.len() == 0 {
        Ok((Seq::empty(), false))
    } else {
        match requeue_words(args.drop_last()) {
            Err(e) => Err(e),
            Ok((slugs, all)) => if args.last() == "--all"@ {
                Ok((slugs, true))
            } else if text::begins(args.last(), "--"@) {
                Err(CliError::RequeueFlag { given: args.last() })
            } else {
                Ok((slugs.push(args.last()), all))
            },
        }
    }
}

/// What `requeue` is asked for: slugs, or all.
pub open spec fn requeue_asked(args: Seq<Seq<char>>) -> Result<
    (Seq<Seq<char>>, bool),
    CliError<Seq<char>>,
> {
    match requeue_words(args) {
        Err(e) => Err(e),
        Ok((slugs, all)) => if all && slugs.len() > 0 {
            Err(CliError::RequeueBoth)
        } else if !all && slugs.len() == 0 {
            Err(CliError::RequeueNothing)
        } else {
            Ok((slugs, all))
        },
    }
}

proof fn lemma_requeue_stops(args: Seq<Seq<char>>, k: int)
    requires
        0 <= k <= args.len(),
        requeue_words(args.take(k)) is Err,
    ensures
        requeue_words(args) == requeue_words(args.take(k)),
    decreases args.len(),
{
    if k < args.len() {
        assert(args.drop_last().take(k) =~= args.take(k));
        lemma_requeue_stops(args.drop_last(), k);
    } else {
        assert(args.take(k) =~= args);
    }
}

/// What `requeue` is asked for: slugs, or all.
pub fn parse_requeue(args: &Vec<String>) -> (r: Result<(Vec<String>, bool), CliError<String>>)
    ensures
        match r {
            Ok((l, all)) => requeue_asked(text::texts(args@)) == Ok::<
                (Seq<Seq<char>>, bool),
                CliError<Seq<char>>,
            >((text::texts(l@), all)),
            Err(e) => requeue_asked(text::texts(args@)) == Err::<
                (Seq<Seq<char>>, bool),
                CliError<Seq<char>>,
            >(e@),
        },
{
    let ghost given = text::texts(args@);
    let mut slugs: Vec<String> = Vec::new();
    let mut all: bool = false;
    let mut i: usize = 0;
    assert(given.take(0) =~= Seq::empty());
    assert(text::texts(slugs@) =~= Seq::empty());
    while i < args.len()
        invariant
            i <= args.len(),
            given == text::texts(args@),
            requeue_words(given.take(i as int)) == Ok::<
                (Seq<Seq<char>>, bool),
                CliError<Seq<char>>,
            >((text::texts(slugs@), all)),
        decreases args.len() - i,
    {
        assert(given.take(i + 1).drop_last() =~= given.take(i as int));
        assert(given.take(i + 1).last() == args@[i as int]@);
        let a = args[i].as_str();
        if same(a, "--all") {
            all = true;
        } else if starts_with(a, "--") {
            proof {
                lemma_requeue_stops(given, i + 1);
            }
            return Err(CliError::RequeueFlag { given: owned(a) });
        } else {
            let ghost was = text::texts(slugs@);
            slugs.push(owned(a));
            assert(text::texts(slugs@) =~= was.push(a@));
        }
        i = i + 1;
    }
    assert(given.take(given.len() as int) =~= given);
    assert(text::texts(slugs@).len() == slugs@.len());
    if all && slugs.len() > 0 {
        return Err(CliError::RequeueBoth);
    }
    if !all && slugs.len() == 0 {
        return Err(CliError::RequeueNothing);
    }
    Ok((slugs, all))
}

// ---------------------------------------------------------------------
// Components on the command line
// ---------------------------------------------------------------------

/// One component that was named on the command line.
#[derive(Debug)]
pub struct Entry {
    pub slug: String,
    pub name: String,
    pub tier: String,
}

/// The contents of an [`Entry`].
pub struct EntryView {
    pub slug: Seq<char>,
    pub name: Seq<char>,
    pub tier: Seq<char>,
}

impl View for Entry {
    type V = EntryView;

    open spec fn view(&self) -> EntryView {
        EntryView { slug: self.slug@, name: self.name@, tier: self.tier@ }
    }
}

pub open spec fn entries(l: Seq<Entry>) -> Seq<EntryView> {
    l.map_values(|e: Entry| e@)
}

pub open spec fn has_slug(l: Seq<EntryView>, slug: Seq<char>) -> bool {
    exists|i: int| 0 <= i < l.len() && (#[trigger] l[i]).slug == slug
}

/// The tier that an entry names: the third part, or the middle one where it is
/// not there or blank.
pub open spec fn tier_part(parts: Seq<Seq<char>>) -> Seq<char> {
    if parts.len() > 2 && text::trimmed(parts[2]).len() > 0 {
        text::trimmed(parts[2])
    } else {
        "medium"@
    }
}

/// The component of an entry `slug|Name|tier`, given those before it.
pub open spec fn entry_of(before: Seq<EntryView>, raw: Seq<char>) -> Result<
    EntryView,
    CliError<Seq<char>>,
> {
    let entry = text::trimmed(raw);
    let parts = text::pieces(entry, CharSet::One('|'));
    let slug = text::trimmed(parts[0]);
    let name = text::trimmed(parts[1]);
    let tier = tier_part(parts);
    if entry.len() == 0 {
        Err(CliError::EntryEmpty)
    } else if parts.len() < 2 || parts.len() > 3 {
        Err(CliError::EntryParts { entry })
    } else if slug.len() == 0 {
        Err(CliError::SlugEmpty { entry })
    } else if !discover::slug_ok(slug) {
        Err(CliError::SlugInvalid { slug, entry })
    } else if name.len() == 0 {
        Err(CliError::NameEmpty { entry })
    } else if !checklist::tier_words().contains(text::lowercase(tier)) {
        Err(CliError::TierUnknown { tier, entry })
    } else if has_slug(before, slug) {
        Err(CliError::SlugRepeated { slug })
    } else {
        Ok(EntryView { slug, name, tier: text::lowercase(tier) })
    }
}

/// The components of the entries, behind those before them.
pub open spec fn entries_of(before: Seq<EntryView>, raws: Seq<Seq<char>>) -> Result<
    Seq<EntryView>,
    CliError<Seq<char>>,
>
    decreases raws.len(),
{
    if raws.len() == 0 {
        Ok(before)
    } else {
        match entries_of(before, raws.drop_last()) {
            Err(e) => Err(e),
            Ok(l) => match entry_of(l, raws.last()) {
                Err(e) => Err(e),
                Ok(x) => Ok(l.push(x)),
            },
        }
    }
}

/// The components of the value of `--components`, behind those before them.
pub open spec fn list_value(before: Seq<EntryView>, v: Seq<char>) -> Result<
    Seq<EntryView>,
    CliError<Seq<char>>,
> {
    if v.len() == 0 {
        Err(CliError::ComponentsEmpty)
    } else if text::begins(v, "--"@) {
        Err(CliError::ComponentsFlag { given: v })
    } else if !text::has_char(v, CharSet::One('|')) {
        Err(CliError::ComponentsForm { given: v })
    } else {
        entries_of(before, text::pieces(v, CharSet::One(',')))
    }
}

/// The components that the arguments of `init` from `i` on name, behind those
/// before them.
pub open spec fn init_from(args: Seq<Seq<char>>, i: int, before: Seq<EntryView>) -> Result<
    Seq<EntryView>,
    CliError<Seq<char>>,
>
    decreases args.len() - i,
{
    if i < 0 || i >= args.len() {
        Ok(before)
    } else if args[i] != "--components"@ {
        Err(CliError::InitFlag { given: args[i] })
    } else if i + 1 >= args.len() {
        Err(CliError::ComponentsMissing)
    } else {
        match list_value(before, args[i + 1]) {
            Err(e) => Err(e),
            Ok(l) => init_from(args, i + 2, l),
        }
    }
}

fn knows_slug(l: &Vec<Entry>, slug: &str) -> (r: bool)
    ensures
        r == has_slug(entries(l@), slug@),
{
    let ghost all = entries(l@);
    let mut i: usize = 0;
    while i < l.len()
        invariant
            i <= l.len(),
            all == entries(l@),
            forall|j: int| 0 <= j < i ==> (#[trigger] all[j]).slug != slug@,
        decreases l.len() - i,
    {
        assert(all[i as int] == l@[i as int]@);
        if same(l[i].slug.as_str(), slug) {
            return true;
        }
        i = i + 1;
    }
    assert(all.len() == l@.len());
    false
}

fn read_entry(before: &Vec<Entry>, raw: &str) -> (r: Result<Entry, CliError<String>>)
    ensures
        match r {
            Ok(x) => entry_of(entries(before@), raw@) == Ok::<EntryView, CliError<Seq<char>>>(x@),
            Err(e) => entry_of(entries(before@), raw@) == Err::<EntryView, CliError<Seq<char>>>(e@),
        },
{
    let entry = trim(raw);
    if entry.is_empty() {
        return Err(CliError::EntryEmpty);
    }
    let parts = split(entry, CharSet::One('|'));
    let ghost all = text::texts(parts@);
    assert(all.len() == parts@.len());
    if parts.len() < 2 || parts.len() > 3 {
        return Err(CliError::EntryParts { entry: owned(entry) });
    }
    assert(all[0] == parts@[0]@ && all[1] == parts@[1]@);
    let slug = trim(parts[0].as_str());
    let name = trim(parts[1].as_str());
    if slug.is_empty() {
        return Err(CliError::SlugEmpty { entry: owned(entry) });
    }
    if !valid_slug(slug) {
        return Err(CliError::SlugInvalid { slug: owned(slug), entry: owned(entry) });
    }
    if name.is_empty() {
        return Err(CliError::NameEmpty { entry: owned(entry) });
    }
    let mut tier: &str = "medium";
    if parts.len() > 2 {
        assert(all[2] == parts@[2]@);
        let given = trim(parts[2].as_str());
        if !given.is_empty() {
            tier = given;
        }
    }
    assert(tier@ == tier_part(all));
    let lower = to_lower(tier);
    if !member(&tiers(), lower.as_str()) {
        return Err(CliError::TierUnknown { tier: owned(tier), entry: owned(entry) });
    }
    if knows_slug(before, slug) {
        return Err(CliError::SlugRepeated { slug: owned(slug) });
    }
    Ok(Entry { slug: owned(slug), name: owned(name), tier: lower })
}

proof fn lemma_entries_stop(before: Seq<EntryView>, raws: Seq<Seq<char>>, k: int)
    requires
        0 <= k <= raws.len(),
        entries_of(before, raws.take(k)) is Err,
    ensures
        entries_of(before, raws) == entries_of(before, raws.take(k)),
    decreases raws.len(),
{
    if k < raws.len() {
        assert(raws.drop_last().take(k) =~= raws.take(k));
        lemma_entries_stop(before, raws.drop_last(), k);
    } else {
        assert(raws.take(k) =~= raws);
    }
}

fn read_list(out: &mut Vec<Entry>, v: &str) -> (r: Result<(), CliError<String>>)
    ensures
        match r {
            Ok(_) => list_value(entries(old(out)@), v@) == Ok::<
                Seq<EntryView>,
                CliError<Seq<char>>,
            >(entries(final(out)@)),
            Err(e) => list_value(entries(old(out)@), v@) == Err::<
                Seq<EntryView>,
                CliError<Seq<char>>,
            >(e@),
        },
{
    let ghost before = entries(out@);
    if v.is_empty() {
        return Err(CliError::ComponentsEmpty);
    }
    if starts_with(v, "--") {
        return Err(CliError::ComponentsFlag { given: owned(v) });
    }
    if !contains_char(v, CharSet::One('|')) {
        return Err(CliError::ComponentsForm { given: owned(v) });
    }
    let raws = split(v, CharSet::One(','));
    let ghost all = text::texts(raws@);
    let mut i: usize = 0;
    assert(all.take(0) =~= Seq::empty());
    while i < raws.len()
        invariant
            i <= raws.len(),
            all == text::texts(raws@),
            all == text::pieces(v@, CharSet::One(',')),
            before == entries(old(out)@),
            list_value(before, v@) == entries_of(before, all),
            entries_of(before, all.take(i as int)) == Ok::<Seq<EntryView>, CliError<Seq<char>>>(
                entries(out@),
            ),
        decreases raws.len() - i,
    {
        assert(all.take(i + 1).drop_last() =~= all.take(i as int));
        assert(all.take(i + 1).last() == raws@[i as int]@);
        match read_entry(out, raws[i].as_str()) {
            Err(e) => {
                proof {
                    lemma_entries_stop(before, all, i + 1);
                }
                return Err(e);
            },
            Ok(x) => {
                let ghost was = entries(out@);
                let ghost y = x@;
                out.push(x);
                assert(entries(out@) =~= was.push(y));
            },
        }
        i = i + 1;
    }
    assert(all.take(all.len() as int) =~= all);
    Ok(())
}

/// The components that `init` is to use; none means that they are to be
/// discovered.
pub fn parse_components(args: &Vec<String>) -> (r: Result<Vec<Entry>, CliError<String>>)
    ensures
        match r {
            Ok(l) => init_from(text::texts(args@), 0, Seq::empty()) == Ok::<
                Seq<EntryView>,
                CliError<Seq<char>>,
            >(entries(l@)),
            Err(e) => init_from(text::texts(args@), 0, Seq::empty()) == Err::<
                Seq<EntryView>,
                CliError<Seq<char>>,
            >(e@),
        },
{
    let ghost all = text::texts(args@);
    let mut out: Vec<Entry> = Vec::new();
    let mut i: usize = 0;
    assert(entries(out@) =~= Seq::empty());
    while i < args.len()
        invariant
            i <= args.len(),
            all == text::texts(args@),
            all.len() == args@.len(),
            init_from(all, 0, Seq::empty()) == init_from(all, i as int, entries(out@)),
        decreases args.len() - i,
    {
        assert(all[i as int] == args@[i as int]@);
        if !same(args[i].as_str(), "--components") {
            return Err(CliError::InitFlag { given: args[i].clone() });
        }
        if args.len() - i < 2 {
            return Err(CliError::ComponentsMissing);
        }
        assert(all[i + 1] == args@[i + 1]@);
        match read_list(&mut out, args[i + 1].as_str()) {
            Err(e) => {
                return Err(e);
            },
            Ok(_) => {},
        }
        i = i + 2;
    }
    Ok(out)
}

pub open spec fn distinct_entries(l: Seq<EntryView>) -> bool {
    forall|i: int, j: int|
        0 <= i < j < l.len() ==> (#[trigger] l[i]).slug != (#[trigger] l[j]).slug
}

pub open spec fn sound_entry(e: EntryView) -> bool {
    discover::slug_ok(e.slug) && e.name.len() > 0 && checklist::tier_words().contains(e.tier)
}

proof fn lemma_entries_sound(before: Seq<EntryView>, raws: Seq<Seq<char>>)
    requires
        distinct_entries(before),
        forall|i: int| 0 <= i < before.len() ==> sound_entry(#[trigger] before[i]),
        entries_of(before, raws) is Ok,
    ensures
        distinct_entries(entries_of(before, raws)->Ok_0),
        forall|i: int|
            0 <= i < entries_of(before, raws)->Ok_0.len() ==> sound_entry(
                #[trigger] entries_of(before, raws)->Ok_0[i],
            ),
    decreases raws.len(),
{
    if raws.len() > 0 {
        lemma_entries_sound(before, raws.drop_last());
        let l = entries_of(before, raws.drop_last())->Ok_0;
        let x = entry_of(l, raws.last())->Ok_0;
        let all = l.push(x);
        assert forall|i: int, j: int| 0 <= i < j < all.len() implies (#[trigger] all[i]).slug != (
        #[trigger] all[j]).slug by {
            if j == l.len() {
                assert(l[i].slug != x.slug);
            }
        }
        assert forall|i: int| 0 <= i < all.len() implies sound_entry(#[trigger] all[i]) by {
            if i < l.len() {
                assert(sound_entry(l[i]));
            }
        }
    }
}

/// The components that are named on the command line can be worked on: each has
/// a valid slug that no other has, a name, and a known tier.
pub proof fn law_named_components_are_sound(
    args: Seq<Seq<char>>,
    i: int,
    before: Seq<EntryView>,
)
    requires
        0 <= i,
        distinct_entries(before),
        forall|k: int| 0 <= k < before.len() ==> sound_entry(#[trigger] before[k]),
        init_from(args, i, before) is Ok,
    ensures
        distinct_entries(init_from(args, i, before)->Ok_0),
        forall|k: int|
            0 <= k < init_from(args, i, before)->Ok_0.len() ==> sound_entry(
                #[trigger] init_from(args, i, before)->Ok_0[k],
            ),
    decreases args.len() - i,
{
    if i < args.len() {
        let v = args[i + 1];
        let raws = text::pieces(v, CharSet::One(','));
        lemma_entries_sound(before, raws);
        law_named_components_are_sound(args, i + 2, list_value(before, v)->Ok_0);
    }
}

// ---------------------------------------------------------------------
// Recorded progress
// ---------------------------------------------------------------------

/// The row records a phase other than the first.
pub open spec fn progressed(row: JsonView) -> bool {
    row.text_member("phase"@) is Some && row.text_member("phase"@) != Some("pending"@)
}

/// A state file records progress: some component is in another phase than the
/// first.
pub open spec fn records_progress(doc: JsonView) -> bool {
    match doc.member("components"@) {
        Some(JsonView::Object(m)) => any_progress(m),
        _ => false,
    }
}

pub open spec fn any_progress(m: Map<Seq<char>, JsonView>) -> bool {
    exists|k: Seq<char>| #[trigger] m.dom().contains(k) && progressed(m[k])
}

fn has_moved(row: &serde_json::Value) -> (r: bool)
    ensures
        r == progressed(json::json_view(*row)),
{
    match json::field(row, "phase") {
        Some(p) => !same(p, "pending"),
        None => false,
    }
}

/// Whether a state document records progress.
pub fn has_progress(doc: &serde_json::Value) -> (r: bool)
    ensures
        r == records_progress(json::json_view(*doc)),
{
    let rows: &serde_json::Value = match json::get(doc, "components") {
        Some(v) => v,
        None => {
            return false;
        },
    };
    let values: Vec<&serde_json::Value> = match json::member_values(rows) {
        Some(l) => l,
        None => {
            return false;
        },
    };
    let ghost m = json::json_view(*rows)->Object_0;
    let ghost all = values@.map_values(|x: &serde_json::Value| json::json_view(*x));
    let mut i: usize = 0;
    while i < values.len()
        invariant
            i <= values.len(),
            all == values@.map_values(|x: &serde_json::Value| json::json_view(*x)),
            all.to_set() == m.values(),
            json::json_view(*doc).member("components"@) == Some(JsonView::Object(m)),
            forall|j: int| 0 <= j < i ==> !progressed(#[trigger] all[j]),
        decreases values.len() - i,
    {
        assert(all[i as int] == json::json_view(*values@[i as int]));
        if has_moved(values[i]) {
            proof {
                assert(all.to_set().contains(all[i as int]));
                assert(m.values().contains(all[i as int]));
                let k = choose|k: Seq<char>| #[trigger] m.dom().contains(k) && m[k] == all[i as int];
                assert(m.dom().contains(k) && progressed(m[k]));
                assert(any_progress(m));
            }
            return true;
        }
        i = i + 1;
    }
    proof {
        if any_progress(m) {
            let k = choose|k: Seq<char>| #[trigger] m.dom().contains(k) && progressed(m[k]);
            assert(m.values().contains(m[k]));
            assert(all.to_set().contains(m[k]));
            let j = choose|j: int| 0 <= j < all.len() && all[j] == m[k];
            assert(!progressed(all[j]));
        }
    }
    false
}

/// Whether a state file records progress, which a fresh checklist would lose; or
/// why the file cannot be read.
pub fn ensure_no_recorded_progress(state_text: &str) -> (r: Result<bool, String>)
    ensures
        match r {
            Ok(b) => json::json_document(state_text@) is Ok && b == records_progress(
                json::json_document(state_text@)->Ok_0,
            ),
            Err(e) => json::json_document(state_text@) == Err::<JsonView, Seq<char>>(e@),
        },
{
    match json::parse_json(state_text) {
        Ok(doc) => Ok(has_progress(&doc)),
        Err(e) => Err(e),
    }
}

// ---------------------------------------------------------------------
// Laws of the command line
// ---------------------------------------------------------------------

/// `run` takes no argument, or the one that asks for a review alone.
pub proof fn law_arguments_of_run(args: Seq<Seq<char>>)
    ensures
        run_mode(Seq::empty()) == Ok::<bool, CliError<Seq<char>>>(false),
        run_mode(seq!["--review-only"@]) == Ok::<bool, CliError<Seq<char>>>(true),
        args.len() > 0 && args != seq!["--review-only"@] ==> run_mode(args) == Err::<
            bool,
            CliError<Seq<char>>,
        >(CliError::RunArguments { given: text::joined(args, " "@) }),
{
    if args.len() == 1 && args[0] == "--review-only"@ {
        assert(args =~= seq!["--review-only"@]);
    }
}

/// `status` shows eight lines, or as many as `--tail` asks for; anything else is
/// refused, and so is a number that is none or zero.
pub proof fn law_arguments_of_status(n: usize, x: Seq<char>)
    ensures
        tail_asked(Seq::empty()) == Ok::<nat, CliError<Seq<char>>>(8nat),
        n > 0 ==> tail_asked(seq!["--tail"@, number::decimal(n as nat)]) == Ok::<
            nat,
            CliError<Seq<char>>,
        >(n as nat),
        tail_asked(seq!["--tail"@, number::decimal(0)]) == Err::<nat, CliError<Seq<char>>>(
            CliError::TailZero,
        ),
        tail_asked(seq!["--tail"@]) == Err::<nat, CliError<Seq<char>>>(CliError::TailMissing),
        x != "--tail"@ ==> tail_asked(seq![x]) == Err::<nat, CliError<Seq<char>>>(
            CliError::StatusArgument { given: x },
        ),
        x != "--tail"@ && number::parsed(x, usize::MAX as nat) is None ==> tail_asked(
            seq!["--tail"@, x],
        ) == Err::<nat, CliError<Seq<char>>>(CliError::TailNotNumber { given: x }),
{
    reveal_strlit("--tail");
    reveal_with_fuel(tails, 3);
    reveal_with_fuel(tail_from, 3);
    number::law_decimals_read_back(n as nat, usize::MAX as nat);
    number::law_decimals_read_back(0, usize::MAX as nat);
    number::lemma_decimal(n as nat);
    number::lemma_decimal(0);
    let d = number::decimal(n as nat);
    let z = number::decimal(0);
    assert(text::is_digit(d[0]) && text::is_digit(z[0]));
    assert(d[0] != "--tail"@[0] && z[0] != "--tail"@[0]);
    let a = seq!["--tail"@, d];
    let b = seq!["--tail"@, z];
    let c = seq!["--tail"@, x];
    let t = seq!["--tail"@];
    let o = seq![x];
    assert(a.drop_last() =~= t && b.drop_last() =~= t && c.drop_last() =~= t);
    assert(t.drop_last() =~= Seq::empty() && o.drop_last() =~= Seq::empty());
    assert(tails(t) == 1 && tails(a) == 1 && tails(b) == 1);
    assert(a[0] == "--tail"@ && a[1] == d && b[0] == "--tail"@ && b[1] == z && c[0] == "--tail"@
        && c[1] == x);
}

/// A flag that is there more than once is refused with how often it is there.
pub proof fn law_repeated_tails(args: Seq<Seq<char>>)
    ensures
        tails(args) == args.filter(|a: Seq<char>| a == "--tail"@).len(),
        tails(args) > 1 ==> tail_asked(args) == Err::<nat, CliError<Seq<char>>>(
            CliError::TailRepeated { times: tails(args) as usize },
        ),
    decreases args.len(),
{
    reveal(Seq::filter);
    if args.len() > 0 {
        law_repeated_tails(args.drop_last());
    }
}

/// The components that `requeue` is asked for are all of its arguments but
/// `--all`, in their order; another flag is refused.
pub proof fn law_words_of_requeue(args: Seq<Seq<char>>)
    ensures
        requeue_words(args) is Ok <==> forall|i: int|
            0 <= i < args.len() ==> !text::begins(#[trigger] args[i], "--"@) || args[i]
                == "--all"@,
        requeue_words(args) matches Ok((slugs, all)) ==> slugs == args.filter(
            |a: Seq<char>| a != "--all"@,
        ) && (all <==> args.contains("--all"@)),
    decreases args.len(),
{
    reveal(Seq::filter);
    if args.len() > 0 {
        let front = args.drop_last();
        law_words_of_requeue(front);
        assert(args[args.len() - 1] == args.last());
        if requeue_words(args) is Ok {
            assert forall|i: int| 0 <= i < args.len() implies !text::begins(
                #[trigger] args[i],
                "--"@,
            ) || args[i] == "--all"@ by {
                if i < front.len() {
                    assert(front[i] == args[i]);
                }
            }
        } else if requeue_words(front) is Err {
            let i = choose|i: int|
                0 <= i < front.len() && !(!text::begins(#[trigger] front[i], "--"@) || front[i]
                    == "--all"@);
            assert(front[i] == args[i]);
        }
        if front.contains("--all"@) {
            let i = choose|i: int| 0 <= i < front.len() && front[i] == "--all"@;
            assert(args[i] == "--all"@);
        }
        if args.contains("--all"@) && args.last() != "--all"@ {
            let i = choose|i: int| 0 <= i < args.len() && args[i] == "--all"@;
            assert(front[i] == "--all"@);
        }
    }
}

/// `requeue` is asked for slugs or for all, and for one of them.
pub proof fn law_requeue_asks_for_something(args: Seq<Seq<char>>)
    ensures
        requeue_words(args) is Err ==> requeue_asked(args) == requeue_words(args),
        requeue_words(args) matches Ok((slugs, all)) ==> {
            &&& all && slugs.len() > 0 ==> requeue_asked(args) == Err::<
                (Seq<Seq<char>>, bool),
                CliError<Seq<char>>,
            >(CliError::RequeueBoth)
            &&& !all && slugs.len() == 0 ==> requeue_asked(args) == Err::<
                (Seq<Seq<char>>, bool),
                CliError<Seq<char>>,
            >(CliError::RequeueNothing)
            &&& all != (slugs.len() > 0) ==> requeue_asked(args) == requeue_words(args)
        },
{
}

/// An entry `slug|Name|tier` is a component with these three, and without a tier
/// it is of the middle one; its slug must be valid and new.
pub proof fn law_entries_are_components(
    before: Seq<EntryView>,
    slug: Seq<char>,
    name: Seq<char>,
    tier: Seq<char>,
)
    requires
        discover::slug_ok(slug),
        name.len() > 0,
        !text::is_space(name[0]) && !text::is_space(name.last()),
        !text::has_char(name, CharSet::One('|')),
        tier.len() > 0,
        !text::is_space(tier[0]) && !text::is_space(tier.last()),
        !text::has_char(tier, CharSet::One('|')),
    ensures
        ({
            let raw = slug + "|"@ + name + "|"@ + tier;
            let known = text::lowercase(tier) == "high"@ || text::lowercase(tier) == "medium"@
                || text::lowercase(tier) == "low"@;
            &&& known && !has_slug(before, slug) ==> entry_of(before, raw) == Ok::<
                EntryView,
                CliError<Seq<char>>,
            >(EntryView { slug, name, tier: text::lowercase(tier) })
            &&& known && has_slug(before, slug) ==> entry_of(before, raw) == Err::<
                EntryView,
                CliError<Seq<char>>,
            >(CliError::SlugRepeated { slug })
            &&& !known ==> entry_of(before, raw) == Err::<EntryView, CliError<Seq<char>>>(
                CliError::TierUnknown { tier, entry: raw },
            )
        }),
        text::lowercase("medium"@) == "medium"@ && !has_slug(before, slug) ==> entry_of(
            before,
            slug + "|"@ + name,
        ) == Ok::<EntryView, CliError<Seq<char>>>(
            EntryView { slug, name, tier: text::lowercase("medium"@) },
        ),
{
    reveal_strlit("|");
    discover::law_valid_slugs(slug);
    let set = CharSet::One('|');
    assert(!text::is_space(slug[0]) && !text::is_space(slug[slug.len() - 1]));
    assert(!text::has_char(slug, set)) by {
        assert forall|i: int| 0 <= i < slug.len() implies !set.has(#[trigger] slug[i]) by {}
    }
    text::law_trimmed_stays(slug);
    text::law_trimmed_stays(name);
    text::law_trimmed_stays(tier);
    let e = Seq::<char>::empty();
    assert forall|i: int| 0 <= i < slug.len() implies !set.has(#[trigger] slug[i]) by {}
    crate::roundtrip::lemma_pieces_extend(e, slug, set);
    assert(e + slug =~= slug);
    assert(text::pieces(e, set) =~= seq![e]);
    assert(text::pieces(slug, set) =~= seq![slug]);
    let two = slug + "|"@ + name;
    assert(two =~= slug.push('|') + name);
    crate::roundtrip::lemma_pieces_cut(slug, '|', name);
    assert(text::pieces(two, set) =~= seq![slug, name]);
    assert(two[0] == slug[0] && two.last() == name.last());
    text::law_trimmed_stays(two);
    let three = two + "|"@ + tier;
    assert(three =~= two.push('|') + tier);
    crate::roundtrip::lemma_pieces_cut(two, '|', tier);
    assert(text::pieces(three, set) =~= seq![slug, name, tier]);
    assert(three[0] == slug[0] && three.last() == tier.last());
    text::law_trimmed_stays(three);
    let w = checklist::tier_words();
    assert(w[0] == "high"@ && w[1] == "medium"@ && w[2] == "low"@);
    assert(w.contains(text::lowercase(tier)) <==> text::lowercase(tier) == "high"@
        || text::lowercase(tier) == "medium"@ || text::lowercase(tier) == "low"@);
    assert(text::lowercase("medium"@) == "medium"@ ==> w.contains(text::lowercase("medium"@)));
}

/// Every entry adds one component, in its place: with the slug and the name that
/// stand before and behind its first bar. What was named before stays in front.
pub proof fn law_every_entry_is_taken(before: Seq<EntryView>, raws: Seq<Seq<char>>)
    requires
        entries_of(before, raws) is Ok,
    ensures
        entries_of(before, raws)->Ok_0.len() == before.len() + raws.len(),
        entries_of(before, raws)->Ok_0.take(before.len() as int) == before,
        forall|i: int|
            0 <= i < raws.len() ==> {
                let x = entries_of(before, raws)->Ok_0[before.len() + i];
                let parts = text::pieces(text::trimmed(#[trigger] raws[i]), CharSet::One('|'));
                &&& 2 <= parts.len() <= 3
                &&& x.slug == text::trimmed(parts[0])
                &&& x.name == text::trimmed(parts[1])
                &&& parts.len() == 3 && text::trimmed(parts[2]).len() > 0 ==> x.tier
                    == text::lowercase(text::trimmed(parts[2]))
            },
    decreases raws.len(),
{
    if raws.len() > 0 {
        let front = raws.drop_last();
        law_every_entry_is_taken(before, front);
        let l = entries_of(before, front)->Ok_0;
        let all = entries_of(before, raws)->Ok_0;
        assert(all.take(before.len() as int) =~= l.take(before.len() as int));
        assert forall|i: int| 0 <= i < raws.len() implies ({
            let x = all[before.len() + i];
            let parts = text::pieces(text::trimmed(#[trigger] raws[i]), CharSet::One('|'));
            &&& 2 <= parts.len() <= 3
            &&& x.slug == text::trimmed(parts[0])
            &&& x.name == text::trimmed(parts[1])
            &&& parts.len() == 3 && text::trimmed(parts[2]).len() > 0 ==> x.tier
                == text::lowercase(text::trimmed(parts[2]))
        }) by {
            if i < front.len() {
                assert(front[i] == raws[i]);
                assert(all[before.len() + i] == l[before.len() + i]);
            } else {
                assert(raws[i] == raws.last());
            }
        }
    } else {
        assert(before.take(before.len() as int) =~= before);
    }
}

/// `init` takes the lists of components one after another, and nothing else.
pub proof fn law_arguments_of_init(args: Seq<Seq<char>>, i: int, before: Seq<EntryView>)
    requires
        0 <= i <= args.len(),
    ensures
        i == args.len() ==> init_from(args, i, before) == Ok::<
            Seq<EntryView>,
            CliError<Seq<char>>,
        >(before),
        i < args.len() && args[i] != "--components"@ ==> init_from(args, i, before) == Err::<
            Seq<EntryView>,
            CliError<Seq<char>>,
        >(CliError::InitFlag { given: args[i] }),
        i == args.len() - 1 && args[i] == "--components"@ ==> init_from(args, i, before) == Err::<
            Seq<EntryView>,
            CliError<Seq<char>>,
        >(CliError::ComponentsMissing),
        i < args.len() - 1 && args[i] == "--components"@ ==> (list_value(
            before,
            args[i + 1],
        ) matches Ok(l) ==> init_from(args, i, before) == init_from(args, i + 2, l)),
        i < args.len() - 1 && args[i] == "--components"@ ==> (list_value(
            before,
            args[i + 1],
        ) is Err ==> init_from(args, i, before) == list_value(before, args[i + 1])),
{
}

/// A list of components is read entry by entry, between the commas; what is no
/// such list is refused.
pub proof fn law_lists_of_components(before: Seq<EntryView>, v: Seq<char>)
    ensures
        v.len() == 0 ==> list_value(before, v) is Err,
        text::begins(v, "--"@) ==> list_value(before, v) is Err,
        !text::has_char(v, CharSet::One('|')) ==> list_value(before, v) is Err,
        v.len() > 0 && !text::begins(v, "--"@) && text::has_char(v, CharSet::One('|'))
            ==> list_value(before, v) == entries_of(before, text::pieces(v, CharSet::One(','))),
{
}

/// Progress is recorded exactly where some component has left its first phase.
pub proof fn law_recorded_progress(doc: JsonView, m: Map<Seq<char>, JsonView>)
    ensures
        doc.member("components"@) == Some(JsonView::Object(m)) ==> (records_progress(doc)
            <==> exists|k: Seq<char>| #[trigger]
            m.dom().contains(k) && (m[k].member("phase"@) matches Some(JsonView::Text(p)) && p
                != "pending"@)),
        !(doc.member("components"@) matches Some(JsonView::Object(_))) ==> !records_progress(doc),
{
    if doc.member("components"@) == Some(JsonView::Object(m)) {
        if any_progress(m) {
            let k = choose|k: Seq<char>| #[trigger] m.dom().contains(k) && progressed(m[k]);
            assert(m.dom().contains(k));
        }
    }
}

/// What is wrong with an entry is told, with the entry itself.
pub proof fn law_faulty_entries(before: Seq<EntryView>, raw: Seq<char>)
    ensures
        ({
            let entry = text::trimmed(raw);
            let parts = text::pieces(entry, CharSet::One('|'));
            let r = entry_of(before, raw);
            let err = |e: CliError<Seq<char>>| Err::<EntryView, CliError<Seq<char>>>(e);
            &&& entry.len() == 0 <==> r == err(CliError::EntryEmpty)
            &&& entry.len() > 0 && parts.len() != 2 && parts.len() != 3 ==> r == err(
                CliError::EntryParts { entry },
            )
            &&& entry.len() > 0 && (parts.len() == 2 || parts.len() == 3) ==> {
                let slug = text::trimmed(parts[0]);
                let name = text::trimmed(parts[1]);
                &&& slug.len() == 0 ==> r == err(CliError::SlugEmpty { entry })
                &&& slug.len() > 0 && !discover::slug_ok(slug) ==> r == err(
                    CliError::SlugInvalid { slug, entry },
                )
                &&& discover::slug_ok(slug) && slug.len() > 0 && name.len() == 0 ==> r == err(
                    CliError::NameEmpty { entry },
                )
            }
        }),
{
}

/// Lists of entries are read one after another, and the first fault ends the
/// reading.
pub proof fn law_entries_are_read_in_order(
    before: Seq<EntryView>,
    a: Seq<Seq<char>>,
    b: Seq<Seq<char>>,
)
    ensures
        entries_of(before, a) is Err ==> entries_of(before, a + b) == entries_of(before, a),
        entries_of(before, a) matches Ok(l) ==> entries_of(before, a + b) == entries_of(l, b),
    decreases b.len(),
{
    if b.len() > 0 {
        law_entries_are_read_in_order(before, a, b.drop_last());
        assert((a + b).drop_last() =~= a + b.drop_last());
        assert((a + b).last() == b.last());
    } else {
        assert(a + b =~= a);
    }
}

/// A value that is no list of components is told as what it is.
pub proof fn law_values_that_are_no_lists(before: Seq<EntryView>, v: Seq<char>)
    ensures
        ({
            let err = |e: CliError<Seq<char>>| Err::<Seq<EntryView>, CliError<Seq<char>>>(e);
            &&& list_value(before, Seq::empty()) == err(CliError::ComponentsEmpty)
            &&& v.len() > 0 && text::begins(v, "--"@) ==> list_value(before, v) == err(
                CliError::ComponentsFlag { given: v },
            )
            &&& v.len() > 0 && !text::begins(v, "--"@) && !text::has_char(v, CharSet::One('|'))
                ==> list_value(before, v) == err(CliError::ComponentsForm { given: v })
        }),
{
}

} // verus!
