//! What is to be worked on: the first list of components, the order of a
//! review, the list as it is written back, and the way out of quarantine.

use vstd::prelude::*;
use crate::checklist;
use crate::checklist::{tier_rank, Component, ComponentView};
use crate::cli;
use crate::cli::Entry;
use crate::discover;
use crate::discover::DiscoveredComponent;
use crate::number;
use crate::number::{to_decimal, wide_to_decimal};
use crate::report;
use crate::state;
use crate::state::{transition, Phase, RowView, State};
use crate::text;
use crate::text::{copied, ends_with, head_chars, join, less, lines_of, owned, starts_with, trim, Draft};

verus! {

// ---------------------------------------------------------------------
// The first list
// ---------------------------------------------------------------------

/// The component that an entry of the command line names.
pub open spec fn named(e: cli::EntryView) -> ComponentView {
    ComponentView {
        slug: e.slug,
        name: e.name,
        tier: text::lowercase(e.tier),
        done: false,
        paths: Seq::empty(),
        verify: Seq::empty(),
    }
}

/// The component that a discovery yields.
pub open spec fn discovered(c: discover::FoundView) -> ComponentView {
    ComponentView {
        slug: c.slug,
        name: c.name,
        tier: text::lowercase(c.tier),
        done: false,
        paths: c.paths,
        verify: Seq::empty(),
    }
}

/// The components that the entries of the command line name.
pub fn named_components(entries: &Vec<Entry>) -> (r: Vec<Component>)
    ensures
        checklist::views(r@) == cli::entries(entries@).map_values(|e: cli::EntryView| named(e)),
{
    let ghost all = cli::entries(entries@).map_values(|e: cli::EntryView| named(e));
    let mut out: Vec<Component> = Vec::new();
    let mut i: usize = 0;
    assert(checklist::views(out@) =~= all.take(0));
    while i < entries.len()
        invariant
            i <= entries.len(),
            all == cli::entries(entries@).map_values(|e: cli::EntryView| named(e)),
            checklist::views(out@) == all.take(i as int),
        decreases entries.len() - i,
    {
        let e = &entries[i];
        let ghost was = checklist::views(out@);
        let c = Component::new(e.slug.as_str(), e.name.as_str(), e.tier.as_str());
        let ghost v = c@;
        assert(cli::entries(entries@)[i as int] == e@);
        assert(all[i as int] == v);
        out.push(c);
        assert(checklist::views(out@) =~= was.push(v));
        assert(all.take(i as int).push(all[i as int]) =~= all.take(i + 1));
        i = i + 1;
    }
    assert(all.take(all.len() as int) =~= all);
    out
}

/// The components that a discovery yields.
pub fn discovered_components(found: &Vec<DiscoveredComponent>) -> (r: Vec<Component>)
    ensures
        checklist::views(r@) == discover::found(found@).map_values(
            |c: discover::FoundView| discovered(c),
        ),
{
    let ghost all = discover::found(found@).map_values(|c: discover::FoundView| discovered(c));
    let mut out: Vec<Component> = Vec::new();
    let mut i: usize = 0;
    assert(checklist::views(out@) =~= all.take(0));
    while i < found.len()
        invariant
            i <= found.len(),
            all == discover::found(found@).map_values(|c: discover::FoundView| discovered(c)),
            checklist::views(out@) == all.take(i as int),
        decreases found.len() - i,
    {
        let f = &found[i];
        let ghost was = checklist::views(out@);
        let mut c = Component::new(f.slug.as_str(), f.name.as_str(), f.tier.as_str());
        c.paths = copied(&f.paths);
        let ghost v = c@;
        assert(discover::found(found@)[i as int] == f@);
        assert(all[i as int] == v);
        out.push(c);
        assert(checklist::views(out@) =~= was.push(v));
        assert(all.take(i as int).push(all[i as int]) =~= all.take(i + 1));
        i = i + 1;
    }
    assert(all.take(all.len() as int) =~= all);
    out
}

/// The component with the paths that its row records.
pub open spec fn with_row_paths(c: ComponentView, m: Map<Seq<char>, RowView>) -> ComponentView {
    if m.dom().contains(c.slug) {
        ComponentView { paths: m[c.slug].paths, ..c }
    } else {
        c
    }
}

/// The components with the paths that their rows record.
pub fn checklist_from_state(st: &State, list: &Vec<Component>) -> (r: Vec<Component>)
    requires
        st.wf(),
    ensures
        checklist::views(r@) == checklist::views(list@).map_values(
            |c: ComponentView| with_row_paths(c, st.components@),
        ),
{
    let ghost m = st.components@;
    let ghost all = checklist::views(list@).map_values(|c: ComponentView| with_row_paths(c, m));
    let mut out: Vec<Component> = Vec::new();
    let mut i: usize = 0;
    assert(checklist::views(out@) =~= all.take(0));
    while i < list.len()
        invariant
            i <= list.len(),
            st.wf(),
            m == st.components@,
            all == checklist::views(list@).map_values(|c: ComponentView| with_row_paths(c, m)),
            checklist::views(out@) == all.take(i as int),
        decreases list.len() - i,
    {
        let ghost was = checklist::views(out@);
        assert(checklist::views(list@)[i as int] == list@[i as int]@);
        let mut c = list[i].duplicate();
        if let Some(row) = st.get(list[i].slug.as_str()) {
            c.paths = copied(&row.paths);
        }
        let ghost v = c@;
        assert(all[i as int] == v);
        out.push(c);
        assert(checklist::views(out@) =~= was.push(v));
        assert(all.take(i as int).push(all[i as int]) =~= all.take(i + 1));
        i = i + 1;
    }
    assert(all.take(all.len() as int) =~= all);
    out
}

/// The rows with the path that each of the first components stands for, where
/// there is one.
pub open spec fn with_resolved(
    m: Map<Seq<char>, RowView>,
    cs: Seq<ComponentView>,
    resolved: Seq<Option<Seq<char>>>,
) -> Map<Seq<char>, RowView>
    decreases cs.len(),
{
    if cs.len() == 0 || resolved.len() != cs.len() {
        m
    } else {
        let before = with_resolved(m, cs.drop_last(), resolved.drop_last());
        let slug = cs.last().slug;
        match resolved.last() {
            Some(p) => if before.dom().contains(slug) {
                before.insert(slug, RowView { paths: seq![p], ..before[slug] })
            } else {
                before
            },
            None => before,
        }
    }
}

/// The texts of a vector of optional strings.
pub open spec fn opts(v: Seq<Option<String>>) -> Seq<Option<Seq<char>>> {
    v.map_values(|s: Option<String>| text::opt(s))
}

/// The first state, and the first list, of the components that were named;
/// `resolved` is the path that the slug of each stands for.
pub fn init(list: &Vec<Component>, resolved: &Vec<Option<String>>) -> (r: (State, Vec<Component>))
    requires
        resolved@.len() == list@.len(),
    ensures
        r.0.wf(),
        r.0.components@ == with_resolved(
            state::synced(Map::empty(), checklist::views(list@)),
            checklist::views(list@),
            opts(resolved@),
        ),
        checklist::views(r.1@) == checklist::views(list@).map_values(
            |c: ComponentView| with_row_paths(c, r.0.components@),
        ),
{
    let mut st: State = Default::default();
    st.sync(list);
    let ghost start = st.components@;
    let ghost all = checklist::views(list@);
    let ghost places = opts(resolved@);
    let mut i: usize = 0;
    assert(all.take(0) =~= Seq::empty());
    while i < list.len()
        invariant
            i <= list.len(),
            list@.len() == resolved@.len(),
            st.wf(),
            all == checklist::views(list@),
            places == opts(resolved@),
            st.components@ == with_resolved(start, all.take(i as int), places.take(i as int)),
        decreases list.len() - i,
    {
        assert(all.take(i + 1).drop_last() =~= all.take(i as int));
        assert(places.take(i + 1).drop_last() =~= places.take(i as int));
        assert(all.take(i + 1).last() == list@[i as int]@);
        assert(places.take(i + 1).last() == text::opt(resolved@[i as int]));
        if let Some(p) = &resolved[i] {
            let mut paths: Vec<String> = Vec::new();
            paths.push(p.clone());
            assert(text::texts(paths@) =~= seq![p@]);
            if let Some(row) = st.components.get_mut(list[i].slug.as_str()) {
                row.paths = paths;
            }
        }
        i = i + 1;
    }
    assert(all.take(all.len() as int) =~= all);
    assert(places.take(places.len() as int) =~= places);
    let shown = checklist_from_state(&st, list);
    (st, shown)
}

// ---------------------------------------------------------------------
// The list as it is written back
// ---------------------------------------------------------------------

/// The component as its row has it: ticked where it is done, with the recorded
/// paths where there are any.
pub open spec fn written_back(c: ComponentView, m: Map<Seq<char>, RowView>) -> ComponentView {
    if m.dom().contains(c.slug) {
        ComponentView {
            done: m[c.slug].phase is Done,
            paths: if m[c.slug].paths.len() == 0 {
                c.paths
            } else {
                m[c.slug].paths
            },
            ..c
        }
    } else {
        c
    }
}

/// The list as the state has it: ticks and paths.
pub fn persist_checklist(list: &Vec<Component>, st: &State) -> (r: Vec<Component>)
    requires
        st.wf(),
    ensures
        checklist::views(r@) == checklist::views(list@).map_values(
            |c: ComponentView| written_back(c, st.components@),
        ),
{
    let ghost m = st.components@;
    let ghost all = checklist::views(list@).map_values(|c: ComponentView| written_back(c, m));
    let mut out: Vec<Component> = Vec::new();
    let mut i: usize = 0;
    assert(checklist::views(out@) =~= all.take(0));
    while i < list.len()
        invariant
            i <= list.len(),
            st.wf(),
            m == st.components@,
            all == checklist::views(list@).map_values(|c: ComponentView| written_back(c, m)),
            checklist::views(out@) == all.take(i as int),
        decreases list.len() - i,
    {
        let ghost was = checklist::views(out@);
        assert(checklist::views(list@)[i as int] == list@[i as int]@);
        let mut c = list[i].duplicate();
        if let Some(row) = st.get(list[i].slug.as_str()) {
            c.done = row.phase == Phase::Done;
            assert(text::texts(row.paths@).len() == row.paths@.len());
            if row.paths.len() > 0 {
                c.paths = copied(&row.paths);
            }
        }
        let ghost v = c@;
        assert(all[i as int] == v);
        out.push(c);
        assert(checklist::views(out@) =~= was.push(v));
        assert(all.take(i as int).push(all[i as int]) =~= all.take(i + 1));
        i = i + 1;
    }
    assert(all.take(all.len() as int) =~= all);
    out
}

/// A list that was written back and is read again agrees with the state: a sync
/// with it moves no component that is pending or done, nor one under work. Only
/// a component that is parked would start over, because its tick is missing.
pub proof fn law_written_back_list_agrees(m: Map<Seq<char>, RowView>, c: ComponentView)
    requires
        m.dom().contains(c.slug),
        !(m[c.slug].phase is Failed),
    ensures
        ({
            let was = m[c.slug];
            let now = state::refreshed_row(was, written_back(c, m));
            &&& now.phase == was.phase
            &&& now.findings == was.findings
            &&& now.detail == was.detail
            &&& now.commit == was.commit
            &&& was.paths.len() > 0 ==> now.paths == was.paths
        }),
{
}

// ---------------------------------------------------------------------
// What a later discovery is told
// ---------------------------------------------------------------------

/// The paths that are told of a component: those of its row, or those of the
/// list where the row has none.
pub open spec fn told_paths(c: ComponentView, m: Map<Seq<char>, RowView>) -> Seq<Seq<char>> {
    if m.dom().contains(c.slug) && m[c.slug].paths.len() > 0 {
        m[c.slug].paths
    } else {
        c.paths
    }
}

/// What is told of a component.
pub open spec fn told_line(c: ComponentView, m: Map<Seq<char>, RowView>) -> Seq<char> {
    let paths = text::joined(told_paths(c, m), ", "@);
    "- "@ + c.slug + " — "@ + c.name + " ["@ + c.tier + "]"@ + (if paths.len() == 0 {
        Seq::empty()
    } else {
        "  paths: "@ + paths
    })
}

pub open spec fn told_lines(cs: Seq<ComponentView>, m: Map<Seq<char>, RowView>) -> Seq<Seq<char>> {
    cs.map_values(|c: ComponentView| told_line(c, m))
}

/// The rows of a state, where there is one.
pub open spec fn rows_in(st: Option<&State>) -> Map<Seq<char>, RowView> {
    match st {
        Some(s) => s.components@,
        None => Map::empty(),
    }
}

fn make_told_line(c: &Component, st: Option<&State>) -> (r: String)
    requires
        st matches Some(s) ==> s.wf(),
    ensures
        r@ == told_line(c@, rows_in(st)),
{
    let mut paths: String = join(&c.paths, ", ");
    if let Some(s) = st {
        if let Some(row) = s.get(c.slug.as_str()) {
            assert(text::texts(row.paths@).len() == row.paths@.len());
            if row.paths.len() > 0 {
                paths = join(&row.paths, ", ");
            }
        }
    }
    let tail: String = if paths.as_str().is_empty() {
        let none: String = String::new();
        assert(none@ =~= Seq::empty());
        none
    } else {
        Draft::of("  paths: ").put(paths.as_str()).text
    };
    Draft::of("- ").put(c.slug.as_str()).put(" — ").put(c.name.as_str()).put(" [").put(
        c.tier.as_str(),
    ).put("]").put(tail.as_str()).text
}

/// What a discovery is told where there is no list yet.
pub const NO_CHECKLIST: &'static str =
    "No existing checklist. Invent fresh slugs for every component.";

/// What a discovery is told of the components that there are, so that it keeps
/// their slugs.
pub fn load_existing_slugs(list: &Vec<Component>, st: Option<&State>) -> (r: String)
    requires
        st matches Some(s) ==> s.wf(),
    ensures
        r@ == (if list@.len() == 0 {
            NO_CHECKLIST@
        } else {
            text::joined(told_lines(checklist::views(list@), rows_in(st)), "\n"@)
        }),
{
    if list.len() == 0 {
        return owned(NO_CHECKLIST);
    }
    let ghost all = told_lines(checklist::views(list@), rows_in(st));
    let mut out: Vec<String> = Vec::new();
    let mut i: usize = 0;
    assert(text::texts(out@) =~= all.take(0));
    while i < list.len()
        invariant
            i <= list.len(),
            st matches Some(s) ==> s.wf(),
            all == told_lines(checklist::views(list@), rows_in(st)),
            text::texts(out@) == all.take(i as int),
        decreases list.len() - i,
    {
        let ghost was = text::texts(out@);
        assert(checklist::views(list@)[i as int] == list@[i as int]@);
        let l = make_told_line(&list[i], st);
        let ghost v = l@;
        assert(all[i as int] == v);
        out.push(l);
        assert(text::texts(out@) =~= was.push(v));
        assert(all.take(i as int).push(all[i as int]) =~= all.take(i + 1));
        i = i + 1;
    }
    assert(all.take(all.len() as int) =~= all);
    join(&out, "\n")
}

// ---------------------------------------------------------------------
// The start of a run
// ---------------------------------------------------------------------

/// Work on some component was interrupted.
pub open spec fn interrupted(rs: Seq<RowView>) -> bool {
    exists|i: int| 0 <= i < rs.len() && (#[trigger] rs[i]).phase.active()
}

/// Whether work on some component was interrupted. Then what is uncommitted is
/// the fixer's and is discarded; otherwise it is the user's and stops the run.
pub fn has_active(st: &State) -> (r: bool)
    requires
        st.wf(),
    ensures
        r == interrupted(report::rows(*st)),
{
    let ghost all = report::rows(*st);
    let mut i: usize = 0;
    while i < st.components.len()
        invariant
            i <= st.components.pairs().len(),
            all == report::rows(*st),
            forall|j: int| 0 <= j < i ==> !(#[trigger] all[j]).phase.active(),
        decreases st.components.pairs().len() - i,
    {
        let row = st.components.row(i);
        assert(all[i as int] == row@);
        if row.phase.is_active() {
            return true;
        }
        i = i + 1;
    }
    false
}

/// The paths that stop a run: all but `.gitignore`, which the harness itself may
/// have changed.
pub open spec fn blocking(dirty: Seq<Seq<char>>) -> Seq<Seq<char>>
    decreases dirty.len(),
{
    if dirty.len() == 0 {
        Seq::empty()
    } else if dirty.last() == ".gitignore"@ {
        blocking(dirty.drop_last())
    } else {
        blocking(dirty.drop_last()).push(dirty.last())
    }
}

/// How many paths are named.
pub const SHOWN_PATHS: usize = 5;

/// Some path lies below `target/`.
pub open spec fn any_target(paths: Seq<Seq<char>>) -> bool {
    exists|i: int| 0 <= i < paths.len() && text::begins(#[trigger] paths[i], "target/"@)
}

/// Why a run does not start in a worktree with changes.
pub open spec fn dirty_text(paths: Seq<Seq<char>>) -> Seq<char> {
    let many = paths.len() > SHOWN_PATHS;
    "worktree is dirty — commit or stash before `gaggle run` (dirty: "@ + text::joined(
        if many {
            paths.take(SHOWN_PATHS as int)
        } else {
            paths
        },
        ", "@,
    ) + (if many {
        " … and "@ + number::decimal((paths.len() - SHOWN_PATHS) as nat) + " more"@
    } else {
        Seq::empty()
    }) + "). "@ + (if many || any_target(paths) {
        "If these are build outputs, gitignore them (e.g. /target/) and commit the .gitignore first."@
    } else {
        Seq::empty()
    })
}

fn has_target(paths: &Vec<String>) -> (r: bool)
    ensures
        r == any_target(text::texts(paths@)),
{
    let ghost all = text::texts(paths@);
    let mut i: usize = 0;
    while i < paths.len()
        invariant
            i <= paths.len(),
            all == text::texts(paths@),
            forall|j: int| 0 <= j < i ==> !text::begins(#[trigger] all[j], "target/"@),
        decreases paths.len() - i,
    {
        assert(all[i as int] == paths@[i as int]@);
        if starts_with(paths[i].as_str(), "target/") {
            return true;
        }
        i = i + 1;
    }
    false
}

/// Why a run does not start, given the paths with changes; nothing where none of
/// them stops it.
pub fn dirty_guard(dirty: &Vec<String>) -> (r: Option<String>)
    ensures
        text::opt(r) == (if blocking(text::texts(dirty@)).len() == 0 {
            None
        } else {
            Some(dirty_text(blocking(text::texts(dirty@))))
        }),
{
    let ghost all = text::texts(dirty@);
    let mut paths: Vec<String> = Vec::new();
    let mut i: usize = 0;
    assert(all.take(0) =~= Seq::empty());
    assert(text::texts(paths@) =~= Seq::empty());
    while i < dirty.len()
        invariant
            i <= dirty.len(),
            all == text::texts(dirty@),
            text::texts(paths@) == blocking(all.take(i as int)),
        decreases dirty.len() - i,
    {
        assert(all.take(i + 1).drop_last() =~= all.take(i as int));
        assert(all.take(i + 1).last() == dirty@[i as int]@);
        if !text::same(dirty[i].as_str(), ".gitignore") {
            let ghost was = text::texts(paths@);
            paths.push(dirty[i].clone());
            assert(text::texts(paths@) =~= was.push(dirty@[i as int]@));
        }
        i = i + 1;
    }
    assert(all.take(all.len() as int) =~= all);
    let ghost found = text::texts(paths@);
    assert(found.len() == paths@.len());
    if paths.len() == 0 {
        return None;
    }
    let total: usize = paths.len();
    let target: bool = has_target(&paths);
    let many: bool = total > SHOWN_PATHS;
    if many {
        paths.truncate(SHOWN_PATHS);
        assert(text::texts(paths@) =~= found.take(SHOWN_PATHS as int));
    }
    proof {
        reveal_strlit("");
        assert(""@ =~= Seq::empty());
    }
    let more: String = if many {
        Draft::of(" … and ").put(to_decimal((total - SHOWN_PATHS) as u64).as_str()).put(" more").text
    } else {
        owned("")
    };
    let hint: &str = if many || target {
        "If these are build outputs, gitignore them (e.g. /target/) and commit the .gitignore first."
    } else {
        ""
    };
    Some(
        Draft::of("worktree is dirty — commit or stash before `gaggle run` (dirty: ").put(
            join(&paths, ", ").as_str(),
        ).put(more.as_str()).put("). ").put(hint).text,
    )
}

// ---------------------------------------------------------------------
// A review without fixes
// ---------------------------------------------------------------------

/// `a` is reviewed before `b`.
pub open spec fn sooner(a: ComponentView, b: ComponentView) -> bool {
    checklist::rank_of(a.tier) < checklist::rank_of(b.tier) || checklist::rank_of(a.tier)
        == checklist::rank_of(b.tier) && text::before(a.slug, b.slug)
}

/// The place of `c` among the first `n`: behind the last that it does not
/// precede.
pub open spec fn review_place(l: Seq<ComponentView>, c: ComponentView, n: int) -> int
    decreases n,
{
    if n <= 0 || !sooner(c, l[n - 1]) {
        n
    } else {
        review_place(l, c, n - 1)
    }
}

/// The components in the order in which they are reviewed.
pub open spec fn review_list(l: Seq<ComponentView>) -> Seq<ComponentView>
    decreases l.len(),
{
    if l.len() == 0 {
        Seq::empty()
    } else {
        let before = review_list(l.drop_last());
        before.insert(review_place(before, l.last(), before.len() as int), l.last())
    }
}

fn is_sooner(a: &Component, b: &Component) -> (r: bool)
    ensures
        r == sooner(a@, b@),
{
    let x: usize = tier_rank(a.tier.as_str());
    let y: usize = tier_rank(b.tier.as_str());
    x < y || x == y && less(a.slug.as_str(), b.slug.as_str())
}

/// The components in the order in which they are reviewed: by tier, then by
/// slug, as the loop would pick them.
pub fn review_order(list: &Vec<Component>) -> (r: Vec<Component>)
    ensures
        checklist::views(r@) == review_list(checklist::views(list@)),
{
    let ghost all = checklist::views(list@);
    let mut out: Vec<Component> = Vec::new();
    let mut i: usize = 0;
    assert(all.take(0) =~= Seq::empty());
    assert(checklist::views(out@) =~= Seq::empty());
    while i < list.len()
        invariant
            i <= list.len(),
            all == checklist::views(list@),
            checklist::views(out@) == review_list(all.take(i as int)),
        decreases list.len() - i,
    {
        assert(all.take(i + 1).drop_last() =~= all.take(i as int));
        assert(all.take(i + 1).last() == list@[i as int]@);
        let c = &list[i];
        let ghost held = checklist::views(out@);
        assert(held.len() == out@.len());
        let mut k: usize = out.len();
        let mut go: bool = true;
        while go
            invariant
                k <= out.len(),
                held == checklist::views(out@),
                held.len() == out@.len(),
                review_place(held, c@, held.len() as int) == review_place(held, c@, k as int),
                !go ==> review_place(held, c@, k as int) == k,
            decreases k + (if go {
                1int
            } else {
                0
            }),
        {
            if k == 0 {
                go = false;
            } else {
                assert(held[k - 1] == out@[k - 1]@);
                if is_sooner(c, &out[k - 1]) {
                    k = k - 1;
                } else {
                    go = false;
                }
            }
        }
        out.insert(k, c.duplicate());
        assert(checklist::views(out@) =~= held.insert(k as int, c@));
        i = i + 1;
    }
    assert(all.take(all.len() as int) =~= all);
    out
}

proof fn lemma_review_place(l: Seq<ComponentView>, c: ComponentView, n: int)
    requires
        0 <= n <= l.len(),
    ensures
        0 <= review_place(l, c, n) <= n,
        forall|j: int| review_place(l, c, n) <= j < n ==> sooner(c, #[trigger] l[j]),
        review_place(l, c, n) > 0 ==> !sooner(c, l[review_place(l, c, n) - 1]),
    decreases n,
{
    if n > 0 && sooner(c, l[n - 1]) {
        lemma_review_place(l, c, n - 1);
    }
}

proof fn lemma_sooner(a: ComponentView, b: ComponentView, c: ComponentView)
    ensures
        !sooner(a, b) && !sooner(b, c) ==> !sooner(a, c),
        sooner(a, b) ==> !sooner(b, a),
{
    text::lemma_before_strict(a.slug, b.slug);
    text::lemma_before_total(a.slug, b.slug);
    text::lemma_before_total(b.slug, c.slug);
    text::lemma_before_strict(a.slug, c.slug);
    text::lemma_before_strict(b.slug, c.slug);
    if text::before(b.slug, a.slug) && text::before(c.slug, b.slug) {
        text::lemma_before_transitive(c.slug, b.slug, a.slug);
    }
}

/// A review covers every component of the list, each as often as it is listed,
/// and no component comes behind one that it should precede.
pub proof fn law_review_covers_the_list(l: Seq<ComponentView>)
    ensures
        review_list(l).to_multiset() == l.to_multiset(),
        forall|i: int, j: int|
            0 <= i < j < review_list(l).len() ==> !sooner(
                #[trigger] review_list(l)[j],
                #[trigger] review_list(l)[i],
            ),
    decreases l.len(),
{
    if l.len() > 0 {
        let front = l.drop_last();
        let c = l.last();
        law_review_covers_the_list(front);
        let held = review_list(front);
        let k = review_place(held, c, held.len() as int);
        lemma_review_place(held, c, held.len() as int);
        let all = held.insert(k, c);
        all.to_multiset_ensures();
        front.to_multiset_ensures();
        assert(all.remove(k) =~= held);
        assert(all[k] == c);
        assert(all.contains(c));
        assert(l =~= front.push(c));
        assert(all.to_multiset() =~= l.to_multiset());
        assert forall|i: int, j: int| 0 <= i < j < all.len() implies !sooner(
            #[trigger] all[j],
            #[trigger] all[i],
        ) by {
            if i == k {
                assert(all[j] == held[j - 1]);
                lemma_sooner(c, held[j - 1], c);
            } else if j == k {
                assert(all[i] == held[i]);
                lemma_sooner(c, held[k - 1], held[i]);
            } else {
                let x = if i < k {
                    i
                } else {
                    i - 1
                };
                let y = if j < k {
                    j
                } else {
                    j - 1
                };
                assert(all[i] == held[x] && all[j] == held[y]);
            }
        }
    } else {
        assert(review_list(l) =~= l);
    }
}

/// How many findings of a component are shown.
pub const SHOWN_FINDINGS: usize = 3;

/// How a finding is shown: the start of its first line.
pub open spec fn glimpse(f: Seq<char>) -> Seq<char> {
    let ls = text::lines(f);
    text::first_chars(
        if ls.len() == 0 {
            Seq::empty()
        } else {
            ls[0]
        },
        100,
    )
}

/// The lines for the first `n` findings.
pub open spec fn glimpses(findings: Seq<Seq<char>>, n: nat) -> Seq<Seq<char>>
    decreases n,
{
    if n == 0 || n > findings.len() {
        Seq::empty()
    } else {
        glimpses(findings, (n - 1) as nat).push(
            "    "@ + number::decimal(n) + ". "@ + glimpse(findings[n - 1]),
        )
    }
}

/// What is shown of the findings of a component.
pub open spec fn shown_findings(findings: Seq<Seq<char>>) -> Seq<Seq<char>> {
    if findings.len() > SHOWN_FINDINGS {
        glimpses(findings, SHOWN_FINDINGS as nat).push(
            "    … and "@ + number::decimal((findings.len() - SHOWN_FINDINGS) as nat) + " more"@,
        )
    } else {
        glimpses(findings, findings.len())
    }
}

/// What is shown of the findings of a component.
pub fn show_findings(findings: &Vec<String>) -> (r: Vec<String>)
    ensures
        text::texts(r@) == shown_findings(text::texts(findings@)),
{
    let ghost all = text::texts(findings@);
    assert(all.len() == findings@.len());
    let mut out: Vec<String> = Vec::new();
    let end: usize = if findings.len() > SHOWN_FINDINGS {
        SHOWN_FINDINGS
    } else {
        findings.len()
    };
    let mut i: usize = 0;
    assert(text::texts(out@) =~= Seq::empty());
    while i < end
        invariant
            i <= end,
            end <= findings.len(),
            all == text::texts(findings@),
            all.len() == findings@.len(),
            text::texts(out@) == glimpses(all, i as nat),
        decreases end - i,
    {
        assert(all[i as int] == findings@[i as int]@);
        let ls = lines_of(findings[i].as_str());
        assert(text::texts(ls@).len() == ls@.len());
        proof {
            reveal_strlit("");
            assert(""@ =~= Seq::empty());
        }
        let first: &str = if ls.len() == 0 {
            ""
        } else {
            assert(text::texts(ls@)[0] == ls@[0]@);
            ls[0].as_str()
        };
        let ghost was = text::texts(out@);
        let l = Draft::of("    ").put(to_decimal(i as u64 + 1).as_str()).put(". ").put(
            head_chars(first, 100),
        ).text;
        let ghost v = l@;
        out.push(l);
        assert(text::texts(out@) =~= was.push(v));
        i = i + 1;
    }
    if findings.len() > SHOWN_FINDINGS {
        let ghost was = text::texts(out@);
        let l = Draft::of("    … and ").put(
            to_decimal((findings.len() - SHOWN_FINDINGS) as u64).as_str(),
        ).put(" more").text;
        let ghost v = l@;
        out.push(l);
        assert(text::texts(out@) =~= was.push(v));
    }
    out
}

/// The findings of reviews: of each that ended the number, nothing of one that
/// failed.
pub open spec fn findings_total(l: Seq<Option<usize>>) -> nat
    decreases l.len(),
{
    if l.len() == 0 {
        0
    } else {
        findings_total(l.drop_last()) + (match l.last() {
            Some(n) => n as nat,
            None => 0,
        })
    }
}

/// How many reviews ended as `o` says.
pub open spec fn ended(l: Seq<Option<usize>>, o: Option<usize>) -> nat
    decreases l.len(),
{
    if l.len() == 0 {
        0
    } else {
        ended(l.drop_last(), o) + (if l.last() == o {
            1nat
        } else {
            0
        })
    }
}

/// The counts of a review of all components.
pub open spec fn pass_counts(l: Seq<Option<usize>>) -> Seq<char> {
    number::decimal(findings_total(l)) + " finding(s), "@ + number::decimal(ended(l, Some(0)))
        + " clean, "@ + number::decimal(ended(l, None)) + " error(s)"@
}

/// What a review of all components came to. `timeline` is the entry in the
/// timeline, `closing` the last line, and `fault` why it counts as failed.
#[derive(Debug)]
pub struct PassEnd {
    pub timeline: String,
    pub closing: String,
    pub fault: Option<String>,
}

/// What a review of all components came to, given how each ended: the number of
/// its findings, or nothing where the review failed.
pub fn run_review_only(ends: &Vec<Option<usize>>) -> (r: PassEnd)
    ensures
        r.timeline@ == "review-only pass complete: "@ + pass_counts(ends@),
        r.closing@ == "review-only pass complete: "@ + number::decimal(ends@.len())
            + " component(s) — "@ + pass_counts(ends@),
        text::opt(r.fault) == (if ended(ends@, None) == 0 {
            None
        } else {
            Some(
                number::decimal(ended(ends@, None))
                    + " component review(s) failed — see output above"@,
            )
        }),
{
    let mut total: u128 = 0;
    let mut clean: usize = 0;
    let mut errors: usize = 0;
    let mut i: usize = 0;
    assert(ends@.take(0) =~= Seq::empty());
    while i < ends.len()
        invariant
            i <= ends.len(),
            total == findings_total(ends@.take(i as int)),
            clean == ended(ends@.take(i as int), Some(0)),
            errors == ended(ends@.take(i as int), None),
            clean <= i,
            errors <= i,
            total <= i * usize::MAX,
        decreases ends.len() - i,
    {
        assert(ends@.take(i + 1).drop_last() =~= ends@.take(i as int));
        assert(ends@.take(i + 1).last() == ends@[i as int]);
        assert((i + 1) * usize::MAX == i * usize::MAX + usize::MAX) by (nonlinear_arith);
        assert((i + 1) * usize::MAX <= usize::MAX * usize::MAX) by (nonlinear_arith)
            requires
                i + 1 <= usize::MAX,
        ;
        assert(usize::MAX * usize::MAX <= u128::MAX) by (nonlinear_arith)
            requires
                usize::MAX <= 0xffff_ffff_ffff_ffff,
        ;
        match ends[i] {
            Some(n) => {
                total = total + n as u128;
                if n == 0 {
                    clean = clean + 1;
                }
            },
            None => {
                errors = errors + 1;
            },
        }
        i = i + 1;
    }
    assert(ends@.take(ends@.len() as int) =~= ends@);
    let failed = to_decimal(errors as u64);
    let counts = Draft::of(wide_to_decimal(total).as_str()).put(" finding(s), ").put(
        to_decimal(clean as u64).as_str(),
    ).put(" clean, ").put(failed.as_str()).put(" error(s)").text;
    PassEnd {
        timeline: Draft::of("review-only pass complete: ").put(counts.as_str()).text,
        closing: Draft::of("review-only pass complete: ").put(
            to_decimal(ends.len() as u64).as_str(),
        ).put(" component(s) — ").put(counts.as_str()).text,
        fault: if errors == 0 {
            None
        } else {
            Some(
                Draft::of(failed.as_str()).put(" component review(s) failed — see output above").text,
            )
        },
    }
}

// ---------------------------------------------------------------------
// Requeueing
// ---------------------------------------------------------------------

/// Why a component cannot be requeued. `T` is the type of texts.
#[derive(Debug)]
pub enum RequeueError<T> {
    /// There is no such component.
    Unknown { slug: T },
    /// The component is not in quarantine.
    NotFailed { slug: T, phase: Phase },
}

impl View for RequeueError<String> {
    type V = RequeueError<Seq<char>>;

    open spec fn view(&self) -> RequeueError<Seq<char>> {
        match *self {
            RequeueError::Unknown { slug } => RequeueError::Unknown { slug: slug@ },
            RequeueError::NotFailed { slug, phase } => RequeueError::NotFailed {
                slug: slug@,
                phase,
            },
        }
    }
}

impl RequeueError<Seq<char>> {
    /// The fault in words.
    pub open spec fn words(self) -> Seq<char> {
        match self {
            RequeueError::Unknown { slug } => "unknown component "@ + slug,
            RequeueError::NotFailed { slug, phase } => slug + " is "@ + phase.word()
                + ", not failed — requeue applies only to quarantined components (uncheck a done component in checklist.md to redo it)"@,
        }
    }
}

impl RequeueError<String> {
    /// The fault in words.
    pub fn message(&self) -> (r: String)
        ensures
            r@ == self@.words(),
    {
        match self {
            RequeueError::Unknown { slug } => Draft::of("unknown component ").put(
                slug.as_str(),
            ).text,
            RequeueError::NotFailed { slug, phase } => Draft::of(slug.as_str()).put(" is ").put(
                phase.as_str(),
            ).put(
                ", not failed — requeue applies only to quarantined components (uncheck a done component in checklist.md to redo it)",
            ).text,
        }
    }
}

/// The row of a component that is requeued: pending, without findings, and with
/// what it was parked for still in its detail.
pub open spec fn requeued_row(row: RowView) -> RowView {
    RowView {
        phase: Phase::Pending,
        findings: 0,
        detail: "requeued (previously: "@ + text::trimmed(row.detail) + ")"@,
        ..row
    }
}

/// The rows after the components have been requeued one after another, up to
/// the first that cannot be, and why that one cannot.
pub open spec fn requeued(m: Map<Seq<char>, RowView>, slugs: Seq<Seq<char>>) -> (
    Map<Seq<char>, RowView>,
    Option<RequeueError<Seq<char>>>,
)
    decreases slugs.len(),
{
    if slugs.len() == 0 {
        (m, None)
    } else {
        let (before, fault) = requeued(m, slugs.drop_last());
        let slug = slugs.last();
        if fault is Some {
            (before, fault)
        } else if !before.dom().contains(slug) {
            (before, Some(RequeueError::Unknown { slug }))
        } else if !(before[slug].phase is Failed) {
            (before, Some(RequeueError::NotFailed { slug, phase: before[slug].phase }))
        } else {
            (before.insert(slug, requeued_row(before[slug])), None)
        }
    }
}

/// The slugs of the components in quarantine.
pub open spec fn failed_slugs(rs: Seq<RowView>) -> Seq<Seq<char>>
    decreases rs.len(),
{
    if rs.len() == 0 {
        Seq::empty()
    } else if rs.last().phase is Failed {
        failed_slugs(rs.drop_last()).push(rs.last().slug)
    } else {
        failed_slugs(rs.drop_last())
    }
}

fn find_failed(st: &State) -> (r: Vec<String>)
    requires
        st.wf(),
    ensures
        text::texts(r@) == failed_slugs(report::rows(*st)),
{
    let ghost all = report::rows(*st);
    let mut out: Vec<String> = Vec::new();
    let mut i: usize = 0;
    assert(all.take(0) =~= Seq::empty());
    assert(text::texts(out@) =~= Seq::empty());
    while i < st.components.len()
        invariant
            i <= st.components.pairs().len(),
            all == report::rows(*st),
            text::texts(out@) == failed_slugs(all.take(i as int)),
        decreases st.components.pairs().len() - i,
    {
        let row = st.components.row(i);
        assert(all.take(i + 1).drop_last() =~= all.take(i as int));
        assert(all.take(i + 1).last() == row@);
        if row.phase == Phase::Failed {
            let ghost was = text::texts(out@);
            out.push(row.slug.clone());
            assert(text::texts(out@) =~= was.push(row@.slug));
        }
        i = i + 1;
    }
    assert(all.take(all.len() as int) =~= all);
    out
}

/// The components that are to be requeued.
pub open spec fn targets(st: State, slugs: Seq<Seq<char>>, all: bool) -> Seq<Seq<char>> {
    if all {
        failed_slugs(report::rows(st))
    } else {
        slugs
    }
}

proof fn lemma_requeued_stops(m: Map<Seq<char>, RowView>, slugs: Seq<Seq<char>>, k: int)
    requires
        0 <= k <= slugs.len(),
        requeued(m, slugs.take(k)).1 is Some,
    ensures
        requeued(m, slugs) == requeued(m, slugs.take(k)),
    decreases slugs.len(),
{
    if k == slugs.len() {
        assert(slugs.take(k) =~= slugs);
    } else {
        assert(slugs.drop_last().take(k) =~= slugs.take(k));
        lemma_requeued_stops(m, slugs.drop_last(), k);
    }
}

/// Puts components in quarantine back to pending, so that the next run tries
/// them again: those named, or all. Only such components are eligible; where one
/// is not, those before it have been put back and nothing behind it has, and the
/// state is not to be saved.
pub fn requeue(st: &mut State, slugs: &Vec<String>, all: bool) -> (r: Result<
    Vec<String>,
    RequeueError<String>,
>)
    requires
        old(st).wf(),
    ensures
        final(st).wf(),
        ({
            let named = targets(*old(st), text::texts(slugs@), all);
            let (rows, fault) = requeued(old(st).components@, named);
            &&& final(st).components@ == rows
            &&& match r {
                Ok(done) => fault is None && text::texts(done@) == named,
                Err(e) => fault == Some(e@),
            }
        }),
{
    let named: Vec<String> = if all {
        find_failed(st)
    } else {
        copied(slugs)
    };
    let ghost start = st.components@;
    let ghost list = text::texts(named@);
    let mut i: usize = 0;
    assert(list.take(0) =~= Seq::empty());
    while i < named.len()
        invariant
            i <= named.len(),
            st.wf(),
            list == text::texts(named@),
            list == targets(*old(st), text::texts(slugs@), all),
            start == old(st).components@,
            requeued(start, list.take(i as int)) == (
                st.components@,
                None::<RequeueError<Seq<char>>>,
            ),
        decreases named.len() - i,
    {
        assert(list.take(i + 1).drop_last() =~= list.take(i as int));
        assert(list.take(i + 1).last() == named@[i as int]@);
        let slug = named[i].as_str();
        let ghost held = st.components@;
        let (phase, detail): (Phase, String) = match st.get(slug) {
            None => {
                proof {
                    lemma_requeued_stops(start, list, i + 1);
                }
                return Err(RequeueError::Unknown { slug: owned(slug) });
            },
            Some(row) => (
                row.phase,
                Draft::of("requeued (previously: ").put(trim(row.detail.as_str())).put(")").text,
            ),
        };
        if phase != Phase::Failed {
            proof {
                lemma_requeued_stops(start, list, i + 1);
            }
            return Err(RequeueError::NotFailed { slug: owned(slug), phase });
        }
        let _ = transition(st, slug, Phase::Pending);
        let _ = st.set_detail(slug, detail.as_str());
        let _ = st.set_findings(slug, 0);
        assert(st.components@ =~= held.insert(slug@, requeued_row(held[slug@])));
        i = i + 1;
    }
    assert(list.take(list.len() as int) =~= list);
    Ok(named)
}

/// What the timeline says of a requeue.
pub open spec fn requeue_text(slugs: Seq<Seq<char>>) -> Seq<char> {
    "requeued "@ + number::decimal(slugs.len()) + " component(s): "@ + text::joined(slugs, ", "@)
}

/// What the timeline says of a requeue.
pub fn requeue_note(slugs: &Vec<String>) -> (r: String)
    ensures
        r@ == requeue_text(text::texts(slugs@)),
{
    assert(text::texts(slugs@).len() == slugs@.len());
    Draft::of("requeued ").put(to_decimal(slugs.len() as u64).as_str()).put(" component(s): ").put(
        join(slugs, ", ").as_str(),
    ).text
}

/// A requeue that succeeds puts back exactly the components that were named,
/// each of which was in quarantine, and changes nothing else; what each was
/// parked for stays visible.
pub proof fn law_requeue(m: Map<Seq<char>, RowView>, slugs: Seq<Seq<char>>, k: Seq<char>)
    requires
        requeued(m, slugs).1 is None,
    ensures
        requeued(m, slugs).0.dom() == m.dom(),
        slugs.contains(k) ==> m.dom().contains(k) && m[k].phase is Failed && requeued(
            m,
            slugs,
        ).0[k] == requeued_row(m[k]),
        !slugs.contains(k) && m.dom().contains(k) ==> requeued(m, slugs).0[k] == m[k],
        slugs.no_duplicates(),
    decreases slugs.len(),
{
    if slugs.len() > 0 {
        let front = slugs.drop_last();
        let slug = slugs.last();
        let before = requeued(m, front).0;
        law_requeue(m, front, k);
        law_requeue(m, front, slug);
        assert(requeued(m, slugs).0.dom() =~= m.dom());
        assert(slugs[slugs.len() - 1] == slug);
        if front.contains(k) {
            let i = choose|i: int| 0 <= i < front.len() && front[i] == k;
            assert(slugs[i] == k);
        }
        if slugs.contains(k) && k != slug {
            let i = choose|i: int| 0 <= i < slugs.len() && slugs[i] == k;
            assert(front[i] == k);
        }
        assert(!front.contains(slug));
        assert forall|i: int, j: int|
            0 <= i < slugs.len() && 0 <= j < slugs.len() && i != j implies slugs[i] != slugs[j] by {
            if i < front.len() && j < front.len() {
                assert(front[i] == slugs[i]);
                assert(front[j] == slugs[j]);
            } else if i < front.len() {
                assert(front[i] == slugs[i]);
            } else {
                assert(front[j] == slugs[j]);
            }
        }
    }
}

// ---------------------------------------------------------------------
// Empty command packages
// ---------------------------------------------------------------------

/// The name of a file with this extension.
pub open spec fn has_extension(name: Seq<char>, extension: Seq<char>) -> bool {
    text::ends(name, "."@ + extension) && name.len() > extension.len() + 1
}

/// Some file is a source file.
pub open spec fn any_source(names: Seq<Seq<char>>) -> bool {
    exists|i: int|
        0 <= i < names.len() && (has_extension(#[trigger] names[i], "go"@) || has_extension(
            names[i],
            "rs"@,
        ))
}

fn is_source(name: &str, extension: &str) -> (r: bool)
    ensures
        r == has_extension(name@, extension@),
{
    proof {
        reveal_strlit(".");
    }
    let end = Draft::of(".").put(extension).text;
    ends_with(name, end.as_str()) && name.unicode_len() > end.as_str().unicode_len()
}

/// Whether a directory with these files has a source file. A command package
/// without one is empty.
pub fn has_source(names: &Vec<String>) -> (r: bool)
    ensures
        r == any_source(text::texts(names@)),
{
    let ghost all = text::texts(names@);
    let mut i: usize = 0;
    while i < names.len()
        invariant
            i <= names.len(),
            all == text::texts(names@),
            forall|j: int|
                0 <= j < i ==> !has_extension(#[trigger] all[j], "go"@) && !has_extension(
                    all[j],
                    "rs"@,
                ),
        decreases names.len() - i,
    {
        assert(all[i as int] == names@[i as int]@);
        if is_source(names[i].as_str(), "go") || is_source(names[i].as_str(), "rs") {
            return true;
        }
        i = i + 1;
    }
    false
}

// ---------------------------------------------------------------------
// Laws of the lists
// ---------------------------------------------------------------------

/// A component of the first list is open, has what was named or discovered, and
/// no commands of its own.
pub proof fn law_first_components(e: cli::EntryView, c: discover::FoundView)
    ensures
        named(e).slug == e.slug && named(e).name == e.name && named(e).tier == text::lowercase(
            e.tier,
        ) && !named(e).done && named(e).paths.len() == 0 && named(e).verify.len() == 0,
        discovered(c).slug == c.slug && discovered(c).name == c.name && discovered(c).tier
            == text::lowercase(c.tier) && !discovered(c).done && discovered(c).paths == c.paths
            && discovered(c).verify.len() == 0,
{
}

/// What is written back to the list: a tick exactly where the component is done,
/// and the recorded paths where there are any; everything else stays as it is
/// listed.
pub proof fn law_what_is_written_back(c: ComponentView, m: Map<Seq<char>, RowView>)
    ensures
        ({
            let w = written_back(c, m);
            &&& w.slug == c.slug && w.name == c.name && w.tier == c.tier && w.verify == c.verify
            &&& m.dom().contains(c.slug) ==> (w.done <==> m[c.slug].phase is Done)
            &&& m.dom().contains(c.slug) && m[c.slug].paths.len() > 0 ==> w.paths
                == m[c.slug].paths
            &&& m.dom().contains(c.slug) && m[c.slug].paths.len() == 0 ==> w.paths == c.paths
            &&& !m.dom().contains(c.slug) ==> w == c
        }),
        ({
            let w = with_row_paths(c, m);
            &&& w.slug == c.slug && w.name == c.name && w.tier == c.tier && w.verify == c.verify
                && w.done == c.done
            &&& m.dom().contains(c.slug) ==> w.paths == m[c.slug].paths
            &&& !m.dom().contains(c.slug) ==> w.paths == c.paths
        }),
{
}

/// A component whose slug stands for a path gets that path; no other row is
/// touched, and none is added or lost.
pub proof fn law_resolved_paths(
    m: Map<Seq<char>, RowView>,
    cs: Seq<ComponentView>,
    resolved: Seq<Option<Seq<char>>>,
    k: Seq<char>,
)
    requires
        resolved.len() == cs.len(),
        state::distinct_slugs(cs),
    ensures
        with_resolved(m, cs, resolved).dom() == m.dom(),
        forall|i: int|
            0 <= i < cs.len() && m.dom().contains((#[trigger] cs[i]).slug) && resolved[i] is Some
                ==> with_resolved(m, cs, resolved)[cs[i].slug] == (RowView {
                paths: seq![resolved[i]->Some_0],
                ..m[cs[i].slug]
            }),
        m.dom().contains(k) && (forall|i: int|
            0 <= i < cs.len() && (#[trigger] cs[i]).slug == k ==> resolved[i] is None)
            ==> with_resolved(m, cs, resolved)[k] == m[k],
    decreases cs.len(),
{
    if cs.len() > 0 {
        let front = cs.drop_last();
        let places = resolved.drop_last();
        assert(state::distinct_slugs(front));
        law_resolved_paths(m, front, places, k);
        let slug = cs.last().slug;
        law_resolved_paths(m, front, places, slug);
        let n = cs.len() - 1;
        assert(cs[n] == cs.last() && resolved[n] == resolved.last());
        let now = with_resolved(m, cs, resolved);
        assert(now.dom() =~= m.dom());
        assert forall|i: int| 0 <= i < front.len() implies (#[trigger] front[i]).slug != slug by {
            assert(cs[i].slug != cs[n].slug);
        }
        assert forall|i: int|
            0 <= i < cs.len() && m.dom().contains((#[trigger] cs[i]).slug)
                && resolved[i] is Some implies now[cs[i].slug] == (RowView {
            paths: seq![resolved[i]->Some_0],
            ..m[cs[i].slug]
        }) by {
            if i < n {
                assert(front[i] == cs[i] && places[i] == resolved[i]);
            }
        }
        if m.dom().contains(k) && (forall|i: int|
            0 <= i < cs.len() && (#[trigger] cs[i]).slug == k ==> resolved[i] is None) {
            assert forall|i: int|
                0 <= i < front.len() && (#[trigger] front[i]).slug == k implies places[i] is None by {
                assert(cs[i].slug == k);
            }
            if slug == k {
                assert(resolved[n] is None);
            }
        }
    }
}

/// What a later discovery is told of a component: its slug, name and tier, and
/// its paths where it has any.
pub proof fn law_what_is_told_of_a_component(c: ComponentView, m: Map<Seq<char>, RowView>)
    ensures
        m.dom().contains(c.slug) && m[c.slug].paths.len() > 0 ==> told_paths(c, m)
            == m[c.slug].paths,
        !m.dom().contains(c.slug) || m[c.slug].paths.len() == 0 ==> told_paths(c, m) == c.paths,
        told_paths(c, m).len() == 0 ==> told_line(c, m) == "- "@ + c.slug + " — "@ + c.name
            + " ["@ + c.tier + "]"@,
        text::joined(told_paths(c, m), ", "@).len() > 0 ==> told_line(c, m) == "- "@ + c.slug
            + " — "@ + c.name + " ["@ + c.tier + "]"@ + ("  paths: "@ + text::joined(
            told_paths(c, m),
            ", "@,
        )),
{
    let head = "- "@ + c.slug + " — "@ + c.name + " ["@ + c.tier + "]"@;
    assert(head + Seq::<char>::empty() =~= head);
}

// ---------------------------------------------------------------------
// Laws of the start of a run
// ---------------------------------------------------------------------

/// Every change of the user stops a run, in the order in which it was found;
/// only `.gitignore` does not.
pub proof fn law_every_change_stops_a_run(dirty: Seq<Seq<char>>)
    ensures
        blocking(dirty) == dirty.filter(|p: Seq<char>| p != ".gitignore"@),
        blocking(dirty).len() == 0 <==> forall|i: int|
            0 <= i < dirty.len() ==> #[trigger] dirty[i] == ".gitignore"@,
    decreases dirty.len(),
{
    reveal(Seq::filter);
    if dirty.len() > 0 {
        let front = dirty.drop_last();
        law_every_change_stops_a_run(front);
        assert(dirty[dirty.len() - 1] == dirty.last());
        if blocking(dirty).len() == 0 {
            assert forall|i: int| 0 <= i < dirty.len() implies #[trigger] dirty[i]
                == ".gitignore"@ by {
                if i < front.len() {
                    assert(front[i] == dirty[i]);
                }
            }
        } else if blocking(front).len() > 0 {
            let i = choose|i: int| 0 <= i < front.len() && #[trigger] front[i] != ".gitignore"@;
            assert(dirty[i] != ".gitignore"@);
        }
    }
}

/// The reason names up to five of the changed paths and says how many more there
/// are; it hints at build outputs where there are many or some lie below the
/// target directory.
pub proof fn law_dirty_worktrees_in_words(paths: Seq<Seq<char>>)
    ensures
        paths.len() <= 5 && (forall|i: int|
            0 <= i < paths.len() ==> !text::begins(#[trigger] paths[i], "target/"@)) ==> dirty_text(
            paths,
        ) == "worktree is dirty — commit or stash before `gaggle run` (dirty: "@ + text::joined(
            paths,
            ", "@,
        ) + "). "@,
        paths.len() > 5 ==> dirty_text(paths)
            == "worktree is dirty — commit or stash before `gaggle run` (dirty: "@ + text::joined(
            paths.take(5),
            ", "@,
        ) + (" … and "@ + number::decimal((paths.len() - 5) as nat) + " more"@) + "). "@
            + "If these are build outputs, gitignore them (e.g. /target/) and commit the .gitignore first."@,
{
    let head = "worktree is dirty — commit or stash before `gaggle run` (dirty: "@ + text::joined(
        paths,
        ", "@,
    );
    assert(head + Seq::<char>::empty() =~= head);
    let whole = head + "). "@;
    assert(whole + Seq::<char>::empty() =~= whole);
    if paths.len() <= 5 && (forall|i: int|
        0 <= i < paths.len() ==> !text::begins(#[trigger] paths[i], "target/"@)) {
        assert(!any_target(paths));
    }
}

/// Work was interrupted exactly where a component is under work.
pub proof fn law_interrupted_work(rs: Seq<RowView>)
    ensures
        interrupted(rs) <==> exists|i: int|
            0 <= i < rs.len() && ((#[trigger] rs[i]).phase is Reviewing || rs[i].phase is Fixing
                || rs[i].phase is Verifying || rs[i].phase is Committing),
{
    if interrupted(rs) {
        let i = choose|i: int| 0 <= i < rs.len() && (#[trigger] rs[i]).phase.active();
        assert(rs[i].phase.active());
    }
}

// ---------------------------------------------------------------------
// Laws of a review without fixes
// ---------------------------------------------------------------------

/// Components are reviewed tier by tier, high before medium before low, and
/// within a tier in the order of the slugs.
pub proof fn law_order_of_reviews(l: Seq<ComponentView>, i: int, j: int)
    requires
        0 <= i < j < review_list(l).len(),
    ensures
        ({
            let a = review_list(l)[i];
            let b = review_list(l)[j];
            &&& checklist::rank_of(a.tier) <= checklist::rank_of(b.tier)
            &&& a.tier == b.tier ==> !text::before(b.slug, a.slug)
        }),
        review_list(l).len() == l.len(),
{
    law_review_covers_the_list(l);
    let r = review_list(l);
    assert(!sooner(r[j], r[i]));
    lemma_review_length(l);
}

proof fn lemma_review_length(l: Seq<ComponentView>)
    ensures
        review_list(l).len() == l.len(),
    decreases l.len(),
{
    if l.len() > 0 {
        lemma_review_length(l.drop_last());
        lemma_review_bound(
            review_list(l.drop_last()),
            l.last(),
            review_list(l.drop_last()).len() as int,
        );
    }
}

proof fn lemma_review_bound(l: Seq<ComponentView>, c: ComponentView, n: int)
    requires
        0 <= n <= l.len(),
    ensures
        0 <= review_place(l, c, n) <= n,
    decreases n,
{
    if n > 0 && sooner(c, l[n - 1]) {
        lemma_review_bound(l, c, n - 1);
    }
}

proof fn lemma_glimpses(findings: Seq<Seq<char>>, n: nat)
    requires
        n <= findings.len(),
    ensures
        glimpses(findings, n).len() == n,
        forall|i: int|
            0 <= i < n ==> #[trigger] glimpses(findings, n)[i] == "    "@ + number::decimal(
                (i + 1) as nat,
            ) + ". "@ + glimpse(findings[i]),
    decreases n,
{
    if n > 0 {
        lemma_glimpses(findings, (n - 1) as nat);
        let before = glimpses(findings, (n - 1) as nat);
        assert forall|i: int| 0 <= i < n implies #[trigger] glimpses(findings, n)[i] == "    "@
            + number::decimal((i + 1) as nat) + ". "@ + glimpse(findings[i]) by {
            if i < n - 1 {
                assert(before[i] == glimpses(findings, n)[i]);
            }
        }
    }
}

/// Up to three findings are shown, numbered and in their order, each by the
/// first hundred characters of its first line; of more it is said how many.
pub proof fn law_findings_that_are_shown(findings: Seq<Seq<char>>)
    ensures
        findings.len() <= 3 ==> shown_findings(findings).len() == findings.len(),
        findings.len() > 3 ==> shown_findings(findings).len() == 4 && shown_findings(findings)[3]
            == "    … and "@ + number::decimal((findings.len() - 3) as nat) + " more"@,
        forall|i: int|
            0 <= i < findings.len() && i < 3 ==> #[trigger] shown_findings(findings)[i] == "    "@
                + number::decimal((i + 1) as nat) + ". "@ + glimpse(findings[i]),
        forall|i: int|
            0 <= i < findings.len() && text::lines(#[trigger] findings[i]).len() > 0 ==> glimpse(
                findings[i],
            ) == text::first_chars(text::lines(findings[i])[0], 100),
{
    if findings.len() > 3 {
        lemma_glimpses(findings, 3);
        let g = glimpses(findings, 3);
        assert forall|i: int| 0 <= i < 3 implies #[trigger] shown_findings(findings)[i] == "    "@
            + number::decimal((i + 1) as nat) + ". "@ + glimpse(findings[i]) by {
            assert(shown_findings(findings)[i] == g[i]);
        }
    } else {
        lemma_glimpses(findings, findings.len());
    }
}

/// A pass counts each review once: the findings of all add up, the clean ones
/// are those without findings, and the errors those that failed.
pub proof fn law_pass_counts_add_up(l: Seq<Option<usize>>, o: Option<usize>)
    ensures
        findings_total(l) == l.fold_left(
            0nat,
            |sum: nat, x: Option<usize>|
                sum + (match x {
                    Some(n) => n as nat,
                    None => 0,
                }),
        ),
        ended(l, o) == l.filter(|x: Option<usize>| x == o).len(),
        pass_counts(l) == number::decimal(findings_total(l)) + " finding(s), "@ + number::decimal(
            ended(l, Some(0)),
        ) + " clean, "@ + number::decimal(ended(l, None)) + " error(s)"@,
    decreases l.len(),
{
    reveal(Seq::filter);
    reveal(Seq::fold_left);
    if l.len() > 0 {
        law_pass_counts_add_up(l.drop_last(), o);
    }
}

// ---------------------------------------------------------------------
// Laws of requeueing
// ---------------------------------------------------------------------

/// What a requeued component keeps and loses.
pub proof fn law_requeued_rows(row: RowView)
    ensures
        ({
            let r = requeued_row(row);
            &&& r.phase is Pending && r.findings == 0
            &&& r.detail == "requeued (previously: "@ + text::trimmed(row.detail) + ")"@
            &&& r.slug == row.slug && r.name == row.name && r.tier == row.tier && r.paths
                == row.paths && r.verify == row.verify && r.commit == row.commit
        }),
{
}

/// The first component that cannot be requeued is the one that is reported, and
/// nothing behind it is touched.
pub proof fn law_first_that_cannot_be_requeued(
    m: Map<Seq<char>, RowView>,
    slugs: Seq<Seq<char>>,
    i: int,
)
    requires
        0 <= i < slugs.len(),
        requeued(m, slugs.take(i)).1 is None,
        ({
            let before = requeued(m, slugs.take(i)).0;
            !before.dom().contains(slugs[i]) || !(before[slugs[i]].phase is Failed)
        }),
    ensures
        requeued(m, slugs).0 == requeued(m, slugs.take(i)).0,
        !m.dom().contains(slugs[i]) ==> requeued(m, slugs).1 == Some(
            RequeueError::Unknown { slug: slugs[i] },
        ),
        m.dom().contains(slugs[i]) ==> (requeued(m, slugs).1 matches Some(
            RequeueError::NotFailed { slug, phase },
        ) && slug == slugs[i] && phase == requeued(m, slugs.take(i)).0[slugs[i]].phase),
{
    let head = slugs.take(i + 1);
    assert(head.drop_last() =~= slugs.take(i));
    assert(head.last() == slugs[i]);
    law_requeue(m, slugs.take(i), slugs[i]);
    lemma_requeued_stops(m, slugs, i + 1);
}

/// To requeue all is to requeue every component in quarantine, in the order of
/// the rows, and no other.
pub proof fn law_all_failed_components(rs: Seq<RowView>)
    ensures
        failed_slugs(rs) == rs.filter(|r: RowView| r.phase is Failed).map_values(
            |r: RowView| r.slug,
        ),
    decreases rs.len(),
{
    reveal(Seq::filter);
    let f = |r: RowView| r.phase is Failed;
    let g = |r: RowView| r.slug;
    if rs.len() > 0 {
        law_all_failed_components(rs.drop_last());
        let before = rs.drop_last().filter(f);
        if rs.last().phase is Failed {
            assert(before.push(rs.last()).map_values(g) =~= before.map_values(g).push(
                rs.last().slug,
            ));
        }
    }
    assert(failed_slugs(rs) =~= rs.filter(f).map_values(g));
}

/// A source file has a name of at least one character in front of the extension.
pub proof fn law_source_files(stem: Seq<char>)
    ensures
        stem.len() > 0 ==> has_extension(stem + ".rs"@, "rs"@) && has_extension(
            stem + ".go"@,
            "go"@,
        ),
        !has_extension(".rs"@, "rs"@),
        stem.len() > 0 && stem.last() != 's' ==> !has_extension(stem, "rs"@),
{
    reveal_strlit(".rs");
    reveal_strlit(".go");
    reveal_strlit(".");
    reveal_strlit("rs");
    reveal_strlit("go");
    let a = stem + ".rs"@;
    let b = stem + ".go"@;
    assert("."@ + "rs"@ =~= ".rs"@);
    assert("."@ + "go"@ =~= ".go"@);
    assert(a.subrange(a.len() - 3, a.len() as int) =~= ".rs"@);
    assert(b.subrange(b.len() - 3, b.len() as int) =~= ".go"@);
    if stem.len() > 3 && text::ends(stem, ".rs"@) {
        assert(stem.subrange(stem.len() - 3, stem.len() as int)[2] == stem.last());
    }
}

// ---------------------------------------------------------------------
// Laws of what a command takes up and tells
// ---------------------------------------------------------------------

/// All failed components are asked for with one word; otherwise exactly those
/// that are named.
pub proof fn law_components_to_requeue(st: State, slugs: Seq<Seq<char>>)
    ensures
        targets(st, slugs, false) == slugs,
        targets(st, slugs, true) == report::rows(st).filter(|r: RowView| r.phase is Failed).map_values(
            |r: RowView| r.slug,
        ),
{
    law_all_failed_components(report::rows(st));
}

/// What was requeued is counted and named.
pub proof fn law_requeued_in_words(a: Seq<char>, b: Seq<char>)
    ensures
        requeue_text(seq![a]) == "requeued "@ + number::decimal(1) + " component(s): "@ + a,
        requeue_text(seq![a, b]) == "requeued "@ + number::decimal(2) + " component(s): "@ + (a
            + ", "@ + b),
{
    text::law_joining(seq![a], seq![b], ", "@);
    text::law_joining(seq![b], seq![a], ", "@);
    assert(seq![a] + seq![b] =~= seq![a, b]);
}

/// Every component is told of, in its place; where nothing is recorded yet, by
/// what the checklist says of it.
pub proof fn law_every_component_is_told_of(cs: Seq<ComponentView>, m: Map<Seq<char>, RowView>, i: int)
    requires
        0 <= i < cs.len(),
    ensures
        told_lines(cs, m).len() == cs.len(),
        told_lines(cs, m)[i] == told_line(cs[i], m),
        told_paths(cs[i], rows_in(None)) == cs[i].paths,
{
}

/// The rows of a state are the ones that it records.
pub proof fn law_rows_of_a_state(st: &State)
    ensures
        rows_in(Some(st)) == st.components@,
        rows_in(None).dom().is_empty(),
{
}

/// A directory has sources exactly where one of its files is one.
pub proof fn law_directories_with_sources(names: Seq<Seq<char>>, n: Seq<char>)
    ensures
        !any_source(Seq::empty()),
        any_source(names.push(n)) <==> any_source(names) || has_extension(n, "rs"@)
            || has_extension(n, "go"@),
{
    let all = names.push(n);
    if any_source(names) {
        let i = choose|i: int|
            0 <= i < names.len() && (has_extension(#[trigger] names[i], "go"@) || has_extension(
                names[i],
                "rs"@,
            ));
        assert(all[i] == names[i]);
    }
    assert(all[names.len() as int] == n);
    if any_source(all) {
        let i = choose|i: int|
            0 <= i < all.len() && (has_extension(#[trigger] all[i], "go"@) || has_extension(
                all[i],
                "rs"@,
            ));
        if i < names.len() {
            assert(names[i] == all[i]);
        }
    }
}

/// What cannot be requeued is named, with the phase that it is in.
pub proof fn law_faults_of_a_requeue_in_words(slug: Seq<char>, phase: Phase)
    ensures
        (RequeueError::<Seq<char>>::Unknown { slug }).words() == "unknown component "@ + slug,
        (RequeueError::<Seq<char>>::NotFailed { slug, phase }).words() == slug + " is "@
            + phase.word()
            + ", not failed — requeue applies only to quarantined components (uncheck a done component in checklist.md to redo it)"@,
{
}

} // verus!
