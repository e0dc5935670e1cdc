//! What is written about a run: the ledger, the final report, the table of
//! components, and the list of past runs.

use vstd::prelude::*;
use crate::checklist;
use crate::checklist::{Component, ComponentView};
use crate::clock;
use crate::clock::{now_formatted, STAMP_FORM};
use crate::json;
use crate::json::JsonView;
use crate::number;
use crate::number::to_decimal;
use crate::state;
use crate::state::{ComponentState, Phase, RowView, State};
use crate::status;
use crate::text;
use crate::text::{
    head_chars, join, less, owned, pad_left, pad_right, replace, split_once, CharSet, Draft,
};
use crate::verify::{RunResult, RunView};

verus! {

/// The rows of a state, in the order of their keys.
pub open spec fn rows(st: State) -> Seq<RowView> {
    state::rows_of(st.components.pairs())
}

// ---------------------------------------------------------------------
// The ledger
// ---------------------------------------------------------------------

/// A detail in a cell of a table: on one line, without bars, and short.
pub open spec fn cell(detail: Seq<char>) -> Seq<char> {
    text::first_chars(
        text::replaced(
            text::replaced(detail, CharSet::One('|'), "\\|"@),
            CharSet::One('\n'),
            " "@,
        ),
        80,
    )
}

/// The line of a component in the ledger.
pub open spec fn ledger_line(row: RowView) -> Seq<char> {
    "| "@ + row.slug + " | "@ + row.tier + " | "@ + row.phase.word() + " | "@ + number::decimal(
        row.findings as nat,
    ) + " | "@ + (match row.commit {
        Some(c) => c,
        None => "-"@,
    }) + " | "@ + cell(row.detail) + " |\n"@
}

/// The lines of the components in the ledger.
pub open spec fn ledger_lines(rs: Seq<RowView>) -> Seq<char>
    decreases rs.len(),
{
    if rs.len() == 0 {
        Seq::empty()
    } else {
        ledger_lines(rs.drop_last()) + ledger_line(rs.last())
    }
}

/// The ledger of a run.
pub open spec fn ledger_text(rs: Seq<RowView>) -> Seq<char> {
    "# Run ledger\n\n"@ + "| slug | tier | phase | findings | commit | detail |\n"@
        + "|------|------|-------|----------|--------|--------|\n"@ + ledger_lines(rs)
}

fn make_ledger_line(row: &ComponentState) -> (r: String)
    ensures
        r@ == ledger_line(row@),
{
    let commit: &str = match &row.commit {
        Some(c) => c.as_str(),
        None => "-",
    };
    let barred = replace(row.detail.as_str(), CharSet::One('|'), "\\|");
    let flat = replace(barred.as_str(), CharSet::One('\n'), " ");
    Draft::of("| ").put(row.slug.as_str()).put(" | ").put(row.tier.as_str()).put(" | ").put(
        row.phase.as_str(),
    ).put(" | ").put(to_decimal(row.findings as u64).as_str()).put(" | ").put(commit).put(
        " | ",
    ).put(head_chars(flat.as_str(), 80)).put(" |\n").text
}

/// The ledger of a run: one line per component.
pub fn ledger(st: &State) -> (r: String)
    requires
        st.wf(),
    ensures
        r@ == ledger_text(rows(*st)),
{
    let ghost all = rows(*st);
    let ghost head = "# Run ledger\n\n"@ + "| slug | tier | phase | findings | commit | detail |\n"@
        + "|------|------|-------|----------|--------|--------|\n"@;
    let mut out: String = Draft::of("# Run ledger\n\n").put(
        "| slug | tier | phase | findings | commit | detail |\n",
    ).put("|------|------|-------|----------|--------|--------|\n").text;
    let mut i: usize = 0;
    assert(all.take(0) =~= Seq::empty());
    assert(head + Seq::<char>::empty() =~= head);
    while i < st.components.len()
        invariant
            i <= st.components.pairs().len(),
            all == rows(*st),
            out@ == head + ledger_lines(all.take(i as int)),
        decreases st.components.pairs().len() - i,
    {
        let row = st.components.row(i);
        assert(all.take(i + 1).drop_last() =~= all.take(i as int));
        assert(all.take(i + 1).last() == row@);
        let ghost was = out@;
        let line = make_ledger_line(row);
        out.append(line.as_str());
        assert(was + line@ =~= head + (ledger_lines(all.take(i as int)) + line@));
        i = i + 1;
    }
    assert(all.take(all.len() as int) =~= all);
    out
}

// ---------------------------------------------------------------------
// The final report
// ---------------------------------------------------------------------

/// What the report lists.
#[derive(Debug, Clone, Copy, PartialEq, Eq, Structural)]
pub enum Listing {
    Done,
    Failed,
    Committed,
    /// Done without open findings.
    Clean,
    /// Done with open findings.
    Leftover,
}

impl Listing {
    pub open spec fn holds(self, row: RowView) -> bool {
        match self {
            Listing::Done => row.phase is Done,
            Listing::Failed => row.phase is Failed,
            Listing::Committed => row.commit is Some,
            Listing::Clean => row.phase is Done && row.findings == 0,
            Listing::Leftover => row.phase is Done && row.findings > 0,
        }
    }

    /// How a component is listed.
    pub open spec fn item(self, row: RowView) -> Seq<char> {
        match self {
            Listing::Done => row.slug,
            Listing::Failed => row.slug + " (failed, "@ + number::decimal(row.findings as nat)
                + " open)"@,
            Listing::Committed => row.slug + " ("@ + (match row.commit {
                Some(c) => c,
                None => Seq::empty(),
            }) + ")"@,
            Listing::Clean => row.slug,
            Listing::Leftover => row.slug + " (done, "@ + number::decimal(row.findings as nat)
                + " leftover)"@,
        }
    }

    fn has(self, row: &ComponentState) -> (r: bool)
        ensures
            r == self.holds(row@),
    {
        match self {
            Listing::Done => row.phase == Phase::Done,
            Listing::Failed => row.phase == Phase::Failed,
            Listing::Committed => row.commit.is_some(),
            Listing::Clean => row.phase == Phase::Done && row.findings == 0,
            Listing::Leftover => row.phase == Phase::Done && row.findings > 0,
        }
    }

    fn show(self, row: &ComponentState) -> (r: String)
        ensures
            r@ == self.item(row@),
    {
        let slug: &str = row.slug.as_str();
        match self {
            Listing::Done => owned(slug),
            Listing::Failed => Draft::of(slug).put(" (failed, ").put(
                to_decimal(row.findings as u64).as_str(),
            ).put(" open)").text,
            Listing::Committed => {
                let hash: &str = match &row.commit {
                    Some(c) => c.as_str(),
                    None => "",
                };
                proof {
                    reveal_strlit("");
                    assert(row.commit is None ==> hash@ =~= Seq::empty());
                }
                Draft::of(slug).put(" (").put(hash).put(")").text
            },
            Listing::Clean => owned(slug),
            Listing::Leftover => Draft::of(slug).put(" (done, ").put(
                to_decimal(row.findings as u64).as_str(),
            ).put(" leftover)").text,
        }
    }
}

/// The components of a listing.
pub open spec fn items(rs: Seq<RowView>, l: Listing) -> Seq<Seq<char>>
    decreases rs.len(),
{
    if rs.len() == 0 {
        Seq::empty()
    } else if l.holds(rs.last()) {
        items(rs.drop_last(), l).push(l.item(rs.last()))
    } else {
        items(rs.drop_last(), l)
    }
}

fn collect(st: &State, l: Listing) -> (r: Vec<String>)
    requires
        st.wf(),
    ensures
        text::texts(r@) == items(rows(*st), l),
{
    let ghost all = rows(*st);
    let mut out: Vec<String> = Vec::new();
    let mut i: usize = 0;
    assert(all.take(0) =~= Seq::empty());
    assert(text::texts(out@) =~= Seq::empty());
    while i < st.components.len()
        invariant
            i <= st.components.pairs().len(),
            all == rows(*st),
            text::texts(out@) == items(all.take(i as int), l),
        decreases st.components.pairs().len() - i,
    {
        let row = st.components.row(i);
        assert(all.take(i + 1).drop_last() =~= all.take(i as int));
        assert(all.take(i + 1).last() == row@);
        if l.has(row) {
            let ghost was = text::texts(out@);
            let s = l.show(row);
            let ghost v = s@;
            out.push(s);
            assert(text::texts(out@) =~= was.push(v));
        }
        i = i + 1;
    }
    assert(all.take(all.len() as int) =~= all);
    out
}

/// A number and, behind a colon, the list that it counts.
pub open spec fn counted(list: Seq<Seq<char>>) -> Seq<char> {
    let all = text::joined(list, ", "@);
    number::decimal(list.len()) + (if all.len() == 0 {
        Seq::empty()
    } else {
        ": "@ + all
    })
}

fn show_counted(list: &Vec<String>) -> (r: String)
    ensures
        r@ == counted(text::texts(list@)),
{
    assert(text::texts(list@).len() == list@.len());
    let all = join(list, ", ");
    let n = to_decimal(list.len() as u64);
    if all.as_str().is_empty() {
        assert(n@ + Seq::<char>::empty() =~= n@);
        n
    } else {
        Draft::of(n.as_str()).put(": ").put(all.as_str()).text
    }
}

/// What the report says of a gate.
pub open spec fn gate_text(g: RunView) -> Seq<char> {
    if g.passed {
        "PASS"@
    } else {
        "FAIL (`"@ + or_nothing(g.failed_command) + "`)"@
    }
}

pub open spec fn or_nothing(s: Option<Seq<char>>) -> Seq<char> {
    match s {
        Some(x) => x,
        None => Seq::empty(),
    }
}

fn failed_command(g: &RunResult) -> (r: &str)
    ensures
        r@ == or_nothing(g@.failed_command),
{
    match &g.failed_command {
        Some(c) => c.as_str(),
        None => {
            proof {
                reveal_strlit("");
                assert(""@ =~= Seq::empty());
            }
            ""
        },
    }
}

/// What a component used: a line about it, and the cost in millionths.
#[derive(Debug)]
pub struct Spender {
    pub line: String,
    pub micros: u64,
}

/// The contents of a [`Spender`].
pub struct SpenderView {
    pub line: Seq<char>,
    pub micros: u64,
}

impl View for Spender {
    type V = SpenderView;

    open spec fn view(&self) -> SpenderView {
        SpenderView { line: self.line@, micros: self.micros }
    }
}

/// The contents of a list of spenders.
pub open spec fn spenders(l: Seq<Spender>) -> Seq<SpenderView> {
    l.map_values(|s: Spender| s@)
}

/// The place of `s` among the first `n`: behind the last that cost at least as
/// much.
pub open spec fn spender_place(l: Seq<SpenderView>, s: SpenderView, n: int) -> int
    decreases n,
{
    if n <= 0 || l[n - 1].micros >= s.micros {
        n
    } else {
        spender_place(l, s, n - 1)
    }
}

/// The spenders, those that cost most first.
pub open spec fn by_cost(l: Seq<SpenderView>) -> Seq<SpenderView>
    decreases l.len(),
{
    if l.len() == 0 {
        Seq::empty()
    } else {
        let before = by_cost(l.drop_last());
        before.insert(spender_place(before, l.last(), before.len() as int), l.last())
    }
}

/// How many spenders the report names.
pub const SHOWN_SPENDERS: usize = 5;

/// The lines about the spenders that the report names.
pub open spec fn top_lines(l: Seq<SpenderView>) -> Seq<Seq<char>> {
    let all = by_cost(l).map_values(|s: SpenderView| s.line);
    if all.len() > SHOWN_SPENDERS {
        all.take(SHOWN_SPENDERS as int)
    } else {
        all
    }
}

/// What only the harness knows of a run.
#[derive(Debug)]
pub struct Facts {
    pub model: String,
    /// The branch of the run, where it has one of its own.
    pub branch: Option<String>,
    /// The usage on one line, where any was reported.
    pub usage: Option<String>,
    /// What each component used.
    pub spenders: Vec<Spender>,
}

/// The contents of [`Facts`].
pub struct FactsView {
    pub model: Seq<char>,
    pub branch: Option<Seq<char>>,
    pub usage: Option<Seq<char>>,
    pub spenders: Seq<SpenderView>,
}

impl View for Facts {
    type V = FactsView;

    open spec fn view(&self) -> FactsView {
        FactsView {
            model: self.model@,
            branch: text::opt(self.branch),
            usage: text::opt(self.usage),
            spenders: spenders(self.spenders@),
        }
    }
}

pub open spec fn branch_line(branch: Option<Seq<char>>) -> Seq<char> {
    match branch {
        Some(b) => "- branch: "@ + b + " (dedicated — merge or revert as a unit)\n"@,
        None => Seq::empty(),
    }
}

pub open spec fn spender_lines(l: Seq<Seq<char>>) -> Seq<char>
    decreases l.len(),
{
    if l.len() == 0 {
        Seq::empty()
    } else {
        spender_lines(l.drop_last()) + "  - "@ + l.last() + "\n"@
    }
}

pub open spec fn usage_lines(f: FactsView) -> Seq<char> {
    match f.usage {
        Some(u) => "- usage: "@ + u + "\n"@ + spender_lines(top_lines(f.spenders)),
        None => Seq::empty(),
    }
}

/// The components that need a decision: those that are parked, and those that
/// are done with findings left.
pub open spec fn undecided(rs: Seq<RowView>) -> Seq<Seq<char>> {
    items(rs, Listing::Failed) + items(rs, Listing::Leftover)
}

/// The summary of a run: facts alone, which cannot drift.
pub open spec fn summary_text(rs: Seq<RowView>, gate: RunView, f: FactsView) -> Seq<char> {
    "# Final Review Report\n\n## Run summary\n\n"@ + "- reviewed: "@ + number::decimal(
        items(rs, Listing::Done).len() + items(rs, Listing::Failed).len(),
    ) + " of "@ + number::decimal(rs.len()) + " components\n"@ + "- fixed+committed: "@ + counted(
        items(rs, Listing::Committed),
    ) + "\n"@ + "- clean: "@ + counted(items(rs, Listing::Clean)) + "\n"@ + "- needs-decision: "@
        + counted(undecided(rs)) + "\n"@ + "- commits: "@ + number::decimal(
        items(rs, Listing::Committed).len(),
    ) + "\n"@ + "- final verify: "@ + gate_text(gate) + "\n"@ + "- model: "@ + f.model + "\n"@
        + branch_line(f.branch) + usage_lines(f)
}

/// The questions with their numbers.
pub open spec fn question_lines(l: Seq<Seq<char>>) -> Seq<char>
    decreases l.len(),
{
    if l.len() == 0 {
        Seq::empty()
    } else {
        question_lines(l.drop_last()) + number::decimal(l.len()) + ". "@ + l.last() + "\n\n"@
    }
}

/// The section of open questions: those that the report agent named, or why
/// there are none.
pub open spec fn questions_text(
    questions: Result<Seq<Seq<char>>, Seq<char>>,
    undecided: bool,
) -> Seq<char> {
    match questions {
        Ok(l) => if l.len() > 0 {
            question_lines(l)
        } else if undecided {
            "(the report agent returned no questions — see the run ledger and findings files)\n"@
        } else {
            "(none)\n"@
        },
        Err(e) => "(questions unavailable — report agent failed: "@ + e + ")\n"@,
    }
}

/// The final report of a run.
pub open spec fn report_text(
    rs: Seq<RowView>,
    gate: RunView,
    f: FactsView,
    questions: Result<Seq<Seq<char>>, Seq<char>>,
) -> Seq<char> {
    summary_text(rs, gate, f) + "\n## OPEN QUESTIONS\n\n"@ + questions_text(
        questions,
        undecided(rs).len() > 0,
    )
}

fn name_spenders(l: &Vec<Spender>) -> (r: Vec<String>)
    ensures
        text::texts(r@) == top_lines(spenders(l@)),
{
    let ghost all = spenders(l@);
    let mut micros: Vec<u64> = Vec::new();
    let mut out: Vec<String> = Vec::new();
    let mut i: usize = 0;
    assert(all.take(0) =~= Seq::empty());
    let ghost name = |s: SpenderView| s.line;
    assert(text::texts(out@) =~= by_cost(all.take(0)).map_values(name));
    assert(micros@ =~= by_cost(all.take(0)).map_values(|s: SpenderView| s.micros));
    while i < l.len()
        invariant
            i <= l.len(),
            all == spenders(l@),
            name == (|s: SpenderView| s.line),
            text::texts(out@) == by_cost(all.take(i as int)).map_values(name),
            micros@ == by_cost(all.take(i as int)).map_values(|s: SpenderView| s.micros),
        decreases l.len() - i,
    {
        assert(all.take(i + 1).drop_last() =~= all.take(i as int));
        assert(all.take(i + 1).last() == l@[i as int]@);
        let s = &l[i];
        let ghost held = by_cost(all.take(i as int));
        assert(held.len() == micros@.len());
        assert(text::texts(out@).len() == out@.len());
        let mut k: usize = micros.len();
        let mut go: bool = true;
        while go
            invariant
                k <= micros.len(),
                held.len() == micros@.len(),
                micros@ == held.map_values(|s: SpenderView| s.micros),
                spender_place(held, s@, held.len() as int) == spender_place(held, s@, k as int),
                !go ==> spender_place(held, s@, k as int) == k,
            decreases k + (if go {
                1int
            } else {
                0
            }),
        {
            if k == 0 {
                go = false;
            } else {
                assert(held[k - 1].micros == micros@[k - 1]);
                if micros[k - 1] < s.micros {
                    k = k - 1;
                } else {
                    go = false;
                }
            }
        }
        let ghost was = text::texts(out@);
        micros.insert(k, s.micros);
        out.insert(k, s.line.clone());
        assert(text::texts(out@) =~= was.insert(k as int, s@.line));
        assert(text::texts(out@) =~= held.insert(k as int, s@).map_values(name));
        assert(micros@ =~= held.insert(k as int, s@).map_values(|s: SpenderView| s.micros));
        i = i + 1;
    }
    assert(all.take(all.len() as int) =~= all);
    let ghost full = text::texts(out@);
    assert(full.len() == out@.len());
    assert(full == by_cost(all).map_values(|s: SpenderView| s.line));
    if out.len() > SHOWN_SPENDERS {
        out.truncate(SHOWN_SPENDERS);
        assert(text::texts(out@) =~= full.take(SHOWN_SPENDERS as int));
    }
    out
}

fn make_spender_lines(l: &Vec<String>) -> (r: String)
    ensures
        r@ == spender_lines(text::texts(l@)),
{
    let ghost all = text::texts(l@);
    let mut out: String = String::new();
    let mut i: usize = 0;
    assert(all.take(0) =~= Seq::empty());
    assert(out@ =~= Seq::empty());
    while i < l.len()
        invariant
            i <= l.len(),
            all == text::texts(l@),
            out@ == spender_lines(all.take(i as int)),
        decreases l.len() - i,
    {
        assert(all.take(i + 1).drop_last() =~= all.take(i as int));
        assert(all.take(i + 1).last() == l@[i as int]@);
        out.append("  - ");
        out.append(l[i].as_str());
        out.append("\n");
        i = i + 1;
    }
    assert(all.take(all.len() as int) =~= all);
    out
}

fn make_question_lines(l: &Vec<String>) -> (r: String)
    ensures
        r@ == question_lines(text::texts(l@)),
{
    let ghost all = text::texts(l@);
    let mut out: String = String::new();
    let mut i: usize = 0;
    assert(all.take(0) =~= Seq::empty());
    assert(out@ =~= Seq::empty());
    while i < l.len()
        invariant
            i <= l.len(),
            all == text::texts(l@),
            out@ == question_lines(all.take(i as int)),
        decreases l.len() - i,
    {
        assert(all.take(i + 1).drop_last() =~= all.take(i as int));
        assert(all.take(i + 1).last() == l@[i as int]@);
        let n = to_decimal(i as u64 + 1);
        out.append(n.as_str());
        out.append(". ");
        out.append(l[i].as_str());
        out.append("\n\n");
        i = i + 1;
    }
    assert(all.take(all.len() as int) =~= all);
    out
}

fn make_summary(
    st: &State,
    gate: &RunResult,
    f: &Facts,
    needs: &Vec<String>,
) -> (r: String)
    requires
        st.wf(),
        text::texts(needs@) == undecided(rows(*st)),
    ensures
        r@ == summary_text(rows(*st), gate@, f@),
{
    let done = collect(st, Listing::Done);
    let failed = collect(st, Listing::Failed);
    let committed = collect(st, Listing::Committed);
    let clean = collect(st, Listing::Clean);
    proof {
        lemma_items_split(rows(*st));
        assert(text::texts(done@).len() == done@.len());
        assert(text::texts(failed@).len() == failed@.len());
        assert(text::texts(committed@).len() == committed@.len());
    }
    let total: usize = st.components.len();
    let reviewed: usize = done.len() + failed.len();
    let head: Draft = Draft::of("# Final Review Report\n\n## Run summary\n\n").put(
        "- reviewed: ",
    ).put(to_decimal(reviewed as u64).as_str()).put(" of ").put(
        to_decimal(total as u64).as_str(),
    ).put(" components\n").put("- fixed+committed: ").put(show_counted(&committed).as_str()).put(
        "\n",
    ).put("- clean: ").put(show_counted(&clean).as_str()).put("\n").put(
        "- needs-decision: ",
    ).put(show_counted(needs).as_str()).put("\n").put("- commits: ").put(
        to_decimal(committed.len() as u64).as_str(),
    ).put("\n").put("- final verify: ");
    let head: Draft = if gate.passed {
        head.put("PASS")
    } else {
        let verdict = Draft::of("FAIL (`").put(failed_command(gate)).put("`)").text;
        head.put(verdict.as_str())
    };
    let head: Draft = head.put("\n").put("- model: ").put(f.model.as_str()).put("\n");
    let branch: String = match &f.branch {
        Some(b) => Draft::of("- branch: ").put(b.as_str()).put(
            " (dedicated — merge or revert as a unit)\n",
        ).text,
        None => String::new(),
    };
    assert(branch@ =~= branch_line(f@.branch));
    let usage: String = match &f.usage {
        Some(u) => {
            let own = Draft::of("- usage: ").put(u.as_str()).put("\n").text;
            Draft::of(own.as_str()).put(
                make_spender_lines(&name_spenders(&f.spenders)).as_str(),
            ).text
        },
        None => String::new(),
    };
    assert(usage@ =~= usage_lines(f@));
    let out: String = head.put(branch.as_str()).put(usage.as_str()).text;
    out
}

proof fn lemma_items_split(rs: Seq<RowView>)
    ensures
        items(rs, Listing::Done).len() + items(rs, Listing::Failed).len() <= rs.len(),
        items(rs, Listing::Clean).len() + items(rs, Listing::Leftover).len() == items(
            rs,
            Listing::Done,
        ).len(),
    decreases rs.len(),
{
    if rs.len() > 0 {
        lemma_items_split(rs.drop_last());
    }
}

/// The final report of a run: facts from the state, then the questions of the
/// report agent, or why there are none. An agent that fails does not lose the
/// facts.
pub fn generate_report(
    st: &State,
    gate: &RunResult,
    f: &Facts,
    questions: Result<Vec<String>, String>,
) -> (r: String)
    requires
        st.wf(),
    ensures
        r@ == report_text(
            rows(*st),
            gate@,
            f@,
            match questions {
                Ok(l) => Ok(text::texts(l@)),
                Err(e) => Err(e@),
            },
        ),
{
    let mut needs: Vec<String> = collect(st, Listing::Failed);
    text::extend(&mut needs, collect(st, Listing::Leftover));
    assert(text::texts(needs@).len() == needs@.len());
    let summary = make_summary(st, gate, f, &needs);
    let asked: String = match questions {
        Ok(l) => {
            assert(text::texts(l@).len() == l@.len());
            if l.len() > 0 {
                make_question_lines(&l)
            } else if needs.len() > 0 {
                owned(
                    "(the report agent returned no questions — see the run ledger and findings files)\n",
                )
            } else {
                owned("(none)\n")
            }
        },
        Err(e) => Draft::of("(questions unavailable — report agent failed: ").put(
            e.as_str(),
        ).put(")\n").text,
    };
    Draft::of(summary.as_str()).put("\n## OPEN QUESTIONS\n\n").put(asked.as_str()).text
}

proof fn lemma_spender_place(l: Seq<SpenderView>, s: SpenderView, n: int)
    requires
        0 <= n <= l.len(),
    ensures
        0 <= spender_place(l, s, n) <= n,
        forall|j: int| spender_place(l, s, n) <= j < n ==> (#[trigger] l[j]).micros < s.micros,
        spender_place(l, s, n) > 0 ==> l[spender_place(l, s, n) - 1].micros >= s.micros,
    decreases n,
{
    if n > 0 && l[n - 1].micros < s.micros {
        lemma_spender_place(l, s, n - 1);
    }
}

/// The spenders that the report names are those that cost most: the order keeps
/// every one of them and puts none behind one that cost less.
pub proof fn law_biggest_spenders_first(l: Seq<SpenderView>)
    ensures
        by_cost(l).to_multiset() == l.to_multiset(),
        forall|i: int, j: int|
            0 <= i < j < by_cost(l).len() ==> (#[trigger] by_cost(l)[i]).micros >= (
            #[trigger] by_cost(l)[j]).micros,
    decreases l.len(),
{
    if l.len() > 0 {
        let front = l.drop_last();
        let s = l.last();
        law_biggest_spenders_first(front);
        let held = by_cost(front);
        let k = spender_place(held, s, held.len() as int);
        lemma_spender_place(held, s, held.len() as int);
        let all = held.insert(k, s);
        all.to_multiset_ensures();
        front.to_multiset_ensures();
        assert(all.remove(k) =~= held);
        assert(all[k] == s);
        assert(all.contains(s));
        assert(l =~= front.push(s));
        assert(all.to_multiset() =~= l.to_multiset());
        assert forall|i: int, j: int| 0 <= i < j < all.len() implies (#[trigger] all[i]).micros >= (
        #[trigger] all[j]).micros by {
            let x = if i < k {
                i
            } else {
                i - 1
            };
            let y = if j < k {
                j
            } else {
                j - 1
            };
            if i != k {
                assert(all[i] == held[x]);
            }
            if j != k {
                assert(all[j] == held[y]);
            }
            if j == k {
                assert(held[x].micros >= held[k - 1].micros);
            }
        }
    } else {
        assert(by_cost(l) =~= l);
    }
}

/// Every component that was worked on is either done or parked, and every one
/// that is done is either clean or needs a decision: the numbers of the report
/// add up.
pub proof fn law_report_adds_up(rs: Seq<RowView>)
    ensures
        items(rs, Listing::Done).len() + items(rs, Listing::Failed).len() == items(
            rs,
            Listing::Clean,
        ).len() + undecided(rs).len(),
{
    lemma_items_split(rs);
}

/// A report never claims green over a red gate.
pub proof fn law_red_gate_is_reported(g: RunView)
    requires
        !g.passed,
    ensures
        gate_text(g) != "PASS"@,
{
    reveal_strlit("PASS");
    reveal_strlit("FAIL (`");
    assert(gate_text(g)[0] == 'F');
}

// ---------------------------------------------------------------------
// The archive
// ---------------------------------------------------------------------

/// The number of open findings of components that are done.
pub open spec fn leftovers(rs: Seq<RowView>) -> nat
    decreases rs.len(),
{
    if rs.len() == 0 {
        0
    } else {
        leftovers(rs.drop_last()) + (if rs.last().phase is Done {
            rs.last().findings as nat
        } else {
            0
        })
    }
}

/// The commits that are recorded.
pub open spec fn commits(rs: Seq<RowView>) -> Seq<Seq<char>>
    decreases rs.len(),
{
    if rs.len() == 0 {
        Seq::empty()
    } else {
        match rs.last().commit {
            Some(c) => commits(rs.drop_last()).push(c),
            None => commits(rs.drop_last()),
        }
    }
}

/// What is recorded of a run in the archive.
#[derive(Debug)]
pub struct RunIndex {
    /// When the run ended; it names the archive.
    pub ts: String,
    pub outcome: &'static str,
    pub components: usize,
    pub done: usize,
    pub failed: usize,
    pub leftover_findings: u128,
    pub commits: Vec<String>,
}

/// What is recorded of a run: how the checks at its end came out, and what the
/// state tells of its components.
pub open spec fn recorded_run(r: RunIndex, st: State, gate: RunResult) -> bool {
    &&& r.outcome@ == (if gate.passed {
        "green"@
    } else {
        "red"@
    })
    &&& r.components == rows(st).len()
    &&& r.done == items(rows(st), Listing::Done).len()
    &&& r.failed == items(rows(st), Listing::Failed).len()
    &&& r.leftover_findings == leftovers(rows(st))
    &&& text::texts(r.commits@) == commits(rows(st))
}

/// What is recorded in the archive of a run that ends now.
pub fn archive_run(st: &State, gate: &RunResult) -> (r: RunIndex)
    requires
        st.wf(),
    ensures
        clock::stamp(r.ts@),
        recorded_run(r, *st, *gate),
{
    let stamp = now_formatted(STAMP_FORM);
    archive_at(st, gate, stamp.as_str())
}

/// What is recorded in the archive of a run that ends at `stamp`.
pub fn archive_at(st: &State, gate: &RunResult, stamp: &str) -> (r: RunIndex)
    requires
        st.wf(),
    ensures
        r.ts@ == stamp@,
        recorded_run(r, *st, *gate),
{
    let ghost all = rows(*st);
    let done = collect(st, Listing::Done);
    let failed = collect(st, Listing::Failed);
    assert(text::texts(done@).len() == done@.len());
    assert(text::texts(failed@).len() == failed@.len());
    let mut list: Vec<String> = Vec::new();
    let mut left: u128 = 0;
    let mut i: usize = 0;
    assert(all.take(0) =~= Seq::empty());
    assert(text::texts(list@) =~= Seq::empty());
    while i < st.components.len()
        invariant
            i <= st.components.pairs().len(),
            all == rows(*st),
            text::texts(list@) == commits(all.take(i as int)),
            left == leftovers(all.take(i as int)),
            left <= i * usize::MAX,
        decreases st.components.pairs().len() - i,
    {
        let row = st.components.row(i);
        assert(all.take(i + 1).drop_last() =~= all.take(i as int));
        assert(all.take(i + 1).last() == row@);
        assert((i + 1) * usize::MAX == i * usize::MAX + usize::MAX) by (nonlinear_arith);
        assert((i + 1) * usize::MAX <= usize::MAX * usize::MAX) by (nonlinear_arith)
            requires
                i + 1 <= usize::MAX,
        ;
        assert(usize::MAX * usize::MAX <= u128::MAX) by (nonlinear_arith)
            requires
                usize::MAX <= 0xffff_ffff_ffff_ffff,
        ;
        if row.phase == Phase::Done {
            left = left + row.findings as u128;
        }
        if let Some(c) = &row.commit {
            let ghost was = text::texts(list@);
            list.push(c.clone());
            assert(text::texts(list@) =~= was.push(c@));
        }
        i = i + 1;
    }
    assert(all.take(all.len() as int) =~= all);
    RunIndex {
        ts: owned(stamp),
        outcome: if gate.passed {
            "green"
        } else {
            "red"
        },
        components: st.components.len(),
        done: done.len(),
        failed: failed.len(),
        leftover_findings: left,
        commits: list,
    }
}

// ---------------------------------------------------------------------
// The end of a run
// ---------------------------------------------------------------------

/// What the timeline says at the end of a run.
pub open spec fn end_text(any_failed: bool, gate: RunView) -> Seq<char> {
    if !any_failed && gate.passed {
        "all components done, final verify green"@
    } else {
        "loop finished"@ + (if gate.passed {
            Seq::empty()
        } else {
            " with a RED final verify"@
        }) + ": "@ + (if any_failed {
            Seq::empty()
        } else {
            "no "@
        }) + "quarantined component(s)"@ + (match gate.failed_command {
            Some(c) => " — final gate `"@ + c + "` failed"@,
            None => Seq::empty(),
        })
    }
}

/// The phase and the words for the timeline at the end of a run: done only where
/// no component is parked and the final gate is green.
pub fn run_end(st: &State, gate: &RunResult) -> (r: (status::Phase, String))
    requires
        st.wf(),
    ensures
        r.0 == (if items(rows(*st), Listing::Failed).len() == 0 && gate.passed {
            status::Phase::Done
        } else {
            status::Phase::Failed
        }),
        r.1@ == end_text(items(rows(*st), Listing::Failed).len() > 0, gate@),
{
    let failed = collect(st, Listing::Failed);
    assert(text::texts(failed@).len() == failed@.len());
    let any: bool = failed.len() > 0;
    if !any && gate.passed {
        return (status::Phase::Done, owned("all components done, final verify green"));
    }
    proof {
        reveal_strlit("");
        assert(""@ =~= Seq::empty());
    }
    let tail: String = match &gate.failed_command {
        Some(c) => Draft::of(" — final gate `").put(c.as_str()).put("` failed").text,
        None => owned(""),
    };
    let words = Draft::of("loop finished").put(
        if gate.passed {
            ""
        } else {
            " with a RED final verify"
        },
    ).put(": ").put(
        if any {
            ""
        } else {
            "no "
        },
    ).put("quarantined component(s)").put(tail.as_str()).text;
    (status::Phase::Failed, words)
}

/// Why a run with a red final gate fails, given the file of its report.
pub open spec fn red_text(gate: RunView, report: Seq<char>) -> Seq<char> {
    "final verify is RED (`"@ + or_nothing(gate.failed_command) + "`) — see "@ + report
        + " for the full report"@
}

/// Why a run with a red final gate fails; nothing where it is green.
pub fn red_gate(gate: &RunResult, report: &str) -> (r: Option<String>)
    ensures
        text::opt(r) == (if gate.passed {
            None
        } else {
            Some(red_text(gate@, report@))
        }),
{
    if gate.passed {
        return None;
    }
    Some(
        Draft::of("final verify is RED (`").put(failed_command(gate)).put("`) — see ").put(
            report,
        ).put(" for the full report").text,
    )
}

/// The result of a final gate that could not be run: red, with the error.
pub fn errored_gate(e: &str) -> (r: RunResult)
    ensures
        r@ == (RunView {
            passed: false,
            failed_command: Some("(final verify errored)"@),
            output: e@,
            kill: None,
        }),
{
    RunResult {
        passed: false,
        failed_command: Some(owned("(final verify errored)")),
        output: owned(e),
        kill: None,
    }
}

// ---------------------------------------------------------------------
// Tables
// ---------------------------------------------------------------------

/// A line of the table of components.
pub open spec fn table_line(
    slug: Seq<char>,
    tier: Seq<char>,
    phase: Seq<char>,
    findings: Seq<char>,
    detail: Seq<char>,
) -> Seq<char> {
    text::left_aligned(slug, 28) + " "@ + text::left_aligned(tier, 10) + " "@ + text::left_aligned(
        phase,
        10,
    ) + " "@ + text::left_aligned(findings, 8) + " "@ + detail + "\n"@
}

/// The line of a component, which counts as pending where it has no row.
pub open spec fn component_line(c: ComponentView, st: State) -> Seq<char> {
    if st.components@.dom().contains(c.slug) {
        let row = st.components@[c.slug];
        table_line(
            c.slug,
            c.tier,
            row.phase.word(),
            number::decimal(row.findings as nat),
            row.detail,
        )
    } else {
        table_line(c.slug, c.tier, "pending"@, number::decimal(0), Seq::empty())
    }
}

pub open spec fn component_lines(cs: Seq<ComponentView>, st: State) -> Seq<char>
    decreases cs.len(),
{
    if cs.len() == 0 {
        Seq::empty()
    } else {
        component_lines(cs.drop_last(), st) + component_line(cs.last(), st)
    }
}

/// The table of components.
pub open spec fn table_text(cs: Seq<ComponentView>, st: State) -> Seq<char> {
    table_line("slug"@, "tier"@, "phase"@, "findings"@, "detail"@) + component_lines(cs, st)
}

fn make_table_line(slug: &str, tier: &str, phase: &str, findings: &str, detail: &str) -> (r: String)
    ensures
        r@ == table_line(slug@, tier@, phase@, findings@, detail@),
{
    Draft::of(pad_right(slug, 28).as_str()).put(" ").put(pad_right(tier, 10).as_str()).put(
        " ",
    ).put(pad_right(phase, 10).as_str()).put(" ").put(pad_right(findings, 8).as_str()).put(
        " ",
    ).put(detail).put("\n").text
}

/// The table of components.
pub fn list(components: &Vec<Component>, st: &State) -> (r: String)
    requires
        st.wf(),
    ensures
        r@ == table_text(checklist::views(components@), *st),
{
    let ghost all = checklist::views(components@);
    let mut out: String = make_table_line("slug", "tier", "phase", "findings", "detail");
    let ghost head = out@;
    let mut i: usize = 0;
    assert(all.take(0) =~= Seq::empty());
    assert(head + Seq::<char>::empty() =~= head);
    while i < components.len()
        invariant
            i <= components.len(),
            st.wf(),
            all == checklist::views(components@),
            out@ == head + component_lines(all.take(i as int), *st),
        decreases components.len() - i,
    {
        let c = &components[i];
        assert(all.take(i + 1).drop_last() =~= all.take(i as int));
        assert(all.take(i + 1).last() == c@);
        let line: String = match st.get(c.slug.as_str()) {
            Some(row) => make_table_line(
                c.slug.as_str(),
                c.tier.as_str(),
                row.phase.as_str(),
                to_decimal(row.findings as u64).as_str(),
                row.detail.as_str(),
            ),
            None => {
                proof {
                    reveal_strlit("");
                    assert(""@ =~= Seq::empty());
                }
                make_table_line(
                    c.slug.as_str(),
                    c.tier.as_str(),
                    "pending",
                    to_decimal(0).as_str(),
                    "",
                )
            },
        };
        let ghost was = out@;
        out.append(line.as_str());
        assert(was + line@ =~= head + (component_lines(all.take(i as int), *st) + line@));
        i = i + 1;
    }
    assert(all.take(all.len() as int) =~= all);
    out
}

/// A line of the list of past runs.
pub open spec fn history_line(
    run: Seq<char>,
    outcome: Seq<char>,
    done: Seq<char>,
    failed: Seq<char>,
    leftover: Seq<char>,
    cost: Seq<char>,
    model: Seq<char>,
) -> Seq<char> {
    text::left_aligned(run, 18) + " "@ + text::left_aligned(outcome, 7) + " "@
        + text::right_aligned(done, 5) + " "@ + text::right_aligned(failed, 7) + " "@
        + text::right_aligned(leftover, 9) + " "@ + text::right_aligned(cost, 10) + "  "@ + model
}

pub open spec fn number_or_zero(v: JsonView, key: Seq<char>) -> Seq<char> {
    number::decimal(
        match v.unsigned_member(key) {
            Some(n) => n as nat,
            None => 0,
        },
    )
}

/// The model without where it comes from.
pub open spec fn short_model(v: JsonView) -> Seq<char> {
    match v.text_member("model"@) {
        None => "-"@,
        Some(m) => match text::cut_at(m, " — "@) {
            Some((front, _)) => front,
            None => m,
        },
    }
}

/// The line of a past run, from what the archive records of it.
pub open spec fn run_line(run: Seq<char>, v: JsonView, cost: Seq<char>) -> Seq<char> {
    history_line(
        run,
        match v.text_member("outcome"@) {
            Some(o) => o,
            None => "?"@,
        },
        number_or_zero(v, "done"@),
        number_or_zero(v, "failed"@),
        number_or_zero(v, "leftover_findings"@),
        cost,
        short_model(v),
    )
}

fn make_history_line(
    run: &str,
    outcome: &str,
    done: &str,
    failed: &str,
    leftover: &str,
    cost: &str,
    model: &str,
) -> (r: String)
    ensures
        r@ == history_line(run@, outcome@, done@, failed@, leftover@, cost@, model@),
{
    Draft::of(pad_right(run, 18).as_str()).put(" ").put(pad_right(outcome, 7).as_str()).put(
        " ",
    ).put(pad_left(done, 5).as_str()).put(" ").put(pad_left(failed, 7).as_str()).put(" ").put(
        pad_left(leftover, 9).as_str(),
    ).put(" ").put(pad_left(cost, 10).as_str()).put("  ").put(model).text
}

fn show_number(v: &serde_json::Value, key: &str) -> (r: String)
    ensures
        r@ == number_or_zero(json::json_view(*v), key@),
{
    match json::unsigned_field(v, key) {
        Some(n) => to_decimal(n),
        None => to_decimal(0),
    }
}

/// The line above the list of past runs.
pub fn history_head() -> (r: String)
    ensures
        r@ == history_line(
            "run"@,
            "outcome"@,
            "done"@,
            "failed"@,
            "leftover"@,
            "cost"@,
            "model/usage"@,
        ),
{
    make_history_line("run", "outcome", "done", "failed", "leftover", "cost", "model/usage")
}

/// The line of a past run, from what the archive records of it and the cost as
/// it is shown.
pub fn history_row(run: &str, index: &serde_json::Value, cost: &str) -> (r: String)
    ensures
        r@ == run_line(run@, json::json_view(*index), cost@),
{
    let outcome: &str = match json::field(index, "outcome") {
        Some(o) => o,
        None => "?",
    };
    let model: &str = match json::field(index, "model") {
        None => "-",
        Some(m) => match split_once(m, " — ") {
            Some((front, _)) => front,
            None => m,
        },
    };
    make_history_line(
        run,
        outcome,
        show_number(index, "done").as_str(),
        show_number(index, "failed").as_str(),
        show_number(index, "leftover_findings").as_str(),
        cost,
        model,
    )
}

/// What the archive records of a run; nothing where its text cannot be read.
pub open spec fn recorded(text: Seq<char>) -> JsonView {
    match json::json_document(text) {
        Ok(v) => v,
        Err(_) => JsonView::Null,
    }
}

/// The line of a past run, from the text that the archive holds of it and the
/// cost as it is shown.
pub fn history(run: &str, index: &str, cost: &str) -> (r: String)
    ensures
        r@ == run_line(run@, recorded(index@), cost@),
{
    match json::parse_json(index) {
        Ok(v) => history_row(run, &v, cost),
        Err(_) => {
            let zero = to_decimal(0);
            make_history_line(
                run,
                "?",
                zero.as_str(),
                zero.as_str(),
                zero.as_str(),
                cost,
                "-",
            )
        },
    }
}

/// The place of `s` among texts in descending order: before the first that it
/// does not precede, among the first `n`.
pub open spec fn later_place(l: Seq<Seq<char>>, s: Seq<char>, n: int) -> int
    decreases n,
{
    if n <= 0 || !text::before(l[n - 1], s) {
        n
    } else {
        later_place(l, s, n - 1)
    }
}

/// The texts in descending order.
pub open spec fn descending(l: Seq<Seq<char>>) -> Seq<Seq<char>>
    decreases l.len(),
{
    if l.len() == 0 {
        Seq::empty()
    } else {
        let before = descending(l.drop_last());
        before.insert(later_place(before, l.last(), before.len() as int), l.last())
    }
}

/// The names of past runs, which begin with the time, the most recent first.
pub fn newest_first(names: &Vec<String>) -> (r: Vec<String>)
    ensures
        text::texts(r@) == descending(text::texts(names@)),
{
    let ghost all = text::texts(names@);
    let mut out: Vec<String> = Vec::new();
    let mut i: usize = 0;
    assert(all.take(0) =~= Seq::empty());
    assert(text::texts(out@) =~= Seq::empty());
    while i < names.len()
        invariant
            i <= names.len(),
            all == text::texts(names@),
            text::texts(out@) == descending(all.take(i as int)),
        decreases names.len() - i,
    {
        assert(all.take(i + 1).drop_last() =~= all.take(i as int));
        assert(all.take(i + 1).last() == names@[i as int]@);
        let s = names[i].as_str();
        let ghost held = text::texts(out@);
        assert(held.len() == out@.len());
        let mut k: usize = out.len();
        let mut go: bool = true;
        while go
            invariant
                k <= out.len(),
                held == text::texts(out@),
                held.len() == out@.len(),
                later_place(held, s@, held.len() as int) == later_place(held, s@, k as int),
                !go ==> later_place(held, s@, k as int) == k,
            decreases k + (if go {
                1int
            } else {
                0
            }),
        {
            if k == 0 {
                go = false;
            } else {
                assert(held[k - 1] == out@[k - 1]@);
                if less(out[k - 1].as_str(), s) {
                    k = k - 1;
                } else {
                    go = false;
                }
            }
        }
        out.insert(k, owned(s));
        assert(text::texts(out@) =~= held.insert(k as int, s@));
        i = i + 1;
    }
    assert(all.take(all.len() as int) =~= all);
    out
}

proof fn lemma_later_place(l: Seq<Seq<char>>, s: Seq<char>, n: int)
    requires
        0 <= n <= l.len(),
    ensures
        0 <= later_place(l, s, n) <= n,
        forall|j: int| later_place(l, s, n) <= j < n ==> text::before(#[trigger] l[j], s),
        later_place(l, s, n) > 0 ==> !text::before(l[later_place(l, s, n) - 1], s),
    decreases n,
{
    if n > 0 && text::before(l[n - 1], s) {
        lemma_later_place(l, s, n - 1);
    }
}

/// The list of past runs holds each run, the most recent first.
pub proof fn law_newest_first(l: Seq<Seq<char>>)
    ensures
        descending(l).to_multiset() == l.to_multiset(),
        forall|i: int, j: int|
            0 <= i < j < descending(l).len() ==> !text::before(
                #[trigger] descending(l)[i],
                #[trigger] descending(l)[j],
            ),
    decreases l.len(),
{
    if l.len() > 0 {
        let front = l.drop_last();
        let s = l.last();
        law_newest_first(front);
        let held = descending(front);
        let k = later_place(held, s, held.len() as int);
        lemma_later_place(held, s, held.len() as int);
        let all = held.insert(k, s);
        all.to_multiset_ensures();
        front.to_multiset_ensures();
        assert(all.remove(k) =~= held);
        assert(all[k] == s);
        assert(all.contains(s));
        assert(l =~= front.push(s));
        assert(all.to_multiset() =~= l.to_multiset());
        assert forall|i: int, j: int| 0 <= i < j < all.len() implies !text::before(
            #[trigger] all[i],
            #[trigger] all[j],
        ) by {
            if i == k {
                assert(all[j] == held[j - 1]);
                text::lemma_before_strict(held[j - 1], s);
            } else if j == k {
                assert(all[i] == held[i]);
                if text::before(held[i], s) && i < k - 1 {
                    text::lemma_before_total(held[i], held[k - 1]);
                    text::lemma_before_total(held[k - 1], s);
                    if text::before(held[k - 1], held[i]) {
                        text::lemma_before_transitive(held[k - 1], held[i], s);
                    }
                }
            } else {
                let x = if i < k {
                    i
                } else {
                    i - 1
                };
                let y = if j < k {
                    j
                } else {
                    j - 1
                };
                assert(all[i] == held[x] && all[j] == held[y]);
            }
        }
    } else {
        assert(descending(l) =~= l);
    }
}

// ---------------------------------------------------------------------
// Laws of the texts
// ---------------------------------------------------------------------

/// A listing holds every component that belongs to it, in the order of the rows,
/// and no other.
pub proof fn law_listings_are_complete(rs: Seq<RowView>, l: Listing)
    ensures
        items(rs, l) == rs.filter(|r: RowView| l.holds(r)).map_values(|r: RowView| l.item(r)),
    decreases rs.len(),
{
    reveal(Seq::filter);
    let f = |r: RowView| l.holds(r);
    let g = |r: RowView| l.item(r);
    if rs.len() > 0 {
        law_listings_are_complete(rs.drop_last(), l);
        let before = rs.drop_last().filter(f);
        if l.holds(rs.last()) {
            assert(before.push(rs.last()).map_values(g) =~= before.map_values(g).push(
                l.item(rs.last()),
            ));
        }
    }
    assert(items(rs, l) =~= rs.filter(f).map_values(g));
}

/// Which components a listing holds, and how it shows each.
pub proof fn law_listings(row: RowView)
    ensures
        Listing::Done.holds(row) <==> row.phase is Done,
        Listing::Failed.holds(row) <==> row.phase is Failed,
        Listing::Committed.holds(row) <==> row.commit is Some,
        Listing::Clean.holds(row) <==> row.phase is Done && row.findings == 0,
        Listing::Leftover.holds(row) <==> row.phase is Done && row.findings > 0,
        Listing::Done.item(row) == row.slug,
        Listing::Clean.item(row) == row.slug,
        Listing::Failed.item(row) == row.slug + " (failed, "@ + number::decimal(
            row.findings as nat,
        ) + " open)"@,
        Listing::Leftover.item(row) == row.slug + " (done, "@ + number::decimal(
            row.findings as nat,
        ) + " leftover)"@,
        row.commit matches Some(c) ==> Listing::Committed.item(row) == row.slug + " ("@ + c + ")"@,
{
}

/// The ledger has one line for each component, in the order of the rows, with
/// its slug, tier, phase, findings, commit and detail.
pub proof fn law_ledger_has_every_component(a: Seq<RowView>, row: RowView)
    ensures
        ledger_lines(Seq::empty()).len() == 0,
        ledger_lines(a.push(row)) == ledger_lines(a) + ledger_line(row),
        row.commit matches Some(c) ==> ledger_line(row) == "| "@ + row.slug + " | "@ + row.tier
            + " | "@ + row.phase.word() + " | "@ + number::decimal(row.findings as nat) + " | "@ + c
            + " | "@ + cell(row.detail) + " |\n"@,
        row.commit is None ==> ledger_line(row) == "| "@ + row.slug + " | "@ + row.tier + " | "@
            + row.phase.word() + " | "@ + number::decimal(row.findings as nat) + " | "@ + "-"@
            + " | "@ + cell(row.detail) + " |\n"@,
        ledger_text(a) == "# Run ledger\n\n"@
            + "| slug | tier | phase | findings | commit | detail |\n"@
            + "|------|------|-------|----------|--------|--------|\n"@ + ledger_lines(a),
{
    assert(a.push(row).drop_last() =~= a);
}

proof fn lemma_replaced_clean(s: Seq<char>, set: CharSet, with: Seq<char>, c: char)
    requires
        set.has(c) || !text::has_char(s, CharSet::One(c)),
        !text::has_char(with, CharSet::One(c)),
    ensures
        !text::has_char(text::replaced(s, set, with), CharSet::One(c)),
    decreases s.len(),
{
    if s.len() > 0 {
        let front = s.drop_last();
        if !set.has(c) {
            assert forall|i: int| 0 <= i < front.len() implies !CharSet::One(c).has(
                #[trigger] front[i],
            ) by {
                assert(!CharSet::One(c).has(s[i]));
            }
            assert(!CharSet::One(c).has(s[s.len() - 1]));
        }
        lemma_replaced_clean(front, set, with, c);
        let a = text::replaced(front, set, with);
        let b = if set.has(s.last()) {
            with
        } else {
            seq![s.last()]
        };
        assert(!text::has_char(b, CharSet::One(c)));
        assert forall|i: int| 0 <= i < (a + b).len() implies !CharSet::One(c).has(
            #[trigger] (a + b)[i],
        ) by {
            if i < a.len() {
                assert(!CharSet::One(c).has(a[i]));
            } else {
                assert(!CharSet::One(c).has(b[i - a.len()]));
            }
        }
    }
}

/// A cell stays on its line and is short; a short detail without bars and line
/// feeds is shown as it is.
pub proof fn law_cells(detail: Seq<char>)
    ensures
        cell(detail).len() <= 80,
        !text::has_char(cell(detail), CharSet::One('\n')),
        detail.len() <= 80 && !text::has_char(detail, CharSet::One('|')) && !text::has_char(
            detail,
            CharSet::One('\n'),
        ) ==> cell(detail) == detail,
{
    reveal_strlit("\\|");
    reveal_strlit(" ");
    let one = text::replaced(detail, CharSet::One('|'), "\\|"@);
    let two = text::replaced(one, CharSet::One('\n'), " "@);
    lemma_replaced_clean(one, CharSet::One('\n'), " "@, '\n');
    text::law_first_chars(two, 80);
    let c = cell(detail);
    assert forall|i: int| 0 <= i < c.len() implies !CharSet::One('\n').has(#[trigger] c[i]) by {
        assert(c[i] == two[i]);
        assert(!CharSet::One('\n').has(two[i]));
    }
    text::law_replacing(detail, Seq::empty(), 'x', CharSet::One('|'), "\\|"@);
    text::law_replacing(one, Seq::empty(), 'x', CharSet::One('\n'), " "@);
}

/// The summary of a run counts what the rows say: how many components were
/// worked on, were committed, are clean, and need a decision.
pub proof fn law_summary_counts_the_rows(rs: Seq<RowView>, gate: RunView, f: FactsView)
    ensures
        summary_text(rs, gate, f) == "# Final Review Report\n\n## Run summary\n\n"@
            + "- reviewed: "@ + number::decimal(
            rs.filter(|r: RowView| r.phase is Done || r.phase is Failed).len(),
        ) + " of "@ + number::decimal(rs.len()) + " components\n"@ + "- fixed+committed: "@
            + counted(items(rs, Listing::Committed)) + "\n"@ + "- clean: "@ + counted(
            items(rs, Listing::Clean),
        ) + "\n"@ + "- needs-decision: "@ + counted(
            items(rs, Listing::Failed) + items(rs, Listing::Leftover),
        ) + "\n"@ + "- commits: "@ + number::decimal(
            rs.filter(|r: RowView| r.commit is Some).len(),
        ) + "\n"@ + "- final verify: "@ + gate_text(gate) + "\n"@ + "- model: "@ + f.model + "\n"@
            + branch_line(f.branch) + usage_lines(f),
        undecided(rs).len() == rs.filter(
            |r: RowView| r.phase is Failed || (r.phase is Done && r.findings > 0),
        ).len(),
{
    lemma_counts(rs);
}

proof fn lemma_counts(rs: Seq<RowView>)
    ensures
        items(rs, Listing::Done).len() + items(rs, Listing::Failed).len() == rs.filter(
            |r: RowView| r.phase is Done || r.phase is Failed,
        ).len(),
        items(rs, Listing::Committed).len() == rs.filter(|r: RowView| r.commit is Some).len(),
        undecided(rs).len() == rs.filter(
            |r: RowView| r.phase is Failed || (r.phase is Done && r.findings > 0),
        ).len(),
    decreases rs.len(),
{
    reveal(Seq::filter);
    if rs.len() > 0 {
        lemma_counts(rs.drop_last());
    }
}

/// A list that is counted is shown with its number.
pub proof fn law_counted_lists(l: Seq<Seq<char>>)
    ensures
        l.len() == 0 ==> counted(l) == number::decimal(0),
        text::joined(l, ", "@).len() > 0 ==> counted(l) == number::decimal(l.len()) + (": "@
            + text::joined(l, ", "@)),
{
    assert(number::decimal(0) + Seq::<char>::empty() =~= number::decimal(0));
}

/// A gate is reported green only where it is, and red with the command that
/// failed.
pub proof fn law_gates_in_words(g: RunView)
    ensures
        g.passed ==> gate_text(g) == "PASS"@,
        !g.passed && g.failed_command is Some ==> gate_text(g) == "FAIL (`"@
            + g.failed_command->Some_0 + "`)"@,
        g.failed_command matches Some(c) ==> red_text(g, c) == "final verify is RED (`"@ + c
            + "`) — see "@ + c + " for the full report"@,
{
}

/// The report names the five components that cost most, or all where there are
/// no more, in the order of what they cost.
pub proof fn law_named_spenders(l: Seq<SpenderView>)
    ensures
        top_lines(l).len() == (if l.len() > 5 {
            5
        } else {
            l.len()
        }),
        forall|i: int|
            0 <= i < top_lines(l).len() ==> #[trigger] top_lines(l)[i] == by_cost(l)[i].line,
        by_cost(l).len() == l.len(),
{
    lemma_cost_length(l);
}

proof fn lemma_cost_length(l: Seq<SpenderView>)
    ensures
        by_cost(l).len() == l.len(),
    decreases l.len(),
{
    if l.len() > 0 {
        let held = by_cost(l.drop_last());
        lemma_cost_length(l.drop_last());
        lemma_spender_place(held, l.last(), held.len() as int);
    }
}

/// Lists in the report hold each of their lines, in order; questions are
/// numbered.
pub proof fn law_lists_of_the_report(l: Seq<Seq<char>>, x: Seq<char>)
    ensures
        spender_lines(Seq::empty()).len() == 0,
        spender_lines(l.push(x)) == spender_lines(l) + "  - "@ + x + "\n"@,
        question_lines(Seq::empty()).len() == 0,
        question_lines(l.push(x)) == question_lines(l) + number::decimal(l.len() + 1) + ". "@ + x
            + "\n\n"@,
{
    assert(l.push(x).drop_last() =~= l);
}

/// Every question of the report agent is in the report; without any the report
/// says whether some were to be expected, and why there are none where the agent
/// failed.
pub proof fn law_questions_of_a_report(
    rs: Seq<RowView>,
    gate: RunView,
    f: FactsView,
    l: Seq<Seq<char>>,
    e: Seq<char>,
)
    ensures
        l.len() > 0 ==> report_text(rs, gate, f, Ok(l)) == summary_text(rs, gate, f)
            + "\n## OPEN QUESTIONS\n\n"@ + question_lines(l),
        l.len() == 0 && undecided(rs).len() == 0 ==> report_text(rs, gate, f, Ok(l))
            == summary_text(rs, gate, f) + "\n## OPEN QUESTIONS\n\n"@ + "(none)\n"@,
        l.len() == 0 && undecided(rs).len() > 0 ==> report_text(rs, gate, f, Ok(l))
            == summary_text(rs, gate, f) + "\n## OPEN QUESTIONS\n\n"@
            + "(the report agent returned no questions — see the run ledger and findings files)\n"@,
        report_text(rs, gate, f, Err(e)) == summary_text(rs, gate, f)
            + "\n## OPEN QUESTIONS\n\n"@ + ("(questions unavailable — report agent failed: "@ + e
            + ")\n"@),
{
}

/// The branch and the usage are told where there are any.
pub proof fn law_facts_of_a_report(f: FactsView)
    ensures
        f.branch is None ==> branch_line(f.branch).len() == 0,
        f.branch matches Some(b) ==> branch_line(f.branch) == "- branch: "@ + b
            + " (dedicated — merge or revert as a unit)\n"@,
        f.usage is None ==> usage_lines(f).len() == 0,
        f.usage matches Some(u) ==> usage_lines(f) == "- usage: "@ + u + "\n"@ + spender_lines(
            top_lines(f.spenders),
        ),
{
}

/// The archive records the commits of all components, in their order, and the
/// open findings of those that are done.
pub proof fn law_archive_records_everything(rs: Seq<RowView>)
    ensures
        commits(rs) == rs.filter(|r: RowView| r.commit is Some).map_values(
            |r: RowView| r.commit->Some_0,
        ),
        leftovers(rs) == rs.fold_left(
            0nat,
            |sum: nat, r: RowView|
                if r.phase is Done {
                    sum + r.findings as nat
                } else {
                    sum
                },
        ),
    decreases rs.len(),
{
    reveal(Seq::filter);
    reveal(Seq::fold_left);
    let f = |r: RowView| r.commit is Some;
    let g = |r: RowView| r.commit->Some_0;
    if rs.len() > 0 {
        law_archive_records_everything(rs.drop_last());
        let before = rs.drop_last().filter(f);
        if rs.last().commit is Some {
            assert(before.push(rs.last()).map_values(g) =~= before.map_values(g).push(
                rs.last().commit->Some_0,
            ));
        }
    }
    assert(commits(rs) =~= rs.filter(f).map_values(g));
}

/// What is recorded of a run is how its checks came out and what its rows say.
pub proof fn law_recorded_runs(r: RunIndex, st: State, gate: RunResult)
    requires
        recorded_run(r, st, gate),
    ensures
        gate.passed ==> r.outcome@ == "green"@,
        !gate.passed ==> r.outcome@ == "red"@,
        r.components == rows(st).len(),
        r.done == rows(st).filter(|x: RowView| x.phase is Done).len(),
        r.failed == rows(st).filter(|x: RowView| x.phase is Failed).len(),
        text::texts(r.commits@).len() == rows(st).filter(|x: RowView| x.commit is Some).len(),
{
    lemma_done_and_failed(rows(st));
    law_archive_records_everything(rows(st));
}

proof fn lemma_done_and_failed(rs: Seq<RowView>)
    ensures
        items(rs, Listing::Done).len() == rs.filter(|x: RowView| x.phase is Done).len(),
        items(rs, Listing::Failed).len() == rs.filter(|x: RowView| x.phase is Failed).len(),
    decreases rs.len(),
{
    reveal(Seq::filter);
    if rs.len() > 0 {
        lemma_done_and_failed(rs.drop_last());
    }
}

/// What the timeline says at the end of a run: that all is done only where no
/// component is parked and its last gate is green; otherwise which of them is not so.
pub proof fn law_ends_in_words(c: Seq<char>, out: Seq<char>, kill: Option<crate::verify::VerifyKill>)
    ensures
        end_text(
            false,
            RunView { passed: true, failed_command: None, output: out, kill },
        ) == "all components done, final verify green"@,
        end_text(
            true,
            RunView { passed: true, failed_command: None, output: out, kill },
        ) == "loop finished"@ + ": "@ + "quarantined component(s)"@,
        end_text(
            false,
            RunView { passed: false, failed_command: Some(c), output: out, kill },
        ) == "loop finished"@ + " with a RED final verify"@ + ": "@ + "no "@
            + "quarantined component(s)"@ + (" — final gate `"@ + c + "` failed"@),
        end_text(
            true,
            RunView { passed: false, failed_command: Some(c), output: out, kill },
        ) == "loop finished"@ + " with a RED final verify"@ + ": "@ + "quarantined component(s)"@ + (
        " — final gate `"@ + c + "` failed"@),
{
    let e = Seq::<char>::empty();
    let a = "loop finished"@;
    assert(a + e =~= a);
    let b = a + ": "@;
    assert(b + e =~= b);
    let d = b + "quarantined component(s)"@;
    assert(d + e =~= d);
    let g = a + " with a RED final verify"@ + ": "@;
    assert(g + e =~= g);
}

/// The table shows each component of the list, in its order, as its row has it,
/// and as pending where it has none.
pub proof fn law_table_has_every_component(cs: Seq<ComponentView>, c: ComponentView, st: State)
    ensures
        component_lines(Seq::empty(), st).len() == 0,
        component_lines(cs.push(c), st) == component_lines(cs, st) + component_line(c, st),
        st.components@.dom().contains(c.slug) ==> component_line(c, st) == table_line(
            c.slug,
            c.tier,
            st.components@[c.slug].phase.word(),
            number::decimal(st.components@[c.slug].findings as nat),
            st.components@[c.slug].detail,
        ),
        !st.components@.dom().contains(c.slug) ==> component_line(c, st) == table_line(
            c.slug,
            c.tier,
            "pending"@,
            number::decimal(0),
            Seq::empty(),
        ),
        table_line(c.slug, c.tier, c.name, c.name, c.name) == text::left_aligned(c.slug, 28) + " "@
            + text::left_aligned(c.tier, 10) + " "@ + text::left_aligned(c.name, 10) + " "@
            + text::left_aligned(c.name, 8) + " "@ + c.name + "\n"@,
{
    assert(cs.push(c).drop_last() =~= cs);
}

/// The line of a past run shows what was recorded: how it ended, its numbers,
/// zero for what is missing, and the model without where it comes from.
pub proof fn law_past_runs(run: Seq<char>, v: JsonView, cost: Seq<char>, key: Seq<char>)
    ensures
        v.unsigned_member(key) matches Some(n) ==> number_or_zero(v, key) == number::decimal(
            n as nat,
        ),
        v.unsigned_member(key) is None ==> number_or_zero(v, key) == number::decimal(0),
        v.member("model"@) matches Some(JsonView::Text(m)) ==> (forall|i: int|
            !#[trigger] text::occurs_at(m, " — "@, i)) ==> short_model(v) == m,
        v.member("model"@) matches Some(JsonView::Text(m)) ==> (text::cut_at(
            m,
            " — "@,
        ) matches Some((a, b)) ==> short_model(v) == a),
        !(v.member("model"@) matches Some(JsonView::Text(_))) ==> short_model(v) == "-"@,
        v.member("outcome"@) matches Some(JsonView::Text(o)) ==> run_line(run, v, cost)
            == history_line(
            run,
            o,
            number_or_zero(v, "done"@),
            number_or_zero(v, "failed"@),
            number_or_zero(v, "leftover_findings"@),
            cost,
            short_model(v),
        ),
        history_line(run, run, run, run, run, cost, key) == text::left_aligned(run, 18) + " "@
            + text::left_aligned(run, 7) + " "@ + text::right_aligned(run, 5) + " "@
            + text::right_aligned(run, 7) + " "@ + text::right_aligned(run, 9) + " "@
            + text::right_aligned(cost, 10) + "  "@ + key,
{
    if let Some(JsonView::Text(m)) = v.member("model"@) {
        text::law_cutting(m, " — "@);
        if let Some((a, b)) = text::cut_at(m, " — "@) {
            assert(m.subrange(a.len() as int, (a.len() + " — "@.len()) as int) =~= " — "@);
            assert(text::occurs_at(m, " — "@, a.len() as int));
        }
    }
}

/// The columns of the table stand in their order, with their titles above them.
pub proof fn law_columns_of_the_table(
    slug: Seq<char>,
    tier: Seq<char>,
    phase: Seq<char>,
    findings: Seq<char>,
    detail: Seq<char>,
    st: State,
)
    ensures
        table_line(slug, tier, phase, findings, detail) == text::left_aligned(slug, 28) + " "@
            + text::left_aligned(tier, 10) + " "@ + text::left_aligned(phase, 10) + " "@
            + text::left_aligned(findings, 8) + " "@ + detail + "\n"@,
        table_text(Seq::empty(), st) == table_line(
            "slug"@,
            "tier"@,
            "phase"@,
            "findings"@,
            "detail"@,
        ),
{
    let head = table_line("slug"@, "tier"@, "phase"@, "findings"@, "detail"@);
    assert(head + Seq::<char>::empty() =~= head);
}

/// The table goes on with each component that is added, behind those before it.
pub proof fn law_table_grows(cs: Seq<ComponentView>, c: ComponentView, st: State)
    ensures
        table_text(cs.push(c), st) == table_text(cs, st) + component_line(c, st),
{
    law_table_has_every_component(cs, c, st);
    let head = table_line("slug"@, "tier"@, "phase"@, "findings"@, "detail"@);
    assert(head + (component_lines(cs, st) + component_line(c, st)) =~= head + component_lines(cs, st)
        + component_line(c, st));
}

} // verus!
