//! The course of a run, from the recorded state to its end: what is to be done
//! before the first component, which component is next, and how the run closes.

use vstd::prelude::*;
use crate::checklist;
use crate::checklist::Component;
use crate::plan;
use crate::plan::{dirty_guard, has_active};
use crate::report;
use crate::report::{red_gate, run_end, Listing};
use crate::state;
use crate::state::{RowView, State};
use crate::status;
use crate::text;
use crate::verify::{RunResult, RunView};

verus! {

/// Why a run over an empty checklist is refused.
pub const EMPTY_CHECKLIST: &'static str = "checklist is empty — run `gaggle init` first";

/// What a run waits for.
#[derive(Debug, Clone, Copy, PartialEq, Eq, Structural)]
pub enum Stage {
    /// That what an interrupted fixer left behind is discarded.
    Discarding,
    /// The paths with changes.
    Looking,
    /// That the run has begun.
    Ready,
    /// That a component is settled.
    Working,
    /// The final checks.
    Gating,
    /// Nothing more.
    Ended,
}

/// What is to be done next. `T` is the type of texts.
#[derive(Debug)]
pub enum Next<T> {
    /// Discard what is uncommitted: an interrupted fixer left it behind.
    Discard,
    /// Look which paths have changes.
    Look,
    /// Do not start: changes of the user's would be lost or committed.
    Refuse { why: T },
    /// Record the state and see to the branch of the run.
    Begin,
    /// Work on the component until it is settled.
    Work { slug: T },
    /// Run the final checks.
    FinalGate,
    /// Write the timeline, the report and the archive. The run has failed where
    /// there is a fault.
    Close { phase: status::Phase, words: T, fault: Option<T> },
}

impl View for Next<String> {
    type V = Next<Seq<char>>;

    open spec fn view(&self) -> Next<Seq<char>> {
        match *self {
            Next::Discard => Next::Discard,
            Next::Look => Next::Look,
            Next::Refuse { why } => Next::Refuse { why: why@ },
            Next::Begin => Next::Begin,
            Next::Work { slug } => Next::Work { slug: slug@ },
            Next::FinalGate => Next::FinalGate,
            Next::Close { phase, words, fault } => Next::Close {
                phase,
                words: words@,
                fault: text::opt(fault),
            },
        }
    }
}

/// How a run opens: uncommitted changes are a fixer's where work was
/// interrupted, and the user's otherwise.
pub open spec fn opening(rows: Seq<RowView>) -> (Stage, Next<Seq<char>>) {
    if plan::interrupted(rows) {
        (Stage::Discarding, Next::Discard)
    } else {
        (Stage::Looking, Next::Look)
    }
}

/// What follows the look at the paths with changes.
pub open spec fn after_look(dirty: Seq<Seq<char>>) -> (Stage, Next<Seq<char>>) {
    if plan::blocking(dirty).len() == 0 {
        (Stage::Ready, Next::Begin)
    } else {
        (Stage::Ended, Next::Refuse { why: plan::dirty_text(plan::blocking(dirty)) })
    }
}

/// The next component, or the final checks where none is pending.
pub open spec fn picked(rows: Seq<RowView>) -> (Stage, Next<Seq<char>>) {
    match state::next_row(rows) {
        Some(row) => (Stage::Working, Next::Work { slug: row.slug }),
        None => (Stage::Gating, Next::FinalGate),
    }
}

/// How a run closes.
pub open spec fn closing(rows: Seq<RowView>, gate: RunView, report: Seq<char>) -> (
    Stage,
    Next<Seq<char>>,
) {
    let parked = report::items(rows, Listing::Failed).len() > 0;
    (
        Stage::Ended,
        Next::Close {
            phase: if !parked && gate.passed {
                status::Phase::Done
            } else {
                status::Phase::Failed
            },
            words: report::end_text(parked, gate),
            fault: if gate.passed {
                None
            } else {
                Some(report::red_text(gate, report))
            },
        },
    )
}

/// A run over the components of a checklist.
#[derive(Debug)]
pub struct Run {
    pub stage: Stage,
}

impl Run {
    /// Opens a run: the state is brought in step with the checklist. An empty
    /// checklist is refused, and the state stays as it was.
    pub fn open(st: &mut State, components: &Vec<Component>) -> (r: Result<
        (Run, Next<String>),
        &'static str,
    >)
        requires
            old(st).wf(),
        ensures
            final(st).wf(),
            match r {
                Err(e) => components@.len() == 0 && e@ == EMPTY_CHECKLIST@
                    && final(st).components@ == old(st).components@,
                Ok((run, next)) => {
                    &&& components@.len() > 0
                    &&& final(st).components@ == state::synced(
                        old(st).components@,
                        checklist::views(components@),
                    )
                    &&& (run.stage, next@) == opening(report::rows(*final(st)))
                },
            },
    {
        if components.len() == 0 {
            return Err(EMPTY_CHECKLIST);
        }
        st.sync(components);
        if has_active(st) {
            Ok((Run { stage: Stage::Discarding }, Next::Discard))
        } else {
            Ok((Run { stage: Stage::Looking }, Next::Look))
        }
    }

    /// Takes in that the changes are discarded: interrupted work is pending
    /// again.
    pub fn discarded(&mut self, st: &mut State) -> (r: Next<String>)
        requires
            old(self).stage is Discarding,
            old(st).wf(),
        ensures
            final(st).wf(),
            final(st).components@ == old(st).components@.map_values(
                |row: RowView| state::resumed_row(row),
            ),
            final(self).stage is Ready,
            r is Begin,
    {
        st.reset_active();
        self.stage = Stage::Ready;
        Next::Begin
    }

    /// Takes in the paths with changes.
    pub fn looked(&mut self, dirty: &Vec<String>) -> (r: Next<String>)
        requires
            old(self).stage is Looking,
        ensures
            (final(self).stage, r@) == after_look(text::texts(dirty@)),
    {
        match dirty_guard(dirty) {
            Some(why) => {
                self.stage = Stage::Ended;
                Next::Refuse { why }
            },
            None => {
                self.stage = Stage::Ready;
                Next::Begin
            },
        }
    }

    fn pick(&mut self, st: &State) -> (r: Next<String>)
        requires
            st.wf(),
        ensures
            (final(self).stage, r@) == picked(report::rows(*st)),
    {
        match st.next() {
            Some(row) => {
                self.stage = Stage::Working;
                Next::Work { slug: row.slug.clone() }
            },
            None => {
                self.stage = Stage::Gating;
                Next::FinalGate
            },
        }
    }

    /// Takes in that the run has begun.
    pub fn begun(&mut self, st: &State) -> (r: Next<String>)
        requires
            old(self).stage is Ready,
            st.wf(),
        ensures
            (final(self).stage, r@) == picked(report::rows(*st)),
    {
        self.pick(st)
    }

    /// Takes in that the component is settled, as the state records it.
    pub fn worked(&mut self, st: &State) -> (r: Next<String>)
        requires
            old(self).stage is Working,
            st.wf(),
        ensures
            (final(self).stage, r@) == picked(report::rows(*st)),
    {
        self.pick(st)
    }

    /// Takes in how the final checks came out; the report is written to the
    /// file `report`.
    pub fn gated(&mut self, st: &State, gate: &RunResult, report: &str) -> (r: Next<String>)
        requires
            old(self).stage is Gating,
            st.wf(),
        ensures
            (final(self).stage, r@) == closing(report::rows(*st), gate@, report@),
    {
        let (phase, words) = run_end(st, gate);
        self.stage = Stage::Ended;
        Next::Close { phase, words, fault: red_gate(gate, report) }
    }
}

proof fn lemma_blocking(dirty: Seq<Seq<char>>)
    ensures
        plan::blocking(dirty).len() == 0 <==> forall|i: int|
            0 <= i < dirty.len() ==> #[trigger] dirty[i] == ".gitignore"@,
    decreases dirty.len(),
{
    if dirty.len() > 0 {
        let front = dirty.drop_last();
        lemma_blocking(front);
        assert(dirty[dirty.len() - 1] == dirty.last());
        if forall|i: int| 0 <= i < dirty.len() ==> #[trigger] dirty[i] == ".gitignore"@ {
            assert forall|i: int| 0 <= i < front.len() implies #[trigger] front[i]
                == ".gitignore"@ by {
                assert(front[i] == dirty[i]);
            }
        }
        if plan::blocking(dirty).len() == 0 {
            assert forall|i: int| 0 <= i < dirty.len() implies #[trigger] dirty[i]
                == ".gitignore"@ by {
                if i < front.len() {
                    assert(front[i] == dirty[i]);
                }
            }
        }
    }
}

/// Changes of the user's are safe: nothing is discarded unless work was
/// interrupted, and a run starts beside changes only where they are those that
/// the harness itself makes to `.gitignore`.
pub proof fn law_user_changes_are_safe(rows: Seq<RowView>, dirty: Seq<Seq<char>>)
    ensures
        opening(rows).1 is Discard <==> plan::interrupted(rows),
        after_look(dirty).1 is Begin <==> forall|i: int|
            0 <= i < dirty.len() ==> #[trigger] dirty[i] == ".gitignore"@,
{
    lemma_blocking(dirty);
}

/// The final checks are run only where no component is pending, and a component
/// that is worked on is a pending one.
pub proof fn law_all_pending_work_is_done_first(rows: Seq<RowView>)
    ensures
        picked(rows).1 is FinalGate <==> forall|i: int|
            0 <= i < rows.len() ==> !((#[trigger] rows[i]).phase is Pending),
        picked(rows).1 matches Next::Work { slug } ==> exists|i: int|
            0 <= i < rows.len() && (#[trigger] rows[i]).phase is Pending && rows[i].slug == slug,
{
    state::law_next_is_the_first_pending(rows);
    if let Some(row) = state::next_row(rows) {
        let i = choose|i: int| 0 <= i < rows.len() && rows[i] == row;
        assert(rows[i].phase is Pending && rows[i].slug == row.slug);
    }
}

/// A run fails exactly where the final checks are red, and its timeline says
/// done only where they are green and no component is parked.
pub proof fn law_red_checks_fail_the_run(rows: Seq<RowView>, gate: RunView, report: Seq<char>)
    ensures
        closing(rows, gate, report).1 matches Next::Close { phase, words, fault } && {
            &&& fault is Some <==> !gate.passed
            &&& phase is Done <==> gate.passed && report::items(rows, Listing::Failed).len() == 0
        },
{
}

/// A run that does not start names the changes that stop it: all that were
/// found but `.gitignore`.
pub proof fn law_refused_runs_say_why(dirty: Seq<Seq<char>>)
    ensures
        after_look(dirty).1 matches Next::Refuse { why } ==> why == plan::dirty_text(
            dirty.filter(|p: Seq<char>| p != ".gitignore"@),
        ),
        after_look(dirty).1 is Refuse || after_look(dirty).1 is Begin,
        after_look(dirty).0 is Ready <==> after_look(dirty).1 is Begin,
        after_look(dirty).0 is Ended <==> after_look(dirty).1 is Refuse,
{
    plan::law_every_change_stops_a_run(dirty);
}

/// A run opens with a look at the changes, or by discarding what an interrupted
/// fixer left behind.
pub proof fn law_opening_of_a_run(rows: Seq<RowView>)
    ensures
        (exists|i: int| 0 <= i < rows.len() && (#[trigger] rows[i]).phase.active()) ==> opening(
            rows,
        ) == (Stage::Discarding, Next::<Seq<char>>::Discard),
        (forall|i: int| 0 <= i < rows.len() ==> !(#[trigger] rows[i]).phase.active()) ==> opening(
            rows,
        ) == (Stage::Looking, Next::<Seq<char>>::Look),
{
}

/// The component that is worked on next is the pending one of the strongest tier
/// and among those the one with the first slug.
pub proof fn law_next_component_of_a_run(rows: Seq<RowView>, i: int)
    requires
        0 <= i < rows.len(),
        rows[i].phase is Pending,
    ensures
        picked(rows).0 is Working,
        picked(rows).1 matches Next::Work { slug } && exists|k: int|
            0 <= k < rows.len() && (#[trigger] rows[k]).slug == slug && rows[k].phase is Pending && (
            rows[i].tier == "high"@ ==> rows[k].tier == "high"@) && (rows[i].tier == rows[k].tier
                ==> !text::before(rows[i].slug, slug)),
{
    state::law_next_is_the_first_pending(rows);
    state::law_high_tiers_come_first(rows, i);
    let row = state::next_row(rows)->Some_0;
    let k = choose|k: int| 0 <= k < rows.len() && rows[k] == row;
    assert(rows[k].slug == row.slug);
}

/// A run closes with what it came to.
pub proof fn law_closing_of_a_run(rows: Seq<RowView>, gate: RunView, report: Seq<char>)
    ensures
        closing(rows, gate, report).0 is Ended,
        closing(rows, gate, report).1 matches Next::Close { phase, words, fault } && {
            &&& words == report::end_text(report::items(rows, Listing::Failed).len() > 0, gate)
            &&& fault matches Some(f) ==> f == report::red_text(gate, report)
            &&& !(phase is Done) ==> phase is Failed
        },
{
}

} // verus!
