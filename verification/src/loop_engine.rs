//! The main loop: review a component once, fix that work order, verify, commit
//! on green. Confirmation only asks whether those findings are still open; a
//! later red check restores the last green commit instead of wiping the
//! component.

use vstd::prelude::*;
use crate::json;
use crate::json::JsonView;
use crate::number;
use crate::number::to_decimal;
use crate::state;
use crate::state::{transition, Phase, RowView, State, StateError};
use crate::text;
use crate::text::{
    copied, contains_char, extend, join, member, owned, replace, same, strip_prefix, trim, CharSet,
    Draft,
};
use crate::verify;
use crate::verify::{tail_bytes, RunResult, RunView};

pub use crate::plan::{init, requeue};
pub use crate::report::{history, list};

verus! {

/// How many times the fixer is sent before a component is quarantined.
pub const MAX_FIX_CYCLES: usize = 3;

/// How many bytes of a check's output are kept in the detail of a component.
pub const DETAIL_TAIL: usize = 1024;

// ---------------------------------------------------------------------
// Verdicts
// ---------------------------------------------------------------------

/// The verdict on a change, with the cause of a failure as it was classified.
#[derive(Debug)]
pub struct VerifyVerdict {
    pub passed: bool,
    pub cause: Option<String>,
    pub diagnostics: Option<String>,
}

/// The contents of a [`VerifyVerdict`].
pub struct VerdictView {
    pub passed: bool,
    pub cause: Option<Seq<char>>,
    pub diagnostics: Option<Seq<char>>,
}

impl View for VerifyVerdict {
    type V = VerdictView;

    open spec fn view(&self) -> VerdictView {
        VerdictView {
            passed: self.passed,
            cause: text::opt(self.cause),
            diagnostics: text::opt(self.diagnostics),
        }
    }
}

// ---------------------------------------------------------------------
// Work on one component
// ---------------------------------------------------------------------

/// What is awaited of the work on a component.
#[derive(Debug, Clone, Copy, PartialEq, Eq, Structural)]
pub enum Step {
    Review,
    Fix,
    Verify,
    Gate,
    Commit,
    Confirm,
    End,
}

impl Step {
    /// The phase in which the component is recorded while the step is awaited.
    pub open spec fn phase(self) -> Phase {
        match self {
            Step::Review => Phase::Reviewing,
            Step::Fix => Phase::Fixing,
            _ => Phase::Verifying,
        }
    }

    fn recorded(self) -> (r: Phase)
        ensures
            r == self.phase(),
    {
        match self {
            Step::Review => Phase::Reviewing,
            Step::Fix => Phase::Fixing,
            _ => Phase::Verifying,
        }
    }
}

/// What is to be done next. `T` is the type of texts.
#[derive(Debug)]
pub enum Action<T> {
    /// Run the fixer on the work order.
    Fix,
    /// Run the checks.
    Verify,
    /// Look which files of the checks the fixer has touched.
    CheckGate,
    /// Commit what the fixer has changed.
    Commit,
    /// Ask which findings of the work order are still open.
    Confirm,
    /// The review found nothing: the component is done.
    Clean,
    /// Keep the last green commit and finish the component.
    Finish,
    /// Discard the changes and park the component.
    Quarantine { why: T },
}

impl View for Action<String> {
    type V = Action<Seq<char>>;

    open spec fn view(&self) -> Action<Seq<char>> {
        match *self {
            Action::Fix => Action::Fix,
            Action::Verify => Action::Verify,
            Action::CheckGate => Action::CheckGate,
            Action::Commit => Action::Commit,
            Action::Confirm => Action::Confirm,
            Action::Clean => Action::Clean,
            Action::Finish => Action::Finish,
            Action::Quarantine { why } => Action::Quarantine { why: why@ },
        }
    }
}

/// How far the work on a component is.
pub struct RunModel {
    pub slug: Seq<char>,
    pub step: Step,
    pub findings: Seq<Seq<char>>,
    pub work_order: Seq<Seq<char>>,
    pub cycles: nat,
    pub last_verify_ok: bool,
    pub committed_once: bool,
    pub last_hash: Seq<char>,
    pub env_parked: bool,
}

/// What a step leads to: the work, the row of the component, and what is to be
/// done next.
pub struct Turn {
    pub run: RunModel,
    pub row: RowView,
    pub action: Action<Seq<char>>,
}

/// Why a component is parked at the end of its cycles.
pub open spec fn unresolved_text(r: RunModel) -> Seq<char> {
    if r.env_parked {
        "verify failed for environmental reasons (not counted as a fix cycle)"@
    } else if r.findings.len() == 0 {
        "fix cycles exhausted but verify never passed"@
    } else {
        number::decimal(r.findings.len()) + " finding(s) unresolved after "@ + number::decimal(
            r.cycles,
        ) + " fix cycles"@
    }
}

/// After the last cycle: a component that has a green commit, or a green check,
/// is finished; any other is parked.
pub open spec fn verdict(r: RunModel) -> Action<Seq<char>> {
    if r.committed_once || r.last_verify_ok {
        Action::Finish
    } else {
        Action::Quarantine { why: unresolved_text(r) }
    }
}

/// The end of the work on a component.
pub open spec fn concluded(r: RunModel, row: RowView) -> Turn {
    Turn { run: RunModel { step: Step::End, ..r }, row, action: verdict(r) }
}

/// The next cycle, where findings are open and cycles are left.
pub open spec fn next_cycle(r: RunModel, row: RowView) -> Turn {
    if r.findings.len() > 0 && r.cycles < MAX_FIX_CYCLES {
        Turn {
            run: RunModel {
                step: Step::Fix,
                cycles: r.cycles + 1,
                work_order: r.findings,
                ..r
            },
            row: RowView { phase: Phase::Fixing, ..row },
            action: Action::Fix,
        }
    } else {
        concluded(r, row)
    }
}

pub open spec fn parked(r: RunModel, row: RowView, why: Seq<char>) -> Turn {
    Turn { run: RunModel { step: Step::End, ..r }, row, action: Action::Quarantine { why } }
}

/// The work on a component that was just picked.
pub open spec fn picked(slug: Seq<char>) -> RunModel {
    RunModel {
        slug,
        step: Step::Review,
        findings: Seq::empty(),
        work_order: Seq::empty(),
        cycles: 0,
        last_verify_ok: false,
        committed_once: false,
        last_hash: Seq::empty(),
        env_parked: false,
    }
}

/// After the review: its findings, or why it failed.
pub open spec fn after_review(
    r: RunModel,
    row: RowView,
    found: Result<Seq<Seq<char>>, Seq<char>>,
) -> Turn {
    match found {
        Err(e) => parked(r, row, "review failed: "@ + e),
        Ok(findings) => {
            let counted = RowView { findings: findings.len() as usize, ..row };
            if findings.len() == 0 {
                Turn {
                    run: RunModel { step: Step::End, findings, ..r },
                    row: RowView {
                        phase: Phase::Done,
                        detail: "clean review — no findings"@,
                        ..counted
                    },
                    action: Action::Clean,
                }
            } else {
                next_cycle(RunModel { findings, ..r }, counted)
            }
        },
    }
}

/// After the fixer: nothing, or why it failed.
pub open spec fn after_fix(r: RunModel, row: RowView, fault: Option<Seq<char>>) -> Turn {
    match fault {
        Some(e) => parked(
            r,
            row,
            "fix failed in cycle "@ + number::decimal(r.cycles) + ": "@ + e,
        ),
        None => Turn {
            run: RunModel { step: Step::Verify, ..r },
            row: RowView { phase: Phase::Verifying, ..row },
            action: Action::Verify,
        },
    }
}

pub open spec fn cause_of(v: VerdictView) -> Seq<char> {
    match v.cause {
        Some(c) => c,
        None => "fix"@,
    }
}

pub open spec fn tail_in(v: VerdictView) -> Seq<char> {
    match v.diagnostics {
        Some(d) => verify::tail_of(d, DETAIL_TAIL as nat),
        None => Seq::empty(),
    }
}

/// The finding that a failed check adds to the work order.
pub open spec fn check_finding(v: VerdictView) -> Seq<char> {
    "VERIFY FAILED (cause: "@ + cause_of(v) + "). Diagnostics from the failed check:\n"@ + tail_in(
        v,
    )
}

/// After the checks. A failure of the environment ends the cycles; any other
/// sends the fixer again, with the failure in front of the work order.
pub open spec fn after_verify(r: RunModel, row: RowView, v: VerdictView) -> Turn {
    if v.passed {
        Turn { run: RunModel { step: Step::Gate, ..r }, row, action: Action::CheckGate }
    } else if cause_of(v) == "environmental"@ {
        concluded(
            RunModel { last_verify_ok: false, env_parked: true, ..r },
            RowView {
                detail: "verify environmental after cycle "@ + number::decimal(r.cycles) + "\n"@
                    + tail_in(v),
                ..row
            },
        )
    } else {
        let findings = seq![check_finding(v)] + r.work_order;
        next_cycle(
            RunModel { last_verify_ok: false, findings, ..r },
            RowView {
                findings: findings.len() as usize,
                detail: "verify fail cycle "@ + number::decimal(r.cycles) + " (cause: "@ + cause_of(
                    v,
                ) + ")\n"@ + tail_in(v),
                ..row
            },
        )
    }
}

/// The changed paths that the checks depend on.
pub open spec fn tampered(gates: Seq<Seq<char>>, dirty: Seq<Seq<char>>) -> Seq<Seq<char>>
    decreases dirty.len(),
{
    if dirty.len() == 0 {
        Seq::empty()
    } else if gates.contains(dirty.last()) {
        tampered(gates, dirty.drop_last()).push(dirty.last())
    } else {
        tampered(gates, dirty.drop_last())
    }
}

pub open spec fn tamper_text(paths: Seq<Seq<char>>) -> Seq<char> {
    "fixer modified verify gate file(s): "@ + text::joined(paths, ", "@)
        + " — refusing to commit a green result produced by a gate the agent changed"@
}

/// After a green check and a look at what was changed. A green result of a gate
/// that the fixer has changed is worth nothing.
pub open spec fn after_gate(
    r: RunModel,
    row: RowView,
    gates: Seq<Seq<char>>,
    dirty: Seq<Seq<char>>,
) -> Turn {
    if tampered(gates, dirty).len() > 0 {
        parked(r, row, tamper_text(tampered(gates, dirty)))
    } else {
        Turn {
            run: RunModel { step: Step::Commit, last_verify_ok: true, ..r },
            row,
            action: Action::Commit,
        }
    }
}

/// After the commit: its short hash, or nothing where there was nothing to
/// commit, or why it failed.
pub open spec fn after_commit(
    r: RunModel,
    row: RowView,
    made: Result<Option<Seq<char>>, Seq<char>>,
) -> Turn {
    match made {
        Err(e) => parked(r, row, "verify passed but commit failed: "@ + e),
        Ok(hash) => Turn {
            run: RunModel {
                step: Step::Confirm,
                committed_once: true,
                last_hash: match hash {
                    Some(h) => h,
                    None => r.last_hash,
                },
                ..r
            },
            row,
            action: Action::Confirm,
        },
    }
}

/// A hash behind a blank, or nothing.
pub open spec fn behind_blank(hash: Seq<char>) -> Seq<char> {
    if hash.len() == 0 {
        Seq::empty()
    } else {
        " "@ + hash
    }
}

/// After the confirmation: the findings that are still open. Where it failed the
/// whole work order counts as open.
pub open spec fn after_confirm(r: RunModel, row: RowView, still: Option<Seq<Seq<char>>>) -> Turn {
    let open = match still {
        Some(l) => l,
        None => r.work_order,
    };
    let counted = RowView { findings: open.len() as usize, ..row };
    next_cycle(
        RunModel { findings: open, ..r },
        if open.len() == 0 {
            counted
        } else {
            RowView {
                detail: "committed"@ + behind_blank(r.last_hash) + "; "@ + number::decimal(
                    open.len(),
                ) + " still open after confirm"@,
                ..counted
            }
        },
    )
}

/// What the timeline says when the fixer is sent.
pub open spec fn cycle_text(r: RunModel) -> Seq<char> {
    "fix cycle "@ + number::decimal(r.cycles) + "/"@ + number::decimal(MAX_FIX_CYCLES as nat)
        + " — "@ + number::decimal(r.findings.len()) + " finding(s)"@
}

/// The detail of a component that is finished.
pub open spec fn done_text(r: RunModel) -> Seq<char> {
    if r.findings.len() == 0 {
        if r.last_hash.len() == 0 {
            "fixed + verified"@
        } else {
            "fixed + committed "@ + r.last_hash
        }
    } else {
        "kept last green"@ + behind_blank(r.last_hash) + "; "@ + number::decimal(r.findings.len())
            + (if r.env_parked {
            " still open (environmental verify)"@
        } else {
            " still open after confirm"@
        })
    }
}

/// The row of a component that is finished.
pub open spec fn done_row(r: RunModel, row: RowView) -> RowView {
    RowView {
        phase: Phase::Done,
        findings: r.findings.len() as usize,
        detail: done_text(r),
        commit: if r.last_hash.len() == 0 {
            None
        } else {
            Some(r.last_hash)
        },
        ..row
    }
}

/// The row of a component that is parked.
pub open spec fn parked_row(row: RowView, why: Seq<char>) -> RowView {
    RowView { phase: Phase::Failed, detail: why, ..row }
}

/// The work on a component. Each method takes in how what was to be done ended,
/// records it in the state, and says what is to be done next.
#[derive(Debug)]
pub struct ComponentRun {
    pub slug: String,
    pub step: Step,
    pub findings: Vec<String>,
    pub work_order: Vec<String>,
    pub cycles: usize,
    pub last_verify_ok: bool,
    pub committed_once: bool,
    pub last_hash: String,
    pub env_parked: bool,
}

impl View for ComponentRun {
    type V = RunModel;

    open spec fn view(&self) -> RunModel {
        RunModel {
            slug: self.slug@,
            step: self.step,
            findings: text::texts(self.findings@),
            work_order: text::texts(self.work_order@),
            cycles: self.cycles as nat,
            last_verify_ok: self.last_verify_ok,
            committed_once: self.committed_once,
            last_hash: self.last_hash@,
            env_parked: self.env_parked,
        }
    }
}

/// The component has a row, in the phase that belongs to the step.
pub open spec fn in_step(r: RunModel, st: State, step: Step) -> bool {
    &&& st.wf()
    &&& r.step == step
    &&& r.cycles <= MAX_FIX_CYCLES
    &&& st.components@.dom().contains(r.slug)
    &&& st.components@[r.slug].phase == step.phase()
}

/// What a method leaves behind: the work and the row of the component as the
/// turn says, and every other row as it was.
pub open spec fn turned(
    t: Turn,
    was: State,
    run: RunModel,
    now: State,
    action: Action<String>,
) -> bool {
    &&& run == t.run
    &&& action@ == t.action
    &&& now.wf()
    &&& now.components@ == was.components@.insert(run.slug, t.row)
}

/// Changes the row of a component; the change is one of the state's own.
fn set_row(
    st: &mut State,
    slug: &str,
    phase: Option<Phase>,
    findings: Option<usize>,
    detail: Option<&str>,
)
    requires
        old(st).wf(),
        old(st).components@.dom().contains(slug@),
        phase is Some ==> state::may_follow(old(st).components@[slug@].phase, phase->Some_0),
    ensures
        final(st).wf(),
        final(st).components@ == old(st).components@.insert(
            slug@,
            RowView {
                phase: match phase {
                    Some(p) => p,
                    None => old(st).components@[slug@].phase,
                },
                findings: match findings {
                    Some(n) => n,
                    None => old(st).components@[slug@].findings,
                },
                detail: match detail {
                    Some(d) => d@,
                    None => old(st).components@[slug@].detail,
                },
                ..old(st).components@[slug@]
            },
        ),
{
    let ghost start = st.components@;
    let ghost row = start[slug@];
    if let Some(n) = findings {
        let _ = st.set_findings(slug, n);
    }
    let ghost one = st.components@;
    assert(one =~= start.insert(
        slug@,
        RowView {
            findings: match findings {
                Some(n) => n,
                None => row.findings,
            },
            ..row
        },
    ));
    if let Some(d) = detail {
        let _ = st.set_detail(slug, d);
    }
    let ghost two = st.components@;
    assert(two =~= one.insert(
        slug@,
        RowView {
            detail: match detail {
                Some(d) => d@,
                None => row.detail,
            },
            ..one[slug@]
        },
    ));
    if let Some(p) = phase {
        let _ = transition(st, slug, p);
    }
    assert(st.components@ =~= start.insert(
        slug@,
        RowView {
            phase: match phase {
                Some(p) => p,
                None => row.phase,
            },
            findings: match findings {
                Some(n) => n,
                None => row.findings,
            },
            detail: match detail {
                Some(d) => d@,
                None => row.detail,
            },
            ..row
        },
    ));
}

fn find_tampered(gates: &Vec<String>, dirty: &Vec<String>) -> (r: Vec<String>)
    ensures
        text::texts(r@) == tampered(text::texts(gates@), text::texts(dirty@)),
{
    let ghost all = text::texts(dirty@);
    let mut out: Vec<String> = Vec::new();
    let mut i: usize = 0;
    assert(all.take(0) =~= Seq::empty());
    assert(text::texts(out@) =~= Seq::empty());
    while i < dirty.len()
        invariant
            i <= dirty.len(),
            all == text::texts(dirty@),
            text::texts(out@) == tampered(text::texts(gates@), all.take(i as int)),
        decreases dirty.len() - i,
    {
        assert(all.take(i + 1).drop_last() =~= all.take(i as int));
        assert(all[i as int] == dirty@[i as int]@);
        let p = dirty[i].as_str();
        if member(gates, p) {
            let ghost was = text::texts(out@);
            out.push(owned(p));
            assert(text::texts(out@) =~= was.push(p@));
        }
        i = i + 1;
    }
    assert(all.take(all.len() as int) =~= all);
    out
}

impl ComponentRun {
    /// Starts the work on a component: it is under review from now on.
    pub fn start(st: &mut State, slug: &str) -> (r: Result<ComponentRun, StateError<String>>)
        requires
            old(st).wf(),
        ensures
            final(st).wf(),
            match r {
                Ok(run) => {
                    &&& run@ == picked(slug@)
                    &&& state::transited(old(st).components@, slug@, Phase::Reviewing) == Ok::<
                        Map<Seq<char>, RowView>,
                        StateError<Seq<char>>,
                    >(final(st).components@)
                    &&& in_step(run@, *final(st), Step::Review)
                },
                Err(e) => {
                    &&& state::transited(old(st).components@, slug@, Phase::Reviewing) == Err::<
                        Map<Seq<char>, RowView>,
                        StateError<Seq<char>>,
                    >(e@)
                    &&& final(st).components@ == old(st).components@
                },
            },
    {
        match transition(st, slug, Phase::Reviewing) {
            Err(e) => Err(e),
            Ok(_) => {
                let run = ComponentRun {
                    slug: owned(slug),
                    step: Step::Review,
                    findings: Vec::new(),
                    work_order: Vec::new(),
                    cycles: 0,
                    last_verify_ok: false,
                    committed_once: false,
                    last_hash: String::new(),
                    env_parked: false,
                };
                assert(text::texts(run.findings@) =~= Seq::empty());
                assert(text::texts(run.work_order@) =~= Seq::empty());
                assert(run.last_hash@ =~= Seq::empty());
                Ok(run)
            },
        }
    }

    /// Whether the state still records the component as the step has it.
    pub fn ready(&self, st: &State, step: Step) -> (r: bool)
        requires
            st.wf(),
        ensures
            r == in_step(self@, *st, step),
    {
        if self.step != step || self.cycles > MAX_FIX_CYCLES {
            return false;
        }
        match st.get(self.slug.as_str()) {
            Some(row) => row.phase == step.recorded(),
            None => false,
        }
    }

    fn unresolved(&self) -> (r: String)
        ensures
            r@ == unresolved_text(self@),
    {
        assert(text::texts(self.findings@).len() == self.findings@.len());
        if self.env_parked {
            owned("verify failed for environmental reasons (not counted as a fix cycle)")
        } else if self.findings.len() == 0 {
            owned("fix cycles exhausted but verify never passed")
        } else {
            Draft::of(to_decimal(self.findings.len() as u64).as_str()).put(
                " finding(s) unresolved after ",
            ).put(to_decimal(self.cycles as u64).as_str()).put(" fix cycles").text
        }
    }

    fn conclude(&mut self) -> (r: Action<String>)
        ensures
            final(self)@ == (RunModel { step: Step::End, ..old(self)@ }),
            r@ == verdict(old(self)@),
    {
        let action: Action<String> = if self.committed_once || self.last_verify_ok {
            Action::Finish
        } else {
            Action::Quarantine { why: self.unresolved() }
        };
        self.step = Step::End;
        action
    }

    fn cycle(&mut self, st: &mut State) -> (r: Action<String>)
        requires
            old(st).wf(),
            old(self).cycles <= MAX_FIX_CYCLES,
            old(st).components@.dom().contains(old(self).slug@),
            state::may_follow(old(st).components@[old(self).slug@].phase, Phase::Fixing),
        ensures
            turned(
                next_cycle(old(self)@, old(st).components@[old(self).slug@]),
                *old(st),
                final(self)@,
                *final(st),
                r,
            ),
    {
        let ghost row = st.components@[self.slug@];
        assert(text::texts(self.findings@).len() == self.findings@.len());
        if self.findings.len() > 0 && self.cycles < MAX_FIX_CYCLES {
            self.cycles = self.cycles + 1;
            self.work_order = copied(&self.findings);
            self.step = Step::Fix;
            set_row(st, self.slug.as_str(), Some(Phase::Fixing), None, None);
            Action::Fix
        } else {
            assert(st.components@ =~= st.components@.insert(self.slug@, row));
            self.conclude()
        }
    }

    fn park(&mut self, why: String) -> (r: Action<String>)
        ensures
            final(self)@ == (RunModel { step: Step::End, ..old(self)@ }),
            r@ == (Action::<Seq<char>>::Quarantine { why: why@ }),
    {
        self.step = Step::End;
        Action::Quarantine { why }
    }

    /// Takes in the findings of the review, or why it failed.
    pub fn reviewed(&mut self, st: &mut State, found: Result<Vec<String>, String>) -> (r: Action<
        String,
    >)
        requires
            in_step(old(self)@, *old(st), Step::Review),
        ensures
            turned(
                after_review(
                    old(self)@,
                    old(st).components@[old(self).slug@],
                    match found {
                        Ok(l) => Ok(text::texts(l@)),
                        Err(e) => Err(e@),
                    },
                ),
                *old(st),
                final(self)@,
                *final(st),
                r,
            ),
    {
        let ghost row = st.components@[self.slug@];
        let ghost start = st.components@;
        match found {
            Err(e) => {
                assert(start =~= start.insert(self.slug@, row));
                self.park(Draft::of("review failed: ").put(e.as_str()).text)
            },
            Ok(l) => {
                let n: usize = l.len();
                assert(text::texts(l@).len() == n);
                self.findings = l;
                if n == 0 {
                    set_row(
                        st,
                        self.slug.as_str(),
                        Some(Phase::Done),
                        Some(n),
                        Some("clean review — no findings"),
                    );
                    self.step = Step::End;
                    Action::Clean
                } else {
                    set_row(st, self.slug.as_str(), None, Some(n), None);
                    let action = self.cycle(st);
                    assert(st.components@ =~= start.insert(self.slug@, st.components@[self.slug@]));
                    action
                }
            },
        }
    }

    /// Takes in that the fixer has ended, and why where it failed.
    pub fn fixed(&mut self, st: &mut State, fault: Option<String>) -> (r: Action<String>)
        requires
            in_step(old(self)@, *old(st), Step::Fix),
        ensures
            turned(
                after_fix(old(self)@, old(st).components@[old(self).slug@], text::opt(fault)),
                *old(st),
                final(self)@,
                *final(st),
                r,
            ),
    {
        let ghost row = st.components@[self.slug@];
        match fault {
            Some(e) => {
                assert(st.components@ =~= st.components@.insert(self.slug@, row));
                let why = Draft::of("fix failed in cycle ").put(
                    to_decimal(self.cycles as u64).as_str(),
                ).put(": ").put(e.as_str()).text;
                self.park(why)
            },
            None => {
                set_row(st, self.slug.as_str(), Some(Phase::Verifying), None, None);
                self.step = Step::Verify;
                Action::Verify
            },
        }
    }

    /// Takes in the verdict of the checks.
    pub fn verified(&mut self, st: &mut State, v: &VerifyVerdict) -> (r: Action<String>)
        requires
            in_step(old(self)@, *old(st), Step::Verify),
        ensures
            turned(
                after_verify(old(self)@, old(st).components@[old(self).slug@], v@),
                *old(st),
                final(self)@,
                *final(st),
                r,
            ),
    {
        let ghost row = st.components@[self.slug@];
        let ghost start = st.components@;
        if v.passed {
            assert(start =~= start.insert(self.slug@, row));
            self.step = Step::Gate;
            return Action::CheckGate;
        }
        self.last_verify_ok = false;
        let cause: &str = match &v.cause {
            Some(c) => c.as_str(),
            None => "fix",
        };
        let tail: &str = match &v.diagnostics {
            Some(d) => tail_bytes(d.as_str(), DETAIL_TAIL),
            None => "",
        };
        proof {
            reveal_strlit("");
            assert(v.diagnostics is None ==> tail@ =~= Seq::empty());
        }
        assert(cause@ == cause_of(v@));
        assert(tail@ == tail_in(v@));
        if same(cause, "environmental") {
            self.env_parked = true;
            let detail = Draft::of("verify environmental after cycle ").put(
                to_decimal(self.cycles as u64).as_str(),
            ).put("\n").put(tail).text;
            set_row(st, self.slug.as_str(), None, None, Some(detail.as_str()));
            return self.conclude();
        }
        let mut next: Vec<String> = Vec::new();
        next.push(
            Draft::of("VERIFY FAILED (cause: ").put(cause).put(
                "). Diagnostics from the failed check:\n",
            ).put(tail).text,
        );
        assert(text::texts(next@) =~= seq![check_finding(v@)]);
        extend(&mut next, copied(&self.work_order));
        assert(text::texts(next@) == seq![check_finding(v@)] + text::texts(self.work_order@));
        assert(text::texts(next@).len() == next@.len());
        let n: usize = next.len();
        self.findings = next;
        let detail = Draft::of("verify fail cycle ").put(to_decimal(self.cycles as u64).as_str()).put(
            " (cause: ",
        ).put(cause).put(")\n").put(tail).text;
        set_row(st, self.slug.as_str(), None, Some(n), Some(detail.as_str()));
        let action = self.cycle(st);
        assert(st.components@ =~= start.insert(self.slug@, st.components@[self.slug@]));
        action
    }

    /// Takes in the files of the checks and the paths that the fixer has changed.
    pub fn gate_checked(&mut self, st: &mut State, gates: &Vec<String>, dirty: &Vec<String>) -> (r:
        Action<String>)
        requires
            in_step(old(self)@, *old(st), Step::Gate),
        ensures
            turned(
                after_gate(
                    old(self)@,
                    old(st).components@[old(self).slug@],
                    text::texts(gates@),
                    text::texts(dirty@),
                ),
                *old(st),
                final(self)@,
                *final(st),
                r,
            ),
    {
        let ghost row = st.components@[self.slug@];
        assert(st.components@ =~= st.components@.insert(self.slug@, row));
        let touched = find_tampered(gates, dirty);
        assert(text::texts(touched@).len() == touched@.len());
        if touched.len() > 0 {
            let why = Draft::of("fixer modified verify gate file(s): ").put(
                join(&touched, ", ").as_str(),
            ).put(
                " — refusing to commit a green result produced by a gate the agent changed",
            ).text;
            self.park(why)
        } else {
            self.last_verify_ok = true;
            self.step = Step::Commit;
            Action::Commit
        }
    }

    /// Takes in the commit: its short hash, nothing where there was nothing to
    /// commit, or why it failed.
    pub fn committed(&mut self, st: &mut State, made: Result<Option<String>, String>) -> (r: Action<
        String,
    >)
        requires
            in_step(old(self)@, *old(st), Step::Commit),
        ensures
            turned(
                after_commit(
                    old(self)@,
                    old(st).components@[old(self).slug@],
                    match made {
                        Ok(h) => Ok(text::opt(h)),
                        Err(e) => Err(e@),
                    },
                ),
                *old(st),
                final(self)@,
                *final(st),
                r,
            ),
    {
        let ghost row = st.components@[self.slug@];
        assert(st.components@ =~= st.components@.insert(self.slug@, row));
        match made {
            Err(e) => self.park(
                Draft::of("verify passed but commit failed: ").put(e.as_str()).text,
            ),
            Ok(hash) => {
                self.committed_once = true;
                if let Some(h) = hash {
                    self.last_hash = h;
                }
                self.step = Step::Confirm;
                Action::Confirm
            },
        }
    }

    /// Takes in the findings that are still open; nothing where the confirmation
    /// failed.
    pub fn confirmed(&mut self, st: &mut State, still: Option<Vec<String>>) -> (r: Action<String>)
        requires
            in_step(old(self)@, *old(st), Step::Confirm),
        ensures
            turned(
                after_confirm(
                    old(self)@,
                    old(st).components@[old(self).slug@],
                    match still {
                        Some(l) => Some(text::texts(l@)),
                        None => None,
                    },
                ),
                *old(st),
                final(self)@,
                *final(st),
                r,
            ),
    {
        let ghost start = st.components@;
        let open: Vec<String> = match still {
            Some(l) => l,
            None => copied(&self.work_order),
        };
        let n: usize = open.len();
        assert(text::texts(open@).len() == n);
        self.findings = open;
        if n == 0 {
            set_row(st, self.slug.as_str(), None, Some(n), None);
        } else {
            let hash: String = shown_hash(self.last_hash.as_str());
            let detail = Draft::of("committed").put(hash.as_str()).put("; ").put(
                to_decimal(n as u64).as_str(),
            ).put(" still open after confirm").text;
            set_row(st, self.slug.as_str(), None, Some(n), Some(detail.as_str()));
        }
        let action = self.cycle(st);
        assert(st.components@ =~= start.insert(self.slug@, st.components@[self.slug@]));
        action
    }

    /// What the timeline says when the fixer is sent.
    pub fn cycle_note(&self) -> (r: String)
        ensures
            r@ == cycle_text(self@),
    {
        assert(text::texts(self.findings@).len() == self.findings@.len());
        Draft::of("fix cycle ").put(to_decimal(self.cycles as u64).as_str()).put("/").put(
            to_decimal(MAX_FIX_CYCLES as u64).as_str(),
        ).put(" — ").put(to_decimal(self.findings.len() as u64).as_str()).put(" finding(s)").text
    }

    /// Whether the worktree must go back to the last green commit before the
    /// component is finished.
    pub fn must_reset(&self) -> (r: bool)
        ensures
            r == !self.last_verify_ok,
    {
        !self.last_verify_ok
    }

    /// Records the component as finished; the result is its detail.
    pub fn finish_done(&self, st: &mut State) -> (r: String)
        requires
            in_step(self@, *old(st), self.step),
            self.step.phase() is Verifying,
        ensures
            final(st).wf(),
            final(st).components@ == old(st).components@.insert(
                self.slug@,
                done_row(self@, old(st).components@[self.slug@]),
            ),
            r@ == done_text(self@),
    {
        let ghost start = st.components@;
        let ghost row = start[self.slug@];
        let n: usize = self.findings.len();
        assert(text::texts(self.findings@).len() == n);
        let hash: &str = self.last_hash.as_str();
        let detail: String = if n == 0 {
            if hash.is_empty() {
                owned("fixed + verified")
            } else {
                Draft::of("fixed + committed ").put(hash).text
            }
        } else {
            let end: &str = if self.env_parked {
                " still open (environmental verify)"
            } else {
                " still open after confirm"
            };
            Draft::of("kept last green").put(shown_hash(hash).as_str()).put("; ").put(
                to_decimal(n as u64).as_str(),
            ).put(end).text
        };
        set_row(
            st,
            self.slug.as_str(),
            Some(Phase::Committing),
            Some(n),
            Some(detail.as_str()),
        );
        if let Some(c) = st.components.get_mut(self.slug.as_str()) {
            c.commit = if hash.is_empty() {
                None
            } else {
                Some(owned(hash))
            };
        }
        set_row(st, self.slug.as_str(), Some(Phase::Done), None, None);
        assert(st.components@ =~= start.insert(self.slug@, done_row(self@, row)));
        detail
    }
}

fn shown_hash(hash: &str) -> (r: String)
    ensures
        r@ == behind_blank(hash@),
{
    if hash.is_empty() {
        let none: String = String::new();
        assert(none@ =~= Seq::empty());
        none
    } else {
        Draft::of(" ").put(hash).text
    }
}

/// Records a component as parked.
pub fn quarantine(st: &mut State, slug: &str, why: &str) -> (r: Result<(), StateError<String>>)
    requires
        old(st).wf(),
    ensures
        final(st).wf(),
        match r {
            Ok(_) => {
                &&& old(st).components@.dom().contains(slug@)
                &&& state::may_follow(old(st).components@[slug@].phase, Phase::Failed)
                &&& final(st).components@ == old(st).components@.insert(
                    slug@,
                    parked_row(old(st).components@[slug@], why@),
                )
            },
            Err(e) => {
                ||| !old(st).components@.dom().contains(slug@) && e@ == (StateError::<
                    Seq<char>,
                >::Unknown { slug: slug@ }) && final(st).components@ == old(st).components@
                ||| old(st).components@.dom().contains(slug@) && !state::may_follow(
                    old(st).components@[slug@].phase,
                    Phase::Failed,
                ) && e@ == (StateError::<Seq<char>>::Illegal {
                    slug: slug@,
                    from: old(st).components@[slug@].phase,
                    to: Phase::Failed,
                }) && final(st).components@ == old(st).components@.insert(
                    slug@,
                    RowView { detail: why@, ..old(st).components@[slug@] },
                )
            },
        },
{
    let ghost start = st.components@;
    match st.set_detail(slug, why) {
        Err(e) => {
            return Err(e);
        },
        Ok(_) => {},
    }
    let r = transition(st, slug, Phase::Failed);
    if r.is_ok() {
        assert(st.components@ =~= start.insert(slug@, parked_row(start[slug@], why@)));
    }
    r
}

// ---------------------------------------------------------------------
// Laws of the work on a component
// ---------------------------------------------------------------------

/// How what was to be done ended.
pub enum Told {
    Reviewed(Result<Seq<Seq<char>>, Seq<char>>),
    Fixed(Option<Seq<char>>),
    Verified(VerdictView),
    GateChecked { gates: Seq<Seq<char>>, dirty: Seq<Seq<char>> },
    Committed(Result<Option<Seq<char>>, Seq<char>>),
    Confirmed(Option<Seq<Seq<char>>>),
}

/// `e` is what the step awaits.
pub open spec fn answers(step: Step, e: Told) -> bool {
    match e {
        Told::Reviewed(_) => step is Review,
        Told::Fixed(_) => step is Fix,
        Told::Verified(_) => step is Verify,
        Told::GateChecked { .. } => step is Gate,
        Told::Committed(_) => step is Commit,
        Told::Confirmed(_) => step is Confirm,
    }
}

/// The turn that `e` leads to.
pub open spec fn react(r: RunModel, row: RowView, e: Told) -> Turn {
    match e {
        Told::Reviewed(found) => after_review(r, row, found),
        Told::Fixed(fault) => after_fix(r, row, fault),
        Told::Verified(v) => after_verify(r, row, v),
        Told::GateChecked { gates, dirty } => after_gate(r, row, gates, dirty),
        Told::Committed(made) => after_commit(r, row, made),
        Told::Confirmed(still) => after_confirm(r, row, still),
    }
}

/// A commit is asked for only after a green check and a look at its files that
/// found them untouched.
pub proof fn law_commit_needs_green_and_untouched_gate(r: RunModel, row: RowView, e: Told)
    requires
        answers(r.step, e),
    ensures
        react(r, row, e).action is Commit ==> (e matches Told::GateChecked { gates, dirty }
            && tampered(gates, dirty).len() == 0),
        react(r, row, e).run.step is Gate ==> (e matches Told::Verified(v) && v.passed),
{
}

proof fn lemma_tampered(gates: Seq<Seq<char>>, dirty: Seq<Seq<char>>, p: Seq<char>)
    ensures
        tampered(gates, dirty).contains(p) <==> dirty.contains(p) && gates.contains(p),
    decreases dirty.len(),
{
    if dirty.len() > 0 {
        let front = dirty.drop_last();
        let l = dirty.last();
        let before = tampered(gates, front);
        lemma_tampered(gates, front, p);
        assert(dirty[dirty.len() - 1] == l);
        if front.contains(p) {
            let i = choose|i: int| 0 <= i < front.len() && front[i] == p;
            assert(dirty[i] == p);
        }
        if dirty.contains(p) && p != l {
            let i = choose|i: int| 0 <= i < dirty.len() && dirty[i] == p;
            assert(front[i] == p);
        }
        if before.contains(p) {
            let i = choose|i: int| 0 <= i < before.len() && before[i] == p;
            assert(before.push(l)[i] == p);
        }
        assert(before.push(l)[before.len() as int] == l);
        if before.push(l).contains(p) && p != l {
            let i = choose|i: int| 0 <= i < before.push(l).len() && before.push(l)[i] == p;
            assert(before[i] == p);
        }
    }
}

/// Where the fixer has changed any file of the checks, nothing is committed and
/// the component is parked.
pub proof fn law_tampering_parks(
    r: RunModel,
    row: RowView,
    gates: Seq<Seq<char>>,
    dirty: Seq<Seq<char>>,
    p: Seq<char>,
)
    requires
        gates.contains(p),
        dirty.contains(p),
    ensures
        after_gate(r, row, gates, dirty).action is Quarantine,
{
    lemma_tampered(gates, dirty, p);
    let t = tampered(gates, dirty);
    let i = choose|i: int| 0 <= i < t.len() && t[i] == p;
    assert(t.len() > 0);
}

/// The fixer is sent only so many times.
pub proof fn law_cycles_are_bounded(r: RunModel, row: RowView, e: Told)
    requires
        answers(r.step, e),
        r.cycles <= MAX_FIX_CYCLES,
    ensures
        react(r, row, e).run.cycles <= MAX_FIX_CYCLES,
        react(r, row, e).action is Fix ==> react(r, row, e).run.cycles == r.cycles + 1,
        !(react(r, row, e).action is Fix) ==> react(r, row, e).run.cycles == r.cycles,
{
}

/// The phases that are recorded follow one another as the state allows, and the
/// recorded phase is that of the step that is awaited.
pub proof fn law_recorded_phases_are_legal(r: RunModel, row: RowView, e: Told)
    requires
        answers(r.step, e),
        row.phase == r.step.phase(),
        r.step is Review ==> r == picked(r.slug),
    ensures
        ({
            let t = react(r, row, e);
            &&& t.row.phase == row.phase || state::may_follow(row.phase, t.row.phase)
            &&& !(t.run.step is End) ==> t.row.phase == t.run.step.phase()
            &&& t.action is Quarantine ==> state::may_follow(t.row.phase, Phase::Failed)
            &&& t.action is Finish ==> t.row.phase is Verifying
        }),
{
}

/// How much may still happen before the work ends.
pub open spec fn remaining(r: RunModel) -> int {
    (MAX_FIX_CYCLES - r.cycles) * 5 + (match r.step {
        Step::Review => 6int,
        Step::Fix => 5,
        Step::Verify => 4,
        Step::Gate => 3,
        Step::Commit => 2,
        Step::Confirm => 1,
        Step::End => 0,
    })
}

/// The work on a component comes to an end: every answer brings it nearer.
pub proof fn law_work_ends(r: RunModel, row: RowView, e: Told)
    requires
        answers(r.step, e),
        r.cycles <= MAX_FIX_CYCLES,
    ensures
        0 <= remaining(react(r, row, e).run) < remaining(r),
{
}

/// When the work ends the component is settled: done after a clean review or a
/// finish, parked otherwise.
pub proof fn law_ended_work_is_settled(r: RunModel, row: RowView, e: Told)
    requires
        answers(r.step, e),
        react(r, row, e).run.step is End,
    ensures
        ({
            let t = react(r, row, e);
            &&& t.action is Clean ==> t.row.phase is Done
            &&& t.action is Finish ==> done_row(t.run, t.row).phase is Done
            &&& t.action matches Action::Quarantine { why } ==> parked_row(
                t.row,
                why,
            ).phase is Failed
            &&& t.action is Clean || t.action is Finish || t.action is Quarantine
        }),
{
}

/// The turn after a history of answers.
pub open spec fn played(slug: Seq<char>, row: RowView, es: Seq<Told>) -> (RunModel, RowView)
    decreases es.len(),
{
    if es.len() == 0 {
        (picked(slug), row)
    } else {
        let (r, now) = played(slug, row, es.drop_last());
        let t = react(r, now, es.last());
        (t.run, t.row)
    }
}

/// Each answer of the history was awaited when it came.
pub open spec fn proper(slug: Seq<char>, row: RowView, es: Seq<Told>) -> bool
    decreases es.len(),
{
    es.len() == 0 || (proper(slug, row, es.drop_last()) && answers(
        played(slug, row, es.drop_last()).0.step,
        es.last(),
    ))
}

pub open spec fn green(e: Told) -> bool {
    e matches Told::Verified(v) && v.passed
}

/// A component is finished with its changes kept only where a check was green
/// in the course of the work; without one it is parked.
pub proof fn law_kept_changes_were_green(slug: Seq<char>, row: RowView, es: Seq<Told>)
    requires
        proper(slug, row, es),
    ensures
        ({
            let r = played(slug, row, es).0;
            r.step is Gate || r.committed_once || r.last_verify_ok ==> exists|i: int|
                0 <= i < es.len() && green(#[trigger] es[i])
        }),
    decreases es.len(),
{
    if es.len() > 0 {
        let front = es.drop_last();
        law_kept_changes_were_green(slug, row, front);
        let r = played(slug, row, front).0;
        if r.step is Gate || r.committed_once || r.last_verify_ok {
            let i = choose|i: int| 0 <= i < front.len() && green(#[trigger] front[i]);
            assert(green(es[i]));
        }
        if green(es.last()) {
            assert(green(es[es.len() - 1]));
        }
        lemma_commit_step_follows_green(slug, row, front);
    }
}

proof fn lemma_commit_step_follows_green(slug: Seq<char>, row: RowView, es: Seq<Told>)
    requires
        proper(slug, row, es),
    ensures
        ({
            let r = played(slug, row, es).0;
            &&& r.step is Commit ==> r.last_verify_ok
            &&& r.step is Confirm ==> r.committed_once
        }),
    decreases es.len(),
{
    if es.len() > 0 {
        lemma_commit_step_follows_green(slug, row, es.drop_last());
    }
}

// ---------------------------------------------------------------------
// What agents answer
// ---------------------------------------------------------------------

/// The strings among the values that are not blank, trimmed.
pub open spec fn told(l: Seq<JsonView>) -> Seq<Seq<char>>
    decreases l.len(),
{
    if l.len() == 0 {
        Seq::empty()
    } else {
        let before = told(l.drop_last());
        match l.last().text() {
            Some(s) => if text::trimmed(s).len() > 0 {
                before.push(text::trimmed(s))
            } else {
                before
            },
            None => before,
        }
    }
}

/// The findings in the answer of a review. An answer without a list of findings
/// is itself a finding: an unreadable review is not a clean one.
pub open spec fn findings_in(v: JsonView) -> Seq<Seq<char>> {
    match v.member("findings"@) {
        None => seq!["review result was malformed (missing findings key, expected an array)"@],
        Some(JsonView::List(l)) => told(l),
        Some(JsonView::Text(s)) => if text::trimmed(s).len() > 0 {
            seq![text::trimmed(s)]
        } else {
            seq!["review result was malformed (findings value was null or empty-string, expected an array)"@]
        },
        Some(JsonView::Null) =>
            seq!["review result was malformed (findings value was null or empty-string, expected an array)"@],
        Some(other) => seq![
            "review result was malformed (unexpected findings shape: "@ + json::json_text(other)
                + ")"@,
        ],
    }
}

/// The findings that a confirmation reports as still open. An unreadable answer
/// reopens nothing.
pub open spec fn still_open_in(v: JsonView) -> Seq<Seq<char>> {
    match v.member("still_open"@) {
        Some(JsonView::List(l)) => told(l),
        Some(JsonView::Text(s)) => if text::trimmed(s).len() > 0 {
            seq![text::trimmed(s)]
        } else {
            Seq::empty()
        },
        _ => Seq::empty(),
    }
}

/// The questions in the answer of the report agent.
pub open spec fn questions_in(v: JsonView) -> Seq<Seq<char>> {
    match v.list_member("questions"@) {
        Some(l) => told(l),
        None => Seq::empty(),
    }
}

fn read_told(l: &Vec<serde_json::Value>) -> (r: Vec<String>)
    ensures
        text::texts(r@) == told(json::json_views(l@)),
{
    let ghost all = json::json_views(l@);
    let mut out: Vec<String> = Vec::new();
    let mut i: usize = 0;
    assert(all.take(0) =~= Seq::empty());
    assert(text::texts(out@) =~= Seq::empty());
    while i < l.len()
        invariant
            i <= l.len(),
            all == json::json_views(l@),
            text::texts(out@) == told(all.take(i as int)),
        decreases l.len() - i,
    {
        assert(all.take(i + 1).drop_last() =~= all.take(i as int));
        assert(all.take(i + 1).last() == json::json_view(l@[i as int]));
        if let Some(s) = json::as_str(&l[i]) {
            let cut = trim(s);
            if !cut.is_empty() {
                let ghost was = text::texts(out@);
                out.push(owned(cut));
                assert(text::texts(out@) =~= was.push(cut@));
            }
        }
        i = i + 1;
    }
    assert(all.take(all.len() as int) =~= all);
    out
}

fn one(s: String) -> (r: Vec<String>)
    ensures
        text::texts(r@) == seq![s@],
{
    let ghost v = s@;
    let mut r: Vec<String> = Vec::new();
    r.push(s);
    assert(text::texts(r@) =~= seq![v]);
    r
}

fn none() -> (r: Vec<String>)
    ensures
        text::texts(r@) == Seq::<Seq<char>>::empty(),
{
    let r: Vec<String> = Vec::new();
    assert(text::texts(r@) =~= Seq::empty());
    r
}

/// The findings in the answer of a review.
pub fn parse_findings(result: &serde_json::Value) -> (r: Vec<String>)
    ensures
        text::texts(r@) == findings_in(json::json_view(*result)),
{
    let v: &serde_json::Value = match json::get(result, "findings") {
        None => {
            return one(
                owned("review result was malformed (missing findings key, expected an array)"),
            );
        },
        Some(v) => v,
    };
    if let Some(l) = json::as_array(v) {
        return read_told(l);
    }
    if let Some(s) = json::as_str(v) {
        let cut = trim(s);
        if !cut.is_empty() {
            return one(owned(cut));
        }
        return one(
            owned(
                "review result was malformed (findings value was null or empty-string, expected an array)",
            ),
        );
    }
    if json::is_null(v) {
        return one(
            owned(
                "review result was malformed (findings value was null or empty-string, expected an array)",
            ),
        );
    }
    one(
        Draft::of("review result was malformed (unexpected findings shape: ").put(
            json::to_text(v).as_str(),
        ).put(")").text,
    )
}

/// The findings that a confirmation reports as still open.
pub fn parse_still_open(result: &serde_json::Value) -> (r: Vec<String>)
    ensures
        text::texts(r@) == still_open_in(json::json_view(*result)),
{
    let v: &serde_json::Value = match json::get(result, "still_open") {
        None => {
            return none();
        },
        Some(v) => v,
    };
    if let Some(l) = json::as_array(v) {
        return read_told(l);
    }
    if let Some(s) = json::as_str(v) {
        let cut = trim(s);
        if !cut.is_empty() {
            return one(owned(cut));
        }
    }
    none()
}

/// The questions in the answer of the report agent.
pub fn parse_questions(result: &serde_json::Value) -> (r: Vec<String>)
    ensures
        text::texts(r@) == questions_in(json::json_view(*result)),
{
    match json::list_field(result, "questions") {
        Some(l) => read_told(l),
        None => none(),
    }
}

/// A review is clean only where its answer has a list without a single text
/// that says something.
pub proof fn law_clean_reviews_have_a_list(v: JsonView)
    requires
        findings_in(v).len() == 0,
    ensures
        v.list_member("findings"@) is Some,
        told(v.list_member("findings"@)->Some_0).len() == 0,
{
}

// ---------------------------------------------------------------------
// Checks of one component
// ---------------------------------------------------------------------

/// The commands of the component itself.
pub open spec fn own_commands(st: State, slug: Seq<char>) -> Seq<Seq<char>> {
    if st.components@.dom().contains(slug) {
        st.components@[slug].verify
    } else {
        Seq::empty()
    }
}

/// The commands of the component itself; none means that the repository's are
/// run alone.
pub fn scoped_commands(st: &State, slug: &str) -> (r: Vec<String>)
    requires
        st.wf(),
    ensures
        text::texts(r@) == own_commands(*st, slug@),
{
    match st.get(slug) {
        Some(row) => copied(&row.verify),
        None => none(),
    }
}

/// Whether the repository's commands are run, given how the component's own
/// ended: they are where there are none of its own or those were green, so
/// that they are run at most once.
pub fn needs_full(scoped: Option<bool>) -> (r: bool)
    ensures
        r == (scoped != Some(false)),
{
    match scoped {
        Some(passed) => passed,
        None => true,
    }
}

/// The result that counts: that of the component's own commands, unless the
/// repository's failed or were run alone.
pub open spec fn counting(scoped: Option<RunView>, full: Option<RunView>) -> Option<RunView> {
    match (scoped, full) {
        (Some(s), Some(f)) => if s.passed && !f.passed {
            Some(f)
        } else {
            Some(s)
        },
        (Some(s), None) => Some(s),
        (None, f) => f,
    }
}

pub open spec fn opt_run(r: Option<RunResult>) -> Option<RunView> {
    match r {
        Some(x) => Some(x@),
        None => None,
    }
}

/// The result that counts.
pub fn counting_result(scoped: Option<RunResult>, full: Option<RunResult>) -> (r: Option<RunResult>)
    ensures
        opt_run(r) == counting(opt_run(scoped), opt_run(full)),
{
    match (scoped, full) {
        (Some(s), Some(f)) => if s.passed && !f.passed {
            Some(f)
        } else {
            Some(s)
        },
        (Some(s), None) => Some(s),
        (None, f) => f,
    }
}

/// What is handed to the classifier of a failure.
pub open spec fn diagnostics_of(r: RunView) -> Seq<char> {
    match r.failed_command {
        Some(c) => "command `"@ + c + "` failed\n"@ + r.output,
        None => r.output,
    }
}

/// What is handed to the classifier of a failure.
pub fn diagnostics(r: &RunResult) -> (d: String)
    ensures
        d@ == diagnostics_of(r@),
{
    match &r.failed_command {
        Some(c) => Draft::of("command `").put(c.as_str()).put("` failed\n").put(
            r.output.as_str(),
        ).text,
        None => r.output.clone(),
    }
}

/// The verdict on a failure: as the classifier has it, or, where it did not
/// answer, a fault of the fix.
pub open spec fn classified(answer: Option<JsonView>, diagnostics: Seq<char>) -> VerdictView {
    match answer {
        None => VerdictView {
            passed: false,
            cause: Some("fix"@),
            diagnostics: Some(diagnostics),
        },
        Some(v) => VerdictView {
            passed: false,
            cause: Some(
                match v.text_member("cause"@) {
                    Some(c) => c,
                    None => "fix"@,
                },
            ),
            diagnostics: Some(
                match v.text_member("diagnostics"@) {
                    Some(d) => d,
                    None => diagnostics,
                },
            ),
        },
    }
}

pub open spec fn opt_value(v: Option<&serde_json::Value>) -> Option<JsonView> {
    match v {
        Some(x) => Some(json::json_view(*x)),
        None => None,
    }
}

/// The verdict on a failure.
pub fn classify(answer: Option<&serde_json::Value>, diagnostics: &str) -> (r: VerifyVerdict)
    ensures
        r@ == classified(opt_value(answer), diagnostics@),
{
    let mut cause: &str = "fix";
    let mut told: &str = diagnostics;
    if let Some(v) = answer {
        if let Some(c) = json::field(v, "cause") {
            cause = c;
        }
        if let Some(d) = json::field(v, "diagnostics") {
            told = d;
        }
    }
    VerifyVerdict { passed: false, cause: Some(owned(cause)), diagnostics: Some(owned(told)) }
}

/// The verdict of checks that were green.
pub fn passing() -> (r: VerifyVerdict)
    ensures
        r@ == (VerdictView { passed: true, cause: None, diagnostics: None }),
{
    VerifyVerdict { passed: true, cause: None, diagnostics: None }
}

/// Whether the checks are run a second time: only a failure of the environment
/// is worth that.
pub fn verify_until_stable(first: &VerifyVerdict) -> (r: bool)
    ensures
        r == (!first.passed && first@.cause == Some("environmental"@)),
{
    if first.passed {
        return false;
    }
    match &first.cause {
        Some(c) => same(c.as_str(), "environmental"),
        None => false,
    }
}

/// Whether the checks of a component are run once more, after `runs` runs of
/// which `v` is the last: a failure of the environment gets a second run, and
/// no verdict gets a third.
pub fn check_again(runs: usize, v: &VerifyVerdict) -> (r: bool)
    ensures
        r == (runs == 1 && !v.passed && v@.cause == Some("environmental"@)),
{
    runs == 1 && verify_until_stable(v)
}

/// The message of the commit of a component's fix.
pub open spec fn commit_text(slug: Seq<char>) -> Seq<char> {
    "gaggle("@ + slug + "): fix review findings"@
}

/// The message of the commit of a component's fix.
pub fn commit_message(slug: &str) -> (r: String)
    ensures
        r@ == commit_text(slug@),
{
    Draft::of("gaggle(").put(slug).put("): fix review findings").text
}

// ---------------------------------------------------------------------
// Paths
// ---------------------------------------------------------------------

/// A path below another.
pub open spec fn below(base: Seq<char>, rest: Seq<char>) -> Seq<char> {
    if base.len() == 0 {
        rest
    } else if text::ends(base, "/"@) {
        base + rest
    } else {
        base + "/"@ + rest
    }
}

fn join_path(base: &str, rest: &str) -> (r: String)
    ensures
        r@ == below(base@, rest@),
{
    if base.is_empty() {
        owned(rest)
    } else if text::ends_with(base, "/") {
        Draft::of(base).put(rest).text
    } else {
        Draft::of(base).put("/").put(rest).text
    }
}

/// The places of a repository that the loop works with.
#[derive(Debug)]
pub struct Engine {
    pub repo: String,
    pub review_dir: String,
}

/// A slug as part of a file name: whatever is not a letter, digit or hyphen is
/// an underscore.
pub open spec fn safe_name(slug: Seq<char>) -> Seq<char> {
    if slug.len() == 0 {
        "unknown"@
    } else {
        slug.map_values(
            |c: char|
                if text::is_lower(c) || text::is_digit(c) || c == '-' {
                    c
                } else {
                    '_'
                },
        )
    }
}

fn make_safe(slug: &str) -> (r: String)
    ensures
        r@ == safe_name(slug@),
{
    let x: Vec<char> = text::chars_of(slug);
    if x.len() == 0 {
        return owned("unknown");
    }
    let mut r: String = String::new();
    let mut i: usize = 0;
    let ghost all = safe_name(slug@);
    assert(r@ =~= all.take(0));
    while i < x.len()
        invariant
            i <= x.len(),
            x.len() > 0,
            x@ == slug@,
            all == safe_name(slug@),
            r@ == all.take(i as int),
        decreases x.len() - i,
    {
        let c: char = x[i];
        let d: char = if ('a' <= c && c <= 'z') || ('0' <= c && c <= '9') || c == '-' {
            c
        } else {
            '_'
        };
        r.push(d);
        assert(all[i as int] == d);
        assert(r@ =~= all.take(i + 1));
        i = i + 1;
    }
    assert(all.take(all.len() as int) =~= all);
    r
}

impl Engine {
    /// The places of the repository at `repo`.
    pub fn new(repo: &str) -> (r: Engine)
        ensures
            r.repo@ == repo@,
            r.review_dir@ == below(repo@, crate::REVIEW_DIR@),
    {
        Engine { repo: owned(repo), review_dir: join_path(repo, crate::REVIEW_DIR) }
    }

    /// The state file.
    pub fn state_path(&self) -> (r: String)
        ensures
            r@ == below(self.review_dir@, "state.json"@),
    {
        join_path(self.review_dir.as_str(), "state.json")
    }

    /// The file with the findings of a component.
    pub fn findings_path(&self, slug: &str) -> (r: String)
        ensures
            r@ == below(
                below(self.review_dir@, "findings"@),
                safe_name(slug@) + ".txt"@,
            ),
    {
        let dir = join_path(self.review_dir.as_str(), "findings");
        let name = Draft::of(make_safe(slug).as_str()).put(".txt").text;
        join_path(dir.as_str(), name.as_str())
    }
}

/// The file with the findings of a component lies in the directory for them,
/// whatever the slug: its name has no slash in it.
pub proof fn law_findings_stay_in_their_directory(slug: Seq<char>)
    ensures
        !text::has_char(safe_name(slug) + ".txt"@, CharSet::Slash),
        safe_name(slug).len() > 0,
{
    reveal_strlit("unknown");
    reveal_strlit(".txt");
    let n = safe_name(slug);
    let t = n + ".txt"@;
    assert forall|i: int| 0 <= i < t.len() implies !CharSet::Slash.has(#[trigger] t[i]) by {
        if i < n.len() {
            assert(t[i] == n[i]);
        } else {
            assert(t[i] == ".txt"@[i - n.len()]);
        }
    }
}

/// The modules that a slug `src-<module>` may stand for, in the order in which
/// they are tried.
pub open spec fn modules(slug: Seq<char>) -> Seq<Seq<char>> {
    if !text::begins(slug, "src-"@) {
        Seq::empty()
    } else {
        let rest = slug.skip(4);
        let file = if rest == "loop"@ {
            "loop_engine"@
        } else {
            rest
        };
        if text::has_char(file, CharSet::One('-')) {
            seq![text::replaced(file, CharSet::One('-'), "_"@), file]
        } else {
            seq![file]
        }
    }
}

/// The files and directories that a slug may stand for: of each module the file,
/// then the directory.
pub open spec fn places_of(ms: Seq<Seq<char>>) -> Seq<Seq<char>>
    decreases ms.len(),
{
    if ms.len() == 0 {
        Seq::empty()
    } else {
        places_of(ms.drop_last()).push("src/"@ + ms.last() + ".rs"@).push("src/"@ + ms.last())
    }
}

/// The files and directories, relative to the repository, that a slug may stand
/// for, in the order in which they are tried. Those that end in `.rs` are to be
/// files, the others directories.
pub fn src_places(slug: &str) -> (r: Vec<String>)
    ensures
        text::texts(r@) == places_of(modules(slug@)),
{
    proof {
        reveal_strlit("src-");
    }
    let mut ms: Vec<String> = none();
    let ghost start = text::texts(ms@);
    if let Some(rest) = strip_prefix(slug, "src-") {
        let file: &str = if same(rest, "loop") {
            "loop_engine"
        } else {
            rest
        };
        if contains_char(file, CharSet::One('-')) {
            let plain = replace(file, CharSet::One('-'), "_");
            let ghost p = plain@;
            ms.push(plain);
            ms.push(owned(file));
            assert(text::texts(ms@) =~= start.push(p).push(file@));
            assert(start.push(p).push(file@) =~= seq![p, file@]);
        } else {
            ms.push(owned(file));
            assert(text::texts(ms@) =~= modules(slug@));
        }
    }
    let ghost all = text::texts(ms@);
    assert(all == modules(slug@));
    let mut out: Vec<String> = none();
    let mut i: usize = 0;
    assert(all.take(0) =~= Seq::empty());
    while i < ms.len()
        invariant
            i <= ms.len(),
            all == text::texts(ms@),
            text::texts(out@) == places_of(all.take(i as int)),
        decreases ms.len() - i,
    {
        assert(all.take(i + 1).drop_last() =~= all.take(i as int));
        assert(all.take(i + 1).last() == ms@[i as int]@);
        let m = ms[i].as_str();
        let file = Draft::of("src/").put(m).put(".rs").text;
        let dir = Draft::of("src/").put(m).text;
        let ghost f = file@;
        let ghost d = dir@;
        let ghost was = text::texts(out@);
        out.push(file);
        out.push(dir);
        assert(text::texts(out@) =~= was.push(f).push(d));
        i = i + 1;
    }
    assert(all.take(all.len() as int) =~= all);
    out
}

/// The paths of a component: those that are recorded, or else the one that its
/// slug stands for.
pub open spec fn paths_of(st: State, slug: Seq<char>, resolved: Option<Seq<char>>) -> Seq<
    Seq<char>,
> {
    if st.components@.dom().contains(slug) && st.components@[slug].paths.len() > 0 {
        st.components@[slug].paths
    } else {
        match resolved {
            Some(p) => seq![p],
            None => Seq::empty(),
        }
    }
}

/// The paths of a component; `resolved` is the one that its slug stands for.
pub fn component_paths_vec(st: &State, slug: &str, resolved: Option<&str>) -> (r: Vec<String>)
    requires
        st.wf(),
    ensures
        text::texts(r@) == paths_of(*st, slug@, text::opt_str(resolved)),
{
    if let Some(row) = st.get(slug) {
        assert(text::texts(row.paths@).len() == row.paths@.len());
        if row.paths.len() > 0 {
            return copied(&row.paths);
        }
    }
    match resolved {
        Some(p) => one(owned(p)),
        None => none(),
    }
}

/// The paths of a component on one line.
pub fn component_paths(st: &State, slug: &str, resolved: Option<&str>) -> (r: String)
    requires
        st.wf(),
    ensures
        r@ == text::joined(paths_of(*st, slug@, text::opt_str(resolved)), ", "@),
{
    join(&component_paths_vec(st, slug, resolved), ", ")
}

/// The name of a component; its slug where it has no row.
pub fn component_name(st: &State, slug: &str) -> (r: String)
    requires
        st.wf(),
    ensures
        r@ == (if st.components@.dom().contains(slug@) {
            st.components@[slug@].name
        } else {
            slug@
        }),
{
    match st.get(slug) {
        Some(row) => row.name.clone(),
        None => owned(slug),
    }
}

/// Findings with their numbers.
pub open spec fn numbered(findings: Seq<Seq<char>>) -> Seq<Seq<char>> {
    findings.map(|i: int, f: Seq<char>| number::decimal((i + 1) as nat) + ". "@ + f)
}

/// The file of findings: numbered, with blank lines between them.
pub open spec fn findings_file(findings: Seq<Seq<char>>) -> Seq<char> {
    text::joined(numbered(findings), "\n\n"@)
}

/// The contents of the file of findings; nothing, which removes the file, where
/// there are none. So a file means that something is open.
pub fn write_findings_file(findings: &Vec<String>) -> (r: Option<String>)
    ensures
        text::opt(r) == (if findings@.len() == 0 {
            None
        } else {
            Some(findings_file(text::texts(findings@)))
        }),
{
    if findings.len() == 0 {
        return None;
    }
    let ghost all = numbered(text::texts(findings@));
    let mut out: Vec<String> = none();
    let mut i: usize = 0;
    assert(all.take(0) =~= Seq::empty());
    while i < findings.len()
        invariant
            i <= findings.len(),
            all == numbered(text::texts(findings@)),
            text::texts(out@) == all.take(i as int),
        decreases findings.len() - i,
    {
        assert(text::texts(findings@)[i as int] == findings@[i as int]@);
        let l = Draft::of(to_decimal(i as u64 + 1).as_str()).put(". ").put(
            findings[i].as_str(),
        ).text;
        let ghost v = l@;
        let ghost was = text::texts(out@);
        out.push(l);
        assert(all[i as int] == v);
        assert(text::texts(out@) =~= was.push(v));
        assert(all.take(i as int).push(all[i as int]) =~= all.take(i + 1));
        i = i + 1;
    }
    assert(all.take(all.len() as int) =~= all);
    Some(join(&out, "\n\n"))
}

// ---------------------------------------------------------------------
// Laws of the steps
// ---------------------------------------------------------------------

/// A review decides what is worked on: its findings, all of them and in their
/// order, are the open findings, the recorded count and the first work order;
/// without any the component is done.
pub proof fn law_review_is_the_work_order(r: RunModel, row: RowView, l: Seq<Seq<char>>)
    requires
        r.cycles < 3,
    ensures
        ({
            let t = after_review(r, row, Ok(l));
            &&& t.run.findings == l
            &&& l.len() <= usize::MAX ==> t.row.findings == l.len()
            &&& t.action is Clean <==> l.len() == 0
            &&& t.action is Fix <==> l.len() > 0
            &&& l.len() > 0 ==> t.run.work_order == l && t.run.cycles == r.cycles + 1
                && t.run.step is Fix && t.row.phase is Fixing && t.row.detail == row.detail
            &&& l.len() == 0 ==> t.run.step is End && t.row.phase is Done && t.row.detail
                == "clean review — no findings"@
            &&& t.run.slug == r.slug && t.run.last_hash == r.last_hash && t.run.committed_once
                == r.committed_once && t.run.last_verify_ok == r.last_verify_ok
        }),
{
}

/// A step that failed parks the component and says why, and changes nothing
/// that is recorded: neither the findings nor the row.
pub proof fn law_failed_steps_park(r: RunModel, row: RowView, e: Seq<char>)
    ensures
        ({
            let t = after_review(r, row, Err(e));
            &&& t.action == (Action::Quarantine { why: "review failed: "@ + e })
            &&& t.row == row && t.run.step is End && t.run.findings == r.findings
        }),
        ({
            let t = after_fix(r, row, Some(e));
            &&& t.action == (Action::Quarantine {
                why: "fix failed in cycle "@ + number::decimal(r.cycles) + ": "@ + e,
            })
            &&& t.row == row && t.run.step is End && t.run.findings == r.findings
        }),
        ({
            let t = after_commit(r, row, Err(e));
            &&& t.action == (Action::Quarantine { why: "verify passed but commit failed: "@ + e })
            &&& t.row == row && t.run.step is End && t.run.findings == r.findings
        }),
{
}

/// What the fixer has changed is checked, and nothing else happens.
pub proof fn law_fixes_are_checked(r: RunModel, row: RowView)
    ensures
        ({
            let t = after_fix(r, row, None);
            &&& t.action is Verify
            &&& t.run == (RunModel { step: Step::Verify, ..r })
            &&& t.row == (RowView { phase: Phase::Verifying, ..row })
        }),
{
}

/// A green check leads to a look at the files of the checks, and nothing else
/// happens.
pub proof fn law_green_checks_lead_on(r: RunModel, row: RowView, v: VerdictView)
    requires
        v.passed,
    ensures
        ({
            let t = after_verify(r, row, v);
            &&& t.action is CheckGate
            &&& t.run == (RunModel { step: Step::Gate, ..r })
            &&& t.row == row
        }),
{
}

/// A red check that is not the environment's fault reopens the whole work order
/// with the failure in front: none of its findings is lost, and the fixer is
/// sent again with all of them while cycles are left.
pub proof fn law_red_checks_reopen_the_work(r: RunModel, row: RowView, v: VerdictView)
    requires
        !v.passed,
        v.cause != Some("environmental"@),
        r.cycles <= 3,
        r.work_order.len() < usize::MAX,
    ensures
        ({
            let t = after_verify(r, row, v);
            let open = t.run.findings;
            let cause = if v.cause is Some {
                v.cause->Some_0
            } else {
                "fix"@
            };
            &&& open.len() == r.work_order.len() + 1
            &&& forall|i: int|
                0 <= i < r.work_order.len() ==> open[i + 1] == #[trigger] r.work_order[i]
            &&& v.diagnostics matches Some(d) ==> open[0] == "VERIFY FAILED (cause: "@ + cause
                + "). Diagnostics from the failed check:\n"@ + verify::tail_of(d, 1024)
            &&& v.diagnostics is None ==> open[0] == "VERIFY FAILED (cause: "@ + cause
                + "). Diagnostics from the failed check:\n"@
            &&& t.row.findings == open.len()
            &&& !t.run.last_verify_ok
            &&& t.run.committed_once == r.committed_once && t.run.last_hash == r.last_hash
                && t.run.slug == r.slug && t.run.env_parked == r.env_parked
            &&& t.action is Fix <==> r.cycles < 3
            &&& t.action is Fix ==> t.run.work_order == open && t.run.cycles == r.cycles + 1
                && t.run.step is Fix
            &&& r.cycles == 3 ==> t.run.step is End && (t.action is Finish <==> r.committed_once)
                && (t.action is Quarantine <==> !r.committed_once)
        }),
{
    reveal_strlit("fix");
    reveal_strlit("environmental");
    assert("fix"@.len() != "environmental"@.len());
    let t = after_verify(r, row, v);
    let head = "VERIFY FAILED (cause: "@ + cause_of(v)
        + "). Diagnostics from the failed check:\n"@;
    assert(head + Seq::<char>::empty() =~= head);
    let open = t.run.findings;
    assert forall|i: int| 0 <= i < r.work_order.len() implies open[i + 1]
        == #[trigger] r.work_order[i] by {}
}

/// A failure of the environment ends the work without a further cycle: what was
/// committed before is kept, and without a commit the component is parked.
pub proof fn law_environment_ends_the_work(r: RunModel, row: RowView, v: VerdictView)
    requires
        !v.passed,
        v.cause == Some("environmental"@),
    ensures
        ({
            let t = after_verify(r, row, v);
            &&& t.run.step is End
            &&& t.run.cycles == r.cycles && t.run.findings == r.findings && t.run.work_order
                == r.work_order
            &&& t.run.env_parked && !t.run.last_verify_ok
            &&& t.run.last_hash == r.last_hash && t.run.committed_once == r.committed_once
            &&& t.row.findings == row.findings && t.row.phase == row.phase
            &&& r.committed_once ==> t.action is Finish
            &&& !r.committed_once ==> t.action == (Action::Quarantine {
                why: "verify failed for environmental reasons (not counted as a fix cycle)"@,
            })
        }),
{
}

/// The fixer's changes are committed exactly where it touched no file of the
/// checks; those that it touched are named in the order in which they were
/// found.
pub proof fn law_untouched_gates_are_committed(
    r: RunModel,
    row: RowView,
    gates: Seq<Seq<char>>,
    dirty: Seq<Seq<char>>,
)
    ensures
        ({
            let t = after_gate(r, row, gates, dirty);
            let touched = dirty.filter(|p: Seq<char>| gates.contains(p));
            &&& t.action is Commit <==> forall|i: int|
                0 <= i < dirty.len() ==> !gates.contains(#[trigger] dirty[i])
            &&& t.action is Commit ==> t.run == (RunModel {
                step: Step::Commit,
                last_verify_ok: true,
                ..r
            })
            &&& !(t.action is Commit) ==> t.action == (Action::Quarantine {
                why: "fixer modified verify gate file(s): "@ + text::joined(touched, ", "@)
                    + " — refusing to commit a green result produced by a gate the agent changed"@,
            }) && t.run.step is End
            &&& t.row == row
        }),
{
    let t = after_gate(r, row, gates, dirty);
    lemma_tampered_filter(gates, dirty);
    if t.action is Commit {
        assert forall|i: int| 0 <= i < dirty.len() implies !gates.contains(#[trigger] dirty[i]) by {
            lemma_tampered(gates, dirty, dirty[i]);
            assert(dirty.contains(dirty[i]));
        }
    } else {
        let p = tampered(gates, dirty)[0];
        assert(tampered(gates, dirty).contains(p));
        lemma_tampered(gates, dirty, p);
        let i = choose|i: int| 0 <= i < dirty.len() && dirty[i] == p;
        assert(gates.contains(dirty[i]));
    }
}

proof fn lemma_tampered_filter(gates: Seq<Seq<char>>, dirty: Seq<Seq<char>>)
    ensures
        tampered(gates, dirty) == dirty.filter(|p: Seq<char>| gates.contains(p)),
    decreases dirty.len(),
{
    reveal(Seq::filter);
    if dirty.len() > 0 {
        lemma_tampered_filter(gates, dirty.drop_last());
    }
}

/// A commit is remembered by its hash, and one without changes leaves the hash
/// of the commit before it; then the findings are confirmed.
pub proof fn law_commits_are_remembered(r: RunModel, row: RowView, made: Option<Seq<char>>)
    ensures
        ({
            let t = after_commit(r, row, Ok(made));
            &&& t.action is Confirm && t.run.step is Confirm
            &&& t.run.committed_once
            &&& made matches Some(h) ==> t.run.last_hash == h
            &&& made is None ==> t.run.last_hash == r.last_hash
            &&& t.row == row
            &&& t.run.findings == r.findings && t.run.work_order == r.work_order && t.run.cycles
                == r.cycles && t.run.last_verify_ok == r.last_verify_ok && t.run.slug == r.slug
                && t.run.env_parked == r.env_parked
        }),
{
}

/// No open finding is lost after a confirmation: what it reports, all of it and
/// in its order, is what is open, what is counted, and the work order of the
/// next cycle; where it failed the whole work order stays open. Without open
/// findings or cycles the work ends, and what is green is kept.
pub proof fn law_confirmed_findings_stay_open(r: RunModel, row: RowView, l: Seq<Seq<char>>)
    requires
        r.cycles <= 3,
    ensures
        ({
            let t = after_confirm(r, row, Some(l));
            let cause = if r.last_hash.len() > 0 {
                " "@ + r.last_hash
            } else {
                Seq::empty()
            };
            &&& t.run.findings.len() == l.len()
            &&& forall|i: int| 0 <= i < l.len() ==> #[trigger] t.run.findings[i] == l[i]
            &&& l.len() <= usize::MAX ==> t.row.findings == l.len()
            &&& t.action is Fix <==> l.len() > 0 && r.cycles < 3
            &&& t.action is Fix ==> t.run.work_order == l && t.run.cycles == r.cycles + 1
                && t.run.step is Fix && t.row.phase is Fixing
            &&& !(t.action is Fix) ==> t.run.step is End && t.run.work_order == r.work_order
                && t.run.cycles == r.cycles && t.row.phase == row.phase
            &&& !(t.action is Fix) ==> (t.action is Finish <==> r.committed_once
                || r.last_verify_ok) && (t.action is Quarantine <==> !(t.action is Finish))
            &&& l.len() > 0 ==> t.row.detail == "committed"@ + cause + "; "@ + number::decimal(
                l.len(),
            ) + " still open after confirm"@
            &&& l.len() == 0 ==> t.row.detail == row.detail
            &&& t.run.slug == r.slug && t.run.last_hash == r.last_hash && t.run.committed_once
                == r.committed_once && t.run.last_verify_ok == r.last_verify_ok
                && t.run.env_parked == r.env_parked
        }),
        after_confirm(r, row, None) == after_confirm(r, row, Some(r.work_order)),
{
    let t = after_confirm(r, row, Some(l));
    assert(t.run.findings =~= l);
}

/// What a finished component says of itself: how many findings are open, its
/// last commit, and that it is done.
pub proof fn law_finished_rows(r: RunModel, row: RowView)
    requires
        r.findings.len() <= usize::MAX,
    ensures
        ({
            let d = done_row(r, row);
            &&& d.phase is Done
            &&& d.findings == r.findings.len()
            &&& r.last_hash.len() > 0 ==> d.commit == Some(r.last_hash)
            &&& r.last_hash.len() == 0 ==> d.commit is None
            &&& r.findings.len() == 0 && r.last_hash.len() > 0 ==> d.detail
                == "fixed + committed "@ + r.last_hash
            &&& r.findings.len() == 0 && r.last_hash.len() == 0 ==> d.detail
                == "fixed + verified"@
            &&& r.findings.len() > 0 && r.last_hash.len() > 0 && !r.env_parked ==> d.detail
                == "kept last green"@ + (" "@ + r.last_hash) + "; "@ + number::decimal(
                r.findings.len(),
            ) + " still open after confirm"@
            &&& r.findings.len() > 0 && r.last_hash.len() > 0 && r.env_parked ==> d.detail
                == "kept last green"@ + (" "@ + r.last_hash) + "; "@ + number::decimal(
                r.findings.len(),
            ) + " still open (environmental verify)"@
            &&& d.slug == row.slug && d.name == row.name && d.paths == row.paths && d.verify
                == row.verify
        }),
        parked_row(row, r.last_hash) == (RowView {
            phase: Phase::Failed,
            detail: r.last_hash,
            ..row
        }),
{
}

/// A component that is parked at the end of its cycles says how many findings
/// it leaves behind.
pub proof fn law_parked_work_says_why(r: RunModel, row: RowView)
    requires
        !r.committed_once,
        !r.last_verify_ok,
        !r.env_parked,
    ensures
        r.findings.len() > 0 ==> concluded(r, row).action == (Action::Quarantine {
            why: number::decimal(r.findings.len()) + " finding(s) unresolved after "@
                + number::decimal(r.cycles) + " fix cycles"@,
        }),
        r.findings.len() == 0 ==> concluded(r, row).action == (Action::Quarantine {
            why: "fix cycles exhausted but verify never passed"@,
        }),
        concluded(r, row).row == row,
{
}

/// The commit that is remembered is the last one that was made.
pub proof fn law_last_commit_is_remembered(
    slug: Seq<char>,
    row: RowView,
    es: Seq<Told>,
    i: int,
    h: Seq<char>,
)
    requires
        proper(slug, row, es),
        0 <= i < es.len(),
        es[i] == Told::Committed(Ok(Some(h))),
        forall|j: int|
            i < j < es.len() ==> !((#[trigger] es[j]) matches Told::Committed(Ok(Some(x)))),
    ensures
        played(slug, row, es).0.last_hash == h,
        played(slug, row, es).0.committed_once,
    decreases es.len(),
{
    let front = es.drop_last();
    assert(es[es.len() - 1] == es.last());
    if i < es.len() - 1 {
        assert forall|j: int| i < j < front.len() implies !((
        #[trigger] front[j]) matches Told::Committed(Ok(Some(x)))) by {
            assert(front[j] == es[j]);
        }
        law_last_commit_is_remembered(slug, row, front, i, h);
    }
}

/// The work keeps to its component whatever happens.
pub proof fn law_work_keeps_to_its_component(slug: Seq<char>, row: RowView, es: Seq<Told>)
    ensures
        played(slug, row, es).0.slug == slug,
        played(slug, row, es).1.slug == row.slug,
        played(slug, row, es).1.name == row.name,
        played(slug, row, es).1.paths == row.paths,
        played(slug, row, es).1.verify == row.verify,
    decreases es.len(),
{
    if es.len() > 0 {
        law_work_keeps_to_its_component(slug, row, es.drop_last());
    }
}

/// Work on a component starts with its review and from nothing.
pub proof fn law_work_starts_with_a_review(slug: Seq<char>)
    ensures
        ({
            let r = picked(slug);
            &&& r.slug == slug && r.step is Review && r.cycles == 0
            &&& r.findings.len() == 0 && r.work_order.len() == 0 && r.last_hash.len() == 0
            &&& !r.last_verify_ok && !r.committed_once && !r.env_parked
        }),
{
}

// ---------------------------------------------------------------------
// Laws of answers
// ---------------------------------------------------------------------

/// A value that says something: a text that is not blank.
pub open spec fn telling(v: JsonView) -> bool {
    v is Text && text::trimmed(v->Text_0).len() > 0
}

proof fn lemma_told(l: Seq<JsonView>)
    ensures
        told(l) == l.filter(|v: JsonView| telling(v)).map_values(
            |v: JsonView| text::trimmed(v->Text_0),
        ),
    decreases l.len(),
{
    reveal(Seq::filter);
    let f = |v: JsonView| telling(v);
    let g = |v: JsonView| text::trimmed(v->Text_0);
    if l.len() > 0 {
        lemma_told(l.drop_last());
        let before = l.drop_last().filter(f);
        if telling(l.last()) {
            assert(before.push(l.last()).map_values(g) =~= before.map_values(g).push(g(l.last())));
        }
        assert(told(l) =~= l.filter(f).map_values(g));
    } else {
        assert(told(l) =~= l.filter(f).map_values(g));
    }
}

/// Every finding that an agent lists is taken, trimmed and in its place, and
/// nothing else is: the texts that are not blank, in their order.
pub proof fn law_every_listed_finding_is_taken(v: JsonView, l: Seq<JsonView>)
    ensures
        v.member("findings"@) == Some(JsonView::List(l)) ==> findings_in(v) == l.filter(
            |x: JsonView| x is Text && text::trimmed(x->Text_0).len() > 0,
        ).map_values(|x: JsonView| text::trimmed(x->Text_0)),
        v.member("still_open"@) == Some(JsonView::List(l)) ==> still_open_in(v) == l.filter(
            |x: JsonView| x is Text && text::trimmed(x->Text_0).len() > 0,
        ).map_values(|x: JsonView| text::trimmed(x->Text_0)),
        v.member("questions"@) == Some(JsonView::List(l)) ==> questions_in(v) == l.filter(
            |x: JsonView| x is Text && text::trimmed(x->Text_0).len() > 0,
        ).map_values(|x: JsonView| text::trimmed(x->Text_0)),
{
    lemma_told(l);
    assert((|x: JsonView| x is Text && text::trimmed(x->Text_0).len() > 0) =~= (|x: JsonView|
        telling(x)));
}

/// A list with so many texts that say something is so many findings; where all
/// of its entries do, each finding is the trimmed entry in its place.
pub proof fn law_findings_keep_their_places(v: JsonView, l: Seq<JsonView>)
    requires
        v.member("findings"@) == Some(JsonView::List(l)),
        forall|i: int|
            0 <= i < l.len() ==> (#[trigger] l[i]) is Text && text::trimmed(l[i]->Text_0).len() > 0,
    ensures
        findings_in(v).len() == l.len(),
        forall|i: int|
            0 <= i < l.len() ==> #[trigger] findings_in(v)[i] == text::trimmed(l[i]->Text_0),
{
    lemma_told_places(l);
}

proof fn lemma_told_places(l: Seq<JsonView>)
    requires
        forall|i: int|
            0 <= i < l.len() ==> (#[trigger] l[i]) is Text && text::trimmed(l[i]->Text_0).len() > 0,
    ensures
        told(l).len() == l.len(),
        forall|i: int| 0 <= i < l.len() ==> #[trigger] told(l)[i] == text::trimmed(l[i]->Text_0),
    decreases l.len(),
{
    if l.len() > 0 {
        let front = l.drop_last();
        assert forall|i: int| 0 <= i < front.len() implies (#[trigger] front[i]) is Text
            && text::trimmed(front[i]->Text_0).len() > 0 by {
            assert(front[i] == l[i]);
        }
        lemma_told_places(front);
        assert(l[l.len() - 1] == l.last());
        assert forall|i: int| 0 <= i < l.len() implies #[trigger] told(l)[i] == text::trimmed(
            l[i]->Text_0,
        ) by {
            if i < front.len() {
                assert(told(front)[i] == told(l)[i]);
                assert(front[i] == l[i]);
            }
        }
    }
}

/// An answer of a review that cannot be read is a finding and never a clean
/// review; one that is a single text is that one finding.
pub proof fn law_unreadable_reviews_are_not_clean(v: JsonView)
    ensures
        v.member("findings"@) is None ==> findings_in(v).len() == 1,
        v.member("findings"@) matches Some(x) ==> !(x is List) ==> findings_in(v).len() == 1,
        v.member("findings"@) matches Some(JsonView::Text(s)) ==> text::trimmed(s).len() > 0
            ==> findings_in(v)[0] == text::trimmed(s),
{
}

/// A confirmation that cannot be read reopens nothing; one that is a single text
/// reopens that one finding.
pub proof fn law_unreadable_confirmations_reopen_nothing(v: JsonView)
    ensures
        v.member("still_open"@) is None ==> still_open_in(v).len() == 0,
        v.member("still_open"@) matches Some(x) ==> !(x is List) && !(x is Text) ==> still_open_in(
            v,
        ).len() == 0,
        v.member("still_open"@) matches Some(JsonView::Text(s)) ==> text::trimmed(s).len() > 0
            ==> still_open_in(v) == seq![text::trimmed(s)],
        v.member("still_open"@) matches Some(JsonView::Text(s)) ==> text::trimmed(s).len() == 0
            ==> still_open_in(v).len() == 0,
{
}

/// The result that counts is green exactly where every result that there is is
/// green, and a red one is reported.
pub proof fn law_counting_results(scoped: Option<RunView>, full: Option<RunView>)
    ensures
        ({
            let c = counting(scoped, full);
            &&& c is None <==> scoped is None && full is None
            &&& c is Some ==> c == scoped || c == full
            &&& c matches Some(x) ==> (x.passed <==> (scoped matches Some(s) ==> s.passed) && (
            full matches Some(f) ==> f.passed))
            &&& scoped matches Some(s) ==> !s.passed ==> c == scoped
            &&& scoped is None ==> c == full
            &&& scoped matches Some(s) ==> (full matches Some(f) ==> s.passed && f.passed ==> c
                == scoped)
        }),
{
}

/// A failure is classified as the classifier says, key by key; what it does not
/// say is a fault of the fix with the diagnostics as they were.
pub proof fn law_classified_failures(v: JsonView, diagnostics: Seq<char>)
    ensures
        ({
            let c = classified(Some(v), diagnostics);
            &&& !c.passed
            &&& v.member("cause"@) matches Some(JsonView::Text(s)) ==> c.cause == Some(s)
            &&& !(v.member("cause"@) matches Some(JsonView::Text(s))) ==> c.cause == Some("fix"@)
            &&& v.member("diagnostics"@) matches Some(JsonView::Text(s)) ==> c.diagnostics == Some(s)
            &&& !(v.member("diagnostics"@) matches Some(JsonView::Text(s))) ==> c.diagnostics
                == Some(diagnostics)
        }),
        classified(None, diagnostics) == (VerdictView {
            passed: false,
            cause: Some("fix"@),
            diagnostics: Some(diagnostics),
        }),
{
}

/// What the classifier is handed names the command that failed and holds all of
/// its output.
pub proof fn law_diagnostics_hold_the_output(r: RunView)
    ensures
        r.failed_command is None ==> diagnostics_of(r) == r.output,
        r.failed_command matches Some(c) ==> diagnostics_of(r) == "command `"@ + c
            + "` failed\n"@ + r.output,
        diagnostics_of(r).len() >= r.output.len(),
        diagnostics_of(r).skip(diagnostics_of(r).len() - r.output.len()) == r.output,
{
    let d = diagnostics_of(r);
    assert(d.skip(d.len() - r.output.len()) =~= r.output);
}

/// The commands and paths of a component are those of its row; a component
/// without paths of its own has the one that its slug stands for.
pub proof fn law_rows_say_what_belongs_to_a_component(
    st: State,
    slug: Seq<char>,
    resolved: Option<Seq<char>>,
)
    ensures
        st.components@.dom().contains(slug) ==> own_commands(st, slug)
            == st.components@[slug].verify,
        !st.components@.dom().contains(slug) ==> own_commands(st, slug).len() == 0,
        st.components@.dom().contains(slug) && st.components@[slug].paths.len() > 0 ==> paths_of(
            st,
            slug,
            resolved,
        ) == st.components@[slug].paths,
        !st.components@.dom().contains(slug) || st.components@[slug].paths.len() == 0 ==> (
        resolved matches Some(p) ==> paths_of(st, slug, resolved) == seq![p]) && (resolved is None
            ==> paths_of(st, slug, resolved).len() == 0),
{
}

/// A slug `src-<module>` stands for the file and the directory of that module,
/// `src-loop` for those of the loop engine; one with hyphens is tried with
/// underscores first.
pub proof fn law_modules_of_slugs(m: Seq<char>)
    ensures
        !text::has_char(m, CharSet::One('-')) && m != "loop"@ ==> places_of(modules("src-"@ + m))
            == seq!["src/"@ + m + ".rs"@, "src/"@ + m],
        text::has_char(m, CharSet::One('-')) ==> ({
            let u = text::replaced(m, CharSet::One('-'), "_"@);
            places_of(modules("src-"@ + m)) == seq![
                "src/"@ + u + ".rs"@,
                "src/"@ + u,
                "src/"@ + m + ".rs"@,
                "src/"@ + m,
            ]
        }),
        places_of(modules("src-"@ + "loop"@)) == seq!["src/loop_engine.rs"@, "src/loop_engine"@],
        !text::begins(m, "src-"@) ==> places_of(modules(m)).len() == 0,
{
    reveal_strlit("src-");
    reveal_strlit("src/");
    reveal_strlit(".rs");
    reveal_strlit("loop");
    reveal_strlit("loop_engine");
    reveal_strlit("src/loop_engine.rs");
    reveal_strlit("src/loop_engine");
    let s = "src-"@ + m;
    assert(s.skip(4) =~= m);
    assert(s.subrange(0, 4) =~= "src-"@);
    lemma_places(m, m);
    if m == "loop"@ {
        assert(!text::has_char(m, CharSet::One('-')));
    }
    lemma_places(text::replaced(m, CharSet::One('-'), "_"@), m);
    let k = "src-"@ + "loop"@;
    assert(k.skip(4) =~= "loop"@);
    assert(k.subrange(0, 4) =~= "src-"@);
    assert(!text::has_char("loop_engine"@, CharSet::One('-')));
    lemma_places("loop_engine"@, "loop_engine"@);
    assert("src/"@ + "loop_engine"@ + ".rs"@ =~= "src/loop_engine.rs"@);
    assert("src/"@ + "loop_engine"@ =~= "src/loop_engine"@);
}

proof fn lemma_places(a: Seq<char>, b: Seq<char>)
    ensures
        places_of(seq![a]) == seq!["src/"@ + a + ".rs"@, "src/"@ + a],
        places_of(seq![a, b]) == seq![
            "src/"@ + a + ".rs"@,
            "src/"@ + a,
            "src/"@ + b + ".rs"@,
            "src/"@ + b,
        ],
{
    let one = seq![a];
    assert(one.drop_last() =~= Seq::empty());
    assert(places_of(one.drop_last()) =~= Seq::empty());
    assert(places_of(one) =~= seq!["src/"@ + a + ".rs"@, "src/"@ + a]);
    let two = seq![a, b];
    assert(two.drop_last() =~= one);
    assert(places_of(two) =~= seq![
        "src/"@ + a + ".rs"@,
        "src/"@ + a,
        "src/"@ + b + ".rs"@,
        "src/"@ + b,
    ]);
}

/// The name of a findings file is the slug, character by character, with an
/// underscore for what is no small letter, digit or hyphen.
pub proof fn law_names_of_findings_files(slug: Seq<char>)
    ensures
        slug.len() == 0 ==> safe_name(slug) == "unknown"@,
        slug.len() > 0 ==> safe_name(slug).len() == slug.len() && forall|i: int|
            0 <= i < slug.len() ==> #[trigger] safe_name(slug)[i] == (if 'a' <= slug[i] <= 'z'
                || '0' <= slug[i] <= '9' || slug[i] == '-' {
                slug[i]
            } else {
                '_'
            }),
{
}

/// The file of findings holds every finding, numbered from one in their order.
pub proof fn law_findings_files_hold_all_findings(findings: Seq<Seq<char>>)
    ensures
        numbered(findings).len() == findings.len(),
        forall|i: int|
            0 <= i < findings.len() ==> #[trigger] numbered(findings)[i] == number::decimal(
                (i + 1) as nat,
            ) + ". "@ + findings[i],
        findings_file(findings) == text::joined(numbered(findings), "\n\n"@),
{
}

/// A turn of the work changes the row of its own component alone.
pub proof fn law_turns_touch_one_row(
    t: Turn,
    was: State,
    run: RunModel,
    now: State,
    action: Action<String>,
    other: Seq<char>,
)
    requires
        turned(t, was, run, now, action),
    ensures
        run == t.run,
        action@ == t.action,
        now.components@[run.slug] == t.row,
        now.components@.dom().contains(run.slug),
        other != run.slug ==> (now.components@.dom().contains(other) <==> was.components@.dom().contains(
            other,
        )),
        other != run.slug && was.components@.dom().contains(other) ==> now.components@[other]
            == was.components@[other],
        now.wf(),
{
}

/// The work stands in a step exactly where its component is recorded in the
/// phase of that step, within the limit of cycles.
pub proof fn law_steps_agree_with_the_record(r: RunModel, st: State, a: Step, b: Step)
    requires
        in_step(r, st, a),
    ensures
        r.step == a,
        r.cycles <= 3,
        st.components@.dom().contains(r.slug),
        st.components@[r.slug].phase == a.phase(),
        in_step(r, st, b) ==> a == b,
{
}

/// A cycle is told with its number, the limit and the findings that it is for,
/// and a commit with its component.
pub proof fn law_cycles_in_words(r: RunModel, slug: Seq<char>)
    ensures
        cycle_text(r) == "fix cycle "@ + number::decimal(r.cycles) + "/"@ + number::decimal(3)
            + " — "@ + number::decimal(r.findings.len()) + " finding(s)"@,
        commit_text(slug) == "gaggle("@ + slug + "): fix review findings"@,
{
}

/// A path below a directory has one slash between the two, and below nothing it
/// stands alone.
pub proof fn law_paths_below(base: Seq<char>, rest: Seq<char>)
    ensures
        below(Seq::empty(), rest) == rest,
        base.len() > 0 && base.last() == '/' ==> below(base, rest) == base + rest,
        base.len() > 0 && base.last() != '/' ==> below(base, rest) == base + "/"@ + rest,
{
    reveal_strlit("/");
    if base.len() > 0 {
        assert(base.subrange(base.len() - 1, base.len() as int) =~= seq![base.last()]);
        assert("/"@ =~= seq!['/']);
        assert(seq![base.last()][0] == base.last() && seq!['/'][0] == '/');
    }
}

} // verus!
