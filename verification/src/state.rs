//! The state of each component and the rules by which it moves.
//!
//! Phases: pending → reviewing → fixing → verifying → committing → done. Any
//! active phase may fall to failed, the quarantine, from which the only way
//! out is an explicit requeue to pending.

use vstd::prelude::*;
use crate::checklist;
use crate::checklist::{tier_rank, Component, ComponentView};
use crate::number;
use crate::number::{parse_unsigned, to_decimal};
use crate::roundtrip;
use crate::text;
use crate::text::{copied, less, member, owned, same, split, strip_prefix, CharSet, Draft};

verus! {

// ---------------------------------------------------------------------
// Phases and rows
// ---------------------------------------------------------------------

#[derive(Debug, Clone, Copy, PartialEq, Eq, Structural)]
pub enum Phase {
    Pending,
    Reviewing,
    Fixing,
    Verifying,
    Committing,
    Done,
    /// Quarantine: the attempt budget is spent. A component stays here until a
    /// caller requeues it, so that one slice does not stall the others.
    Failed,
}

impl Phase {
    /// The word for the phase.
    pub open spec fn word(self) -> Seq<char> {
        match self {
            Phase::Pending => "pending"@,
            Phase::Reviewing => "reviewing"@,
            Phase::Fixing => "fixing"@,
            Phase::Verifying => "verifying"@,
            Phase::Committing => "committing"@,
            Phase::Done => "done"@,
            Phase::Failed => "failed"@,
        }
    }

    /// Work on the component is under way.
    pub open spec fn active(self) -> bool {
        self is Reviewing || self is Fixing || self is Verifying || self is Committing
    }

    /// The word for the phase.
    pub fn as_str(&self) -> (r: &'static str)
        ensures
            r@ == self.word(),
    {
        match self {
            Phase::Pending => "pending",
            Phase::Reviewing => "reviewing",
            Phase::Fixing => "fixing",
            Phase::Verifying => "verifying",
            Phase::Committing => "committing",
            Phase::Done => "done",
            Phase::Failed => "failed",
        }
    }

    /// Whether work on the component is under way.
    pub fn is_active(&self) -> (r: bool)
        ensures
            r == self.active(),
    {
        matches!(self, Phase::Reviewing | Phase::Fixing | Phase::Verifying | Phase::Committing)
    }
}

/// What is recorded of one component.
#[derive(Debug)]
pub struct ComponentState {
    pub slug: String,
    pub name: String,
    pub tier: String,
    pub phase: Phase,
    /// The number of findings of the last review (0 = clean).
    pub findings: usize,
    /// What happened last, such as how a fix or a check ended.
    pub detail: String,
    /// The paths that the component covers.
    pub paths: Vec<String>,
    /// The commands that check this component; none means the repository-wide
    /// list.
    pub verify: Vec<String>,
    /// The short hash of the commit that holds this component's fix.
    pub commit: Option<String>,
}

/// The contents of a [`ComponentState`].
pub struct RowView {
    pub slug: Seq<char>,
    pub name: Seq<char>,
    pub tier: Seq<char>,
    pub phase: Phase,
    pub findings: usize,
    pub detail: Seq<char>,
    pub paths: Seq<Seq<char>>,
    pub verify: Seq<Seq<char>>,
    pub commit: Option<Seq<char>>,
}

impl View for ComponentState {
    type V = RowView;

    open spec fn view(&self) -> RowView {
        RowView {
            slug: self.slug@,
            name: self.name@,
            tier: self.tier@,
            phase: self.phase,
            findings: self.findings,
            detail: self.detail@,
            paths: text::texts(self.paths@),
            verify: text::texts(self.verify@),
            commit: text::opt(self.commit),
        }
    }
}

// ---------------------------------------------------------------------
// The rows by slug
// ---------------------------------------------------------------------

/// The rows, each under its key, in ascending order of the keys.
#[derive(Debug)]
pub struct Rows {
    entries: Vec<(String, ComponentState)>,
}

/// The index at which `key` stands.
pub open spec fn slot(pairs: Seq<(Seq<char>, RowView)>, key: Seq<char>) -> int {
    choose|i: int| 0 <= i < pairs.len() && (#[trigger] pairs[i]).0 == key
}

pub open spec fn has_key(pairs: Seq<(Seq<char>, RowView)>, key: Seq<char>) -> bool {
    exists|i: int| 0 <= i < pairs.len() && (#[trigger] pairs[i]).0 == key
}

/// The keys ascend, so that none occurs twice.
pub open spec fn ascending(pairs: Seq<(Seq<char>, RowView)>) -> bool {
    forall|i: int, j: int|
        0 <= i < j < pairs.len() ==> text::before((#[trigger] pairs[i]).0, (#[trigger] pairs[j]).0)
}

/// The pairs as a map.
pub open spec fn map_of(pairs: Seq<(Seq<char>, RowView)>) -> Map<Seq<char>, RowView> {
    Map::new(|k: Seq<char>| has_key(pairs, k), |k: Seq<char>| pairs[slot(pairs, k)].1)
}

/// The rows without their keys.
pub open spec fn rows_of(pairs: Seq<(Seq<char>, RowView)>) -> Seq<RowView> {
    pairs.map_values(|p: (Seq<char>, RowView)| p.1)
}

proof fn lemma_slot(pairs: Seq<(Seq<char>, RowView)>, i: int)
    requires
        ascending(pairs),
        0 <= i < pairs.len(),
    ensures
        slot(pairs, pairs[i].0) == i,
        has_key(pairs, pairs[i].0),
        map_of(pairs).dom().contains(pairs[i].0),
        map_of(pairs)[pairs[i].0] == pairs[i].1,
{
    let k = pairs[i].0;
    assert(has_key(pairs, k));
    let s = slot(pairs, k);
    assert(0 <= s < pairs.len() && pairs[s].0 == k);
    text::lemma_before_strict(k, k);
    if s < i {
        assert(text::before(pairs[s].0, pairs[i].0));
    } else if i < s {
        assert(text::before(pairs[i].0, pairs[s].0));
    }
}

proof fn lemma_update(pairs: Seq<(Seq<char>, RowView)>, i: int, row: RowView)
    requires
        ascending(pairs),
        0 <= i < pairs.len(),
    ensures
        ascending(pairs.update(i, (pairs[i].0, row))),
        map_of(pairs.update(i, (pairs[i].0, row))) == map_of(pairs).insert(pairs[i].0, row),
{
    let next = pairs.update(i, (pairs[i].0, row));
    assert(ascending(next));
    let a = map_of(next);
    let b = map_of(pairs).insert(pairs[i].0, row);
    lemma_slot(next, i);
    assert forall|k: Seq<char>| #[trigger] a.dom().contains(k) == b.dom().contains(k) by {
        if a.dom().contains(k) {
            let j = slot(next, k);
            assert(next[j].0 == k);
            assert(pairs[j].0 == k);
            lemma_slot(pairs, j);
        }
        if b.dom().contains(k) && k != pairs[i].0 {
            let j = slot(pairs, k);
            assert(pairs[j].0 == k);
            assert(next[j].0 == k);
        }
    }
    assert forall|k: Seq<char>| #[trigger] a.dom().contains(k) implies a[k] == b[k] by {
        let j = slot(next, k);
        assert(next[j].0 == k);
        assert(pairs[j].0 == k);
        lemma_slot(pairs, j);
        lemma_slot(next, j);
    }
    assert(a =~= b);
}

proof fn lemma_insert(pairs: Seq<(Seq<char>, RowView)>, i: int, key: Seq<char>, row: RowView)
    requires
        ascending(pairs),
        0 <= i <= pairs.len(),
        forall|j: int| 0 <= j < i ==> text::before((#[trigger] pairs[j]).0, key),
        forall|j: int| i <= j < pairs.len() ==> text::before(key, (#[trigger] pairs[j]).0),
    ensures
        ascending(pairs.insert(i, (key, row))),
        map_of(pairs.insert(i, (key, row))) == map_of(pairs).insert(key, row),
        !has_key(pairs, key),
{
    let next = pairs.insert(i, (key, row));
    text::lemma_before_strict(key, key);
    assert forall|x: int, y: int| 0 <= x < y < next.len() implies text::before(
        (#[trigger] next[x]).0,
        (#[trigger] next[y]).0,
    ) by {
        let px = if x < i {
            x
        } else {
            x - 1
        };
        let py = if y < i {
            y
        } else {
            y - 1
        };
        if x != i {
            assert(next[x] == pairs[px]);
        }
        if y != i {
            assert(next[y] == pairs[py]);
        }
    }
    lemma_slot(next, i);
    assert(next[i] == (key, row));
    let a = map_of(next);
    let b = map_of(pairs).insert(key, row);
    assert forall|k: Seq<char>| #[trigger] a.dom().contains(k) == b.dom().contains(k) by {
        if a.dom().contains(k) && k != key {
            let j = slot(next, k);
            assert(next[j].0 == k);
            if j < i {
                assert(pairs[j].0 == k);
            } else {
                assert(pairs[j - 1].0 == k);
            }
        }
        if b.dom().contains(k) && k != key {
            let j = slot(pairs, k);
            assert(pairs[j].0 == k);
            if j < i {
                assert(next[j].0 == k);
            } else {
                assert(next[j + 1].0 == k);
            }
        }
    }
    assert forall|k: Seq<char>| #[trigger] a.dom().contains(k) implies a[k] == b[k] by {
        if k != key {
            let j = slot(next, k);
            assert(next[j].0 == k);
            lemma_slot(next, j);
            if j < i {
                assert(next[j] == pairs[j]);
                lemma_slot(pairs, j);
            } else {
                assert(next[j] == pairs[j - 1]);
                lemma_slot(pairs, j - 1);
            }
        }
    }
    assert(a =~= b);
    if has_key(pairs, key) {
        let j = slot(pairs, key);
        assert(pairs[j].0 == key);
    }
}

proof fn lemma_remove(pairs: Seq<(Seq<char>, RowView)>, i: int)
    requires
        ascending(pairs),
        0 <= i < pairs.len(),
    ensures
        ascending(pairs.remove(i)),
        map_of(pairs.remove(i)) == map_of(pairs).remove(pairs[i].0),
{
    let next = pairs.remove(i);
    let key = pairs[i].0;
    assert forall|x: int, y: int| 0 <= x < y < next.len() implies text::before(
        (#[trigger] next[x]).0,
        (#[trigger] next[y]).0,
    ) by {
        let px = if x < i {
            x
        } else {
            x + 1
        };
        let py = if y < i {
            y
        } else {
            y + 1
        };
        assert(next[x] == pairs[px]);
        assert(next[y] == pairs[py]);
    }
    let a = map_of(next);
    let b = map_of(pairs).remove(key);
    assert forall|k: Seq<char>| #[trigger] a.dom().contains(k) == b.dom().contains(k) by {
        if a.dom().contains(k) {
            let j = slot(next, k);
            assert(next[j].0 == k);
            let p = if j < i {
                j
            } else {
                j + 1
            };
            assert(pairs[p] == next[j]);
            lemma_slot(pairs, p);
            lemma_slot(pairs, i);
        }
        if b.dom().contains(k) {
            let p = slot(pairs, k);
            assert(pairs[p].0 == k);
            if p < i {
                assert(next[p] == pairs[p]);
            } else {
                assert(next[p - 1] == pairs[p]);
            }
        }
    }
    assert forall|k: Seq<char>| #[trigger] a.dom().contains(k) implies a[k] == b[k] by {
        let j = slot(next, k);
        assert(next[j].0 == k);
        lemma_slot(next, j);
        let p = if j < i {
            j
        } else {
            j + 1
        };
        assert(pairs[p] == next[j]);
        lemma_slot(pairs, p);
    }
    assert(a =~= b);
}

proof fn lemma_mapped(
    was: Seq<(Seq<char>, RowView)>,
    now: Seq<(Seq<char>, RowView)>,
    f: spec_fn(RowView) -> RowView,
)
    requires
        ascending(was),
        now.len() == was.len(),
        forall|i: int| 0 <= i < was.len() ==> #[trigger] now[i] == (was[i].0, f(was[i].1)),
    ensures
        ascending(now),
        map_of(now) == map_of(was).map_values(f),
{
    assert(ascending(now));
    let a = map_of(now);
    let b = map_of(was).map_values(f);
    assert forall|k: Seq<char>| #[trigger] a.dom().contains(k) == b.dom().contains(k) by {
        if a.dom().contains(k) {
            let j = slot(now, k);
            assert(now[j].0 == k);
            assert(was[j].0 == k);
        }
        if b.dom().contains(k) {
            let j = slot(was, k);
            assert(was[j].0 == k);
            assert(now[j].0 == k);
        }
    }
    assert forall|k: Seq<char>| #[trigger] a.dom().contains(k) implies a[k] == b[k] by {
        let j = slot(now, k);
        assert(now[j].0 == k);
        lemma_slot(now, j);
        lemma_slot(was, j);
    }
    assert(a =~= b);
}

/// The rows whose keys are listed.
pub open spec fn restricted(m: Map<Seq<char>, RowView>, keys: Seq<Seq<char>>) -> Map<
    Seq<char>,
    RowView,
> {
    Map::new(|k: Seq<char>| m.dom().contains(k) && keys.contains(k), |k: Seq<char>| m[k])
}

impl Rows {
    /// The rows with their keys, in order.
    pub closed spec fn pairs(&self) -> Seq<(Seq<char>, RowView)> {
        self.entries@.map_values(|e: (String, ComponentState)| (e.0@, e.1@))
    }

    pub open spec fn wf(&self) -> bool {
        ascending(self.pairs())
    }

    /// No rows.
    pub fn new() -> (r: Rows)
        ensures
            r.wf(),
            r.pairs() == Seq::<(Seq<char>, RowView)>::empty(),
            r@ == Map::<Seq<char>, RowView>::empty(),
    {
        let r = Rows { entries: Vec::new() };
        assert(r.pairs() =~= Seq::empty());
        assert(r@ =~= Map::empty());
        r
    }

    /// The number of rows.
    pub fn len(&self) -> (r: usize)
        ensures
            r == self.pairs().len(),
    {
        self.entries.len()
    }

    /// The key at place `i`.
    pub fn key(&self, i: usize) -> (r: &str)
        requires
            i < self.pairs().len(),
        ensures
            r@ == self.pairs()[i as int].0,
    {
        self.entries[i].0.as_str()
    }

    /// The row at place `i`.
    pub fn row(&self, i: usize) -> (r: &ComponentState)
        requires
            i < self.pairs().len(),
        ensures
            r@ == self.pairs()[i as int].1,
    {
        &self.entries[i].1
    }

    fn find(&self, key: &str) -> (r: (bool, usize))
        requires
            self.wf(),
        ensures
            r.0 ==> r.1 < self.pairs().len() && self.pairs()[r.1 as int].0 == key@,
            !r.0 ==> r.1 <= self.pairs().len() && (forall|j: int|
                0 <= j < r.1 ==> text::before((#[trigger] self.pairs()[j]).0, key@)) && (forall|
                j: int,
            |
                r.1 <= j < self.pairs().len() ==> text::before(
                    key@,
                    (#[trigger] self.pairs()[j]).0,
                )),
    {
        let mut i: usize = 0;
        while i < self.entries.len()
            invariant
                i <= self.entries.len(),
                self.wf(),
                self.pairs().len() == self.entries.len(),
                forall|j: int| 0 <= j < i ==> text::before((#[trigger] self.pairs()[j]).0, key@),
            decreases self.entries.len() - i,
        {
            let own: &str = self.entries[i].0.as_str();
            assert(self.pairs()[i as int].0 == own@);
            if same(own, key) {
                return (true, i);
            }
            if !less(own, key) {
                proof {
                    text::lemma_before_total(own@, key@);
                    assert forall|j: int| i <= j < self.pairs().len() implies text::before(
                        key@,
                        (#[trigger] self.pairs()[j]).0,
                    ) by {
                        if i < j {
                            assert(text::before(self.pairs()[i as int].0, self.pairs()[j].0));
                            text::lemma_before_transitive(key@, own@, self.pairs()[j].0);
                        }
                    }
                }
                return (false, i);
            }
            i = i + 1;
        }
        (false, i)
    }

    /// The row under `key`.
    pub fn get(&self, key: &str) -> (r: Option<&ComponentState>)
        requires
            self.wf(),
        ensures
            match r {
                Some(row) => self@.dom().contains(key@) && row@ == self@[key@],
                None => !self@.dom().contains(key@),
            },
    {
        let (found, i) = self.find(key);
        if found {
            proof {
                lemma_slot(self.pairs(), i as int);
            }
            Some(&self.entries[i].1)
        } else {
            proof {
                if has_key(self.pairs(), key@) {
                    let j = slot(self.pairs(), key@);
                    assert(self.pairs()[j].0 == key@);
                    text::lemma_before_strict(key@, key@);
                }
            }
            None
        }
    }

    /// The row under `key`, to be changed in place.
    pub fn get_mut(&mut self, key: &str) -> (r: Option<&mut ComponentState>)
        requires
            old(self).wf(),
        ensures
            match r {
                Some(row) => {
                    &&& old(self)@.dom().contains(key@)
                    &&& row@ == old(self)@[key@]
                    &&& final(self)@ == old(self)@.insert(key@, final(row)@)
                    &&& final(self).wf()
                },
                None => !old(self)@.dom().contains(key@) && *final(self) == *old(self),
            },
    {
        let (found, i) = self.find(key);
        if found {
            let ghost was = self.pairs();
            let ghost entries = self.entries@;
            proof {
                lemma_slot(was, i as int);
                assert forall|x: Rows, v: ComponentState|
                    #![trigger x.pairs(), v.view()]
                    x.entries@ == entries.update(i as int, (entries[i as int].0, v)) implies x.wf()
                    && x@ == map_of(was).insert(key@, v@) by {
                    lemma_update(was, i as int, v@);
                    assert(x.pairs() =~= was.update(i as int, (was[i as int].0, v@)));
                }
            }
            Some(&mut self.entries[i].1)
        } else {
            proof {
                if has_key(self.pairs(), key@) {
                    let j = slot(self.pairs(), key@);
                    assert(self.pairs()[j].0 == key@);
                    text::lemma_before_strict(key@, key@);
                }
            }
            None
        }
    }

    /// Puts every row back to where it was before any work.
    fn restart(&mut self)
        ensures
            final(self).pairs() == old(self).pairs().map_values(
                |p: (Seq<char>, RowView)| (p.0, restarted_row(p.1)),
            ),
    {
        let ghost was = self.pairs();
        let mut i: usize = 0;
        while i < self.entries.len()
            invariant
                i <= self.entries.len(),
                self.entries.len() == was.len(),
                self.pairs().len() == was.len(),
                forall|j: int|
                    0 <= j < i ==> #[trigger] self.pairs()[j] == (was[j].0, restarted_row(was[j].1)),
                forall|j: int| i <= j < was.len() ==> #[trigger] self.pairs()[j] == was[j],
            decreases self.entries.len() - i,
        {
            let ghost pairs = self.pairs();
            assert(pairs[i as int] == was[i as int]);
            assert(pairs[i as int].1 == self.entries@[i as int].1@);
            restart_row(&mut self.entries[i].1);
            assert(self.pairs() =~= pairs.update(
                i as int,
                (was[i as int].0, restarted_row(was[i as int].1)),
            ));
            i = i + 1;
        }
        assert(self.pairs() =~= was.map_values(
            |p: (Seq<char>, RowView)| (p.0, restarted_row(p.1)),
        ));
    }

    /// Puts rows whose work was interrupted back to pending.
    fn resume(&mut self)
        ensures
            final(self).pairs() == old(self).pairs().map_values(
                |p: (Seq<char>, RowView)| (p.0, resumed_row(p.1)),
            ),
    {
        let ghost was = self.pairs();
        let mut i: usize = 0;
        while i < self.entries.len()
            invariant
                i <= self.entries.len(),
                self.entries.len() == was.len(),
                self.pairs().len() == was.len(),
                forall|j: int|
                    0 <= j < i ==> #[trigger] self.pairs()[j] == (was[j].0, resumed_row(was[j].1)),
                forall|j: int| i <= j < was.len() ==> #[trigger] self.pairs()[j] == was[j],
            decreases self.entries.len() - i,
        {
            let ghost pairs = self.pairs();
            assert(pairs[i as int] == was[i as int]);
            assert(pairs[i as int].1 == self.entries@[i as int].1@);
            resume_row(&mut self.entries[i].1);
            assert(self.pairs() =~= pairs.update(
                i as int,
                (was[i as int].0, resumed_row(was[i as int].1)),
            ));
            i = i + 1;
        }
        assert(self.pairs() =~= was.map_values(
            |p: (Seq<char>, RowView)| (p.0, resumed_row(p.1)),
        ));
    }

    /// Puts the row under the key, in place of one that may stand there.
    pub fn insert(&mut self, key: String, row: ComponentState)
        requires
            old(self).wf(),
        ensures
            final(self).wf(),
            final(self)@ == old(self)@.insert(key@, row@),
    {
        let (found, i) = self.find(key.as_str());
        let ghost was = self.pairs();
        if found {
            proof {
                lemma_update(was, i as int, row@);
            }
            self.entries.set(i, (key, row));
            assert(self.pairs() =~= was.update(i as int, (was[i as int].0, row@)));
        } else {
            proof {
                lemma_insert(was, i as int, key@, row@);
            }
            let ghost k = key@;
            let ghost r = row@;
            self.entries.insert(i, (key, row));
            assert(self.pairs() =~= was.insert(i as int, (k, r)));
        }
    }

    /// Drops the rows whose keys are not among `keys`.
    pub fn keep(&mut self, keys: &Vec<String>)
        requires
            old(self).wf(),
        ensures
            final(self).wf(),
            final(self)@ == restricted(old(self)@, text::texts(keys@)),
    {
        let ghost start = self@;
        let ghost listed = text::texts(keys@);
        let mut i: usize = 0;
        while i < self.entries.len()
            invariant
                i <= self.entries.len(),
                self.pairs().len() == self.entries.len(),
                self.wf(),
                listed == text::texts(keys@),
                forall|k: Seq<char>| #[trigger]
                    self@.dom().contains(k) ==> start.dom().contains(k) && self@[k] == start[k],
                forall|k: Seq<char>|
                    start.dom().contains(k) && listed.contains(k) ==> #[trigger]
                    self@.dom().contains(k),
                forall|j: int| 0 <= j < i ==> listed.contains((#[trigger] self.pairs()[j]).0),
            decreases self.entries.len() - i,
        {
            let ghost was = self.pairs();
            let ghost held = self@;
            assert(was[i as int].0 == self.entries@[i as int].0@);
            if member(keys, self.entries[i].0.as_str()) {
                i = i + 1;
            } else {
                proof {
                    lemma_remove(was, i as int);
                }
                let _ = self.entries.remove(i);
                assert(self.pairs() =~= was.remove(i as int));
                let ghost gone = was[i as int].0;
                assert(self@ == held.remove(gone));
                assert forall|k: Seq<char>| #[trigger]
                    self@.dom().contains(k) implies start.dom().contains(k) && self@[k]
                    == start[k] by {
                    assert(held.dom().contains(k));
                }
                assert forall|k: Seq<char>|
                    start.dom().contains(k) && listed.contains(k) implies #[trigger]
                    self@.dom().contains(k) by {
                    assert(held.dom().contains(k));
                }
                assert forall|j: int| 0 <= j < i implies listed.contains(
                    (#[trigger] self.pairs()[j]).0,
                ) by {
                    assert(self.pairs()[j] == was[j]);
                }
            }
        }
        assert forall|k: Seq<char>| #[trigger] self@.dom().contains(k) implies listed.contains(
            k,
        ) by {
            let j = slot(self.pairs(), k);
            assert(self.pairs()[j].0 == k);
        }
        assert(self@ =~= restricted(start, listed));
    }

}

impl View for Rows {
    type V = Map<Seq<char>, RowView>;

    open spec fn view(&self) -> Map<Seq<char>, RowView> {
        map_of(self.pairs())
    }
}

// ---------------------------------------------------------------------
// The state
// ---------------------------------------------------------------------

/// The recorded state of a review.
#[derive(Debug)]
pub struct State {
    pub components: Rows,
}

impl Default for State {
    /// No components.
    fn default() -> (r: State)
        ensures
            r.wf(),
            r.components@ == Map::<Seq<char>, RowView>::empty(),
    {
        State { components: Rows::new() }
    }
}

/// Why a state could not be changed. `T` is the type of the texts in it.
#[derive(Debug)]
pub enum StateError<T> {
    /// There is no such component.
    Unknown { slug: T },
    /// The phases do not follow one another.
    Illegal { slug: T, from: Phase, to: Phase },
}

impl View for StateError<String> {
    type V = StateError<Seq<char>>;

    open spec fn view(&self) -> StateError<Seq<char>> {
        match *self {
            StateError::Unknown { slug } => StateError::Unknown { slug: slug@ },
            StateError::Illegal { slug, from, to } => StateError::Illegal { slug: slug@, from, to },
        }
    }
}

impl StateError<Seq<char>> {
    /// The fault in words.
    pub open spec fn words(self) -> Seq<char> {
        match self {
            StateError::Unknown { slug } => "unknown component "@ + slug,
            StateError::Illegal { slug, from, to } => "illegal transition "@ + slug + ": "@
                + from.word() + " → "@ + to.word(),
        }
    }
}

impl StateError<String> {
    /// The fault in words.
    pub fn message(&self) -> (r: String)
        ensures
            r@ == self@.words(),
    {
        let b: Draft = match self {
            StateError::Unknown { slug } => Draft::of("unknown component ").put(slug.as_str()),
            StateError::Illegal { slug, from, to } => Draft::of("illegal transition ").put(
                slug.as_str(),
            ).put(": ").put(from.as_str()).put(" → ").put(to.as_str()),
        };
        b.text
    }
}

/// What a component that is marked done in the checklist has as its detail.
pub open spec fn marked() -> Seq<char> {
    "marked done in checklist"@
}

/// The row of a component that had none.
pub open spec fn fresh_row(c: ComponentView) -> RowView {
    RowView {
        slug: c.slug,
        name: c.name,
        tier: c.tier,
        phase: if c.done {
            Phase::Done
        } else {
            Phase::Pending
        },
        findings: 0,
        detail: if c.done {
            marked()
        } else {
            Seq::empty()
        },
        paths: c.paths,
        verify: c.verify,
        commit: None,
    }
}

/// A row brought up to date with the checklist: name, tier and commands as
/// listed, the paths too where any are listed. A pending row that is ticked
/// becomes done; a done or failed row that is not ticked starts over.
pub open spec fn refreshed_row(row: RowView, c: ComponentView) -> RowView {
    let base = RowView {
        name: c.name,
        tier: c.tier,
        paths: if c.paths.len() == 0 {
            row.paths
        } else {
            c.paths
        },
        verify: c.verify,
        ..row
    };
    if c.done && row.phase is Pending {
        RowView {
            phase: Phase::Done,
            detail: if row.detail.len() == 0 {
                marked()
            } else {
                row.detail
            },
            ..base
        }
    } else if !c.done && (row.phase is Done || row.phase is Failed) {
        RowView { phase: Phase::Pending, findings: 0, detail: Seq::empty(), ..base }
    } else {
        base
    }
}

/// The slugs of the components.
pub open spec fn slugs(cs: Seq<ComponentView>) -> Seq<Seq<char>> {
    cs.map_values(|c: ComponentView| c.slug)
}

/// The rows after each component has been taken up.
pub open spec fn taken_up(m: Map<Seq<char>, RowView>, cs: Seq<ComponentView>) -> Map<
    Seq<char>,
    RowView,
>
    decreases cs.len(),
{
    if cs.len() == 0 {
        m
    } else {
        let before = taken_up(m, cs.drop_last());
        let c = cs.last();
        if before.dom().contains(c.slug) {
            before.insert(c.slug, refreshed_row(before[c.slug], c))
        } else {
            before.insert(c.slug, fresh_row(c))
        }
    }
}

/// The rows in step with the checklist.
pub open spec fn synced(m: Map<Seq<char>, RowView>, cs: Seq<ComponentView>) -> Map<
    Seq<char>,
    RowView,
> {
    taken_up(restricted(m, slugs(cs)), cs)
}

/// A row as it was before any work.
pub open spec fn restarted_row(row: RowView) -> RowView {
    RowView {
        phase: Phase::Pending,
        findings: 0,
        detail: Seq::empty(),
        commit: None,
        ..row
    }
}

/// A row whose work was interrupted is pending again.
pub open spec fn resumed_row(row: RowView) -> RowView {
    if row.phase.active() {
        RowView { phase: Phase::Pending, ..row }
    } else {
        row
    }
}

fn new_row(c: &Component) -> (r: ComponentState)
    ensures
        r@ == fresh_row(c@),
{
    let detail: String = if c.done {
        owned("marked done in checklist")
    } else {
        String::new()
    };
    let phase: Phase = if c.done {
        Phase::Done
    } else {
        Phase::Pending
    };
    ComponentState {
        slug: c.slug.clone(),
        name: c.name.clone(),
        tier: c.tier.clone(),
        phase,
        findings: 0,
        detail,
        paths: copied(&c.paths),
        verify: copied(&c.verify),
        commit: None,
    }
}

fn refresh_row(row: &mut ComponentState, c: &Component)
    ensures
        final(row)@ == refreshed_row(old(row)@, c@),
{
    row.name = c.name.clone();
    row.tier = c.tier.clone();
    if c.paths.len() > 0 {
        row.paths = copied(&c.paths);
    }
    row.verify = copied(&c.verify);
    if c.done && row.phase == Phase::Pending {
        row.phase = Phase::Done;
        if row.detail.as_str().is_empty() {
            row.detail = owned("marked done in checklist");
        }
    } else if !c.done && (row.phase == Phase::Done || row.phase == Phase::Failed) {
        row.phase = Phase::Pending;
        row.findings = 0;
        row.detail = String::new();
    }
    assert(row@ == refreshed_row(old(row)@, c@));
}

fn restart_row(row: &mut ComponentState)
    ensures
        final(row)@ == restarted_row(old(row)@),
{
    row.phase = Phase::Pending;
    row.findings = 0;
    row.detail = String::new();
    row.commit = None;
    assert(row@ == restarted_row(old(row)@));
}

fn resume_row(row: &mut ComponentState)
    ensures
        final(row)@ == resumed_row(old(row)@),
{
    if row.phase.is_active() {
        row.phase = Phase::Pending;
    }
}

impl State {
    pub open spec fn wf(&self) -> bool {
        self.components.wf()
    }

    /// Brings the rows in step with the checklist: a row for each component,
    /// up to date, and none that the checklist does not list.
    pub fn sync(&mut self, components: &Vec<Component>)
        requires
            old(self).wf(),
        ensures
            final(self).wf(),
            final(self).components@ == synced(
                old(self).components@,
                checklist::views(components@),
            ),
    {
        let ghost all = checklist::views(components@);
        let mut keys: Vec<String> = Vec::new();
        let mut k: usize = 0;
        while k < components.len()
            invariant
                k <= components.len(),
                all == checklist::views(components@),
                text::texts(keys@) == slugs(all).take(k as int),
            decreases components.len() - k,
        {
            let ghost was = text::texts(keys@);
            keys.push(components[k].slug.clone());
            assert(all[k as int] == components@[k as int]@);
            assert(text::texts(keys@) =~= was.push(components@[k as int].slug@));
            assert(slugs(all).take(k as int).push(slugs(all)[k as int]) =~= slugs(all).take(k + 1));
            k = k + 1;
        }
        assert(slugs(all).take(all.len() as int) =~= slugs(all));
        self.components.keep(&keys);
        let ghost start = self.components@;
        let mut i: usize = 0;
        assert(all.take(0) =~= Seq::empty());
        while i < components.len()
            invariant
                i <= components.len(),
                all == checklist::views(components@),
                self.components.wf(),
                self.components@ == taken_up(start, all.take(i as int)),
            decreases components.len() - i,
        {
            let c = &components[i];
            assert(all.take(i + 1).drop_last() =~= all.take(i as int));
            assert(all.take(i + 1).last() == c@);
            let known: bool = self.components.get(c.slug.as_str()).is_some();
            if known {
                if let Some(row) = self.components.get_mut(c.slug.as_str()) {
                    refresh_row(row, c);
                }
            } else {
                self.components.insert(c.slug.clone(), new_row(c));
            }
            i = i + 1;
        }
        assert(all.take(components.len() as int) =~= all);
    }

    /// Puts every component back to pending for a new pass: findings, detail
    /// and commit are cleared, paths and commands stay.
    pub fn restart_all(&mut self)
        requires
            old(self).wf(),
        ensures
            final(self).wf(),
            final(self).components@ == old(self).components@.map_values(
                |r: RowView| restarted_row(r),
            ),
    {
        let ghost was = self.components.pairs();
        self.components.restart();
        proof {
            lemma_mapped(was, self.components.pairs(), |r: RowView| restarted_row(r));
        }
    }

    /// Puts components whose work was interrupted back to pending.
    pub fn reset_active(&mut self)
        requires
            old(self).wf(),
        ensures
            final(self).wf(),
            final(self).components@ == old(self).components@.map_values(
                |r: RowView| resumed_row(r),
            ),
    {
        let ghost was = self.components.pairs();
        self.components.resume();
        proof {
            lemma_mapped(was, self.components.pairs(), |r: RowView| resumed_row(r));
        }
    }

    /// The row of a component.
    pub fn get(&self, slug: &str) -> (r: Option<&ComponentState>)
        requires
            self.wf(),
        ensures
            match r {
                Some(row) => self.components@.dom().contains(slug@) && row@
                    == self.components@[slug@],
                None => !self.components@.dom().contains(slug@),
            },
    {
        self.components.get(slug)
    }

    fn set_phase(&mut self, slug: &str, phase: Phase) -> (r: Result<(), StateError<String>>)
        requires
            old(self).wf(),
        ensures
            final(self).wf(),
            changed(
                old(self).components@,
                final(self).components@,
                slug@,
                |r: RowView| RowView { phase, ..r },
                r,
            ),
    {
        match self.components.get_mut(slug) {
            Some(row) => {
                row.phase = phase;
                Ok(())
            },
            None => Err(StateError::Unknown { slug: owned(slug) }),
        }
    }

    /// Records what happened last to a component.
    pub fn set_detail(&mut self, slug: &str, detail: &str) -> (r: Result<(), StateError<String>>)
        requires
            old(self).wf(),
        ensures
            final(self).wf(),
            changed(
                old(self).components@,
                final(self).components@,
                slug@,
                |r: RowView| RowView { detail: detail@, ..r },
                r,
            ),
    {
        match self.components.get_mut(slug) {
            Some(row) => {
                row.detail = owned(detail);
                Ok(())
            },
            None => Err(StateError::Unknown { slug: owned(slug) }),
        }
    }

    /// Records the number of findings of a component.
    pub fn set_findings(&mut self, slug: &str, n: usize) -> (r: Result<(), StateError<String>>)
        requires
            old(self).wf(),
        ensures
            final(self).wf(),
            changed(
                old(self).components@,
                final(self).components@,
                slug@,
                |r: RowView| RowView { findings: n, ..r },
                r,
            ),
    {
        match self.components.get_mut(slug) {
            Some(row) => {
                row.findings = n;
                Ok(())
            },
            None => Err(StateError::Unknown { slug: owned(slug) }),
        }
    }

    /// Records the commit that holds a component's fix.
    pub fn set_commit(&mut self, slug: &str, hash: &str) -> (r: Result<(), StateError<String>>)
        requires
            old(self).wf(),
        ensures
            final(self).wf(),
            changed(
                old(self).components@,
                final(self).components@,
                slug@,
                |r: RowView| RowView { commit: Some(hash@), ..r },
                r,
            ),
    {
        match self.components.get_mut(slug) {
            Some(row) => {
                row.commit = Some(owned(hash));
                Ok(())
            },
            None => Err(StateError::Unknown { slug: owned(slug) }),
        }
    }

    /// The component to work on next: of the pending ones the one of the
    /// highest tier, then the first by slug.
    pub fn next(&self) -> (r: Option<&ComponentState>)
        requires
            self.wf(),
        ensures
            match r {
                Some(row) => next_row(rows_of(self.components.pairs())) == Some(row@),
                None => next_row(rows_of(self.components.pairs())) is None,
            },
    {
        let ghost all = rows_of(self.components.pairs());
        let mut best: Option<&ComponentState> = None;
        let mut i: usize = 0;
        assert(all.take(0) =~= Seq::empty());
        while i < self.components.len()
            invariant
                i <= self.components.pairs().len(),
                all == rows_of(self.components.pairs()),
                match best {
                    Some(row) => next_row(all.take(i as int)) == Some(row@),
                    None => next_row(all.take(i as int)) is None,
                },
            decreases self.components.pairs().len() - i,
        {
            let row = self.components.row(i);
            assert(all.take(i + 1).drop_last() =~= all.take(i as int));
            assert(all.take(i + 1).last() == row@);
            if row.phase == Phase::Pending {
                match best {
                    Some(held) => {
                        if row_less(row, held) {
                            best = Some(row);
                        }
                    },
                    None => {
                        best = Some(row);
                    },
                }
            }
            i = i + 1;
        }
        assert(all.take(all.len() as int) =~= all);
        best
    }
}

/// What became of the row of `slug`: changed by `f` where there is one, and an
/// error where there is none; every other row as it was.
pub open spec fn changed(
    was: Map<Seq<char>, RowView>,
    now: Map<Seq<char>, RowView>,
    slug: Seq<char>,
    f: spec_fn(RowView) -> RowView,
    r: Result<(), StateError<String>>,
) -> bool {
    if was.dom().contains(slug) {
        r is Ok && now == was.insert(slug, f(was[slug]))
    } else {
        r is Err && r->Err_0@ == (StateError::<Seq<char>>::Unknown { slug }) && now == was
    }
}

/// `a` comes before `b` in the order of work.
pub open spec fn sooner(a: RowView, b: RowView) -> bool {
    checklist::rank_of(a.tier) < checklist::rank_of(b.tier) || checklist::rank_of(a.tier)
        == checklist::rank_of(b.tier) && text::before(a.slug, b.slug)
}

/// The first of the pending rows before which no other comes.
pub open spec fn next_row(rows: Seq<RowView>) -> Option<RowView>
    decreases rows.len(),
{
    if rows.len() == 0 {
        None
    } else {
        let row = rows.last();
        match next_row(rows.drop_last()) {
            Some(held) => if row.phase is Pending && sooner(row, held) {
                Some(row)
            } else {
                Some(held)
            },
            None => if row.phase is Pending {
                Some(row)
            } else {
                None
            },
        }
    }
}

fn row_less(a: &ComponentState, b: &ComponentState) -> (r: bool)
    ensures
        r == sooner(a@, b@),
{
    let x: usize = tier_rank(a.tier.as_str());
    let y: usize = tier_rank(b.tier.as_str());
    x < y || x == y && less(a.slug.as_str(), b.slug.as_str())
}

/// Whether a component may go from one phase to the other.
pub open spec fn may_follow(from: Phase, to: Phase) -> bool {
    match from {
        Phase::Pending => to is Reviewing,
        Phase::Reviewing => to is Fixing || to is Done || to is Failed,
        Phase::Fixing => to is Verifying || to is Failed,
        Phase::Verifying => to is Committing || to is Fixing || to is Failed,
        Phase::Committing => to is Done || to is Failed,
        Phase::Done => false,
        Phase::Failed => to is Pending,
    }
}

/// Whether a component may go from one phase to the other.
pub fn allowed(from: Phase, to: Phase) -> (r: bool)
    ensures
        r == may_follow(from, to),
{
    matches!(
        (from, to),
        (Phase::Pending, Phase::Reviewing)
            | (Phase::Reviewing, Phase::Fixing)
            | (Phase::Reviewing, Phase::Done)
            | (Phase::Reviewing, Phase::Failed)
            | (Phase::Fixing, Phase::Verifying)
            | (Phase::Fixing, Phase::Failed)
            | (Phase::Verifying, Phase::Committing)
            | (Phase::Verifying, Phase::Fixing)
            | (Phase::Verifying, Phase::Failed)
            | (Phase::Committing, Phase::Done)
            | (Phase::Committing, Phase::Failed)
            | (Phase::Failed, Phase::Pending)
    )
}

/// The rows after a transition, or why there is none.
pub open spec fn transited(
    m: Map<Seq<char>, RowView>,
    slug: Seq<char>,
    to: Phase,
) -> Result<Map<Seq<char>, RowView>, StateError<Seq<char>>> {
    if !m.dom().contains(slug) {
        Err(StateError::Unknown { slug })
    } else if !may_follow(m[slug].phase, to) {
        Err(StateError::Illegal { slug, from: m[slug].phase, to })
    } else {
        Ok(m.insert(slug, RowView { phase: to, ..m[slug] }))
    }
}

/// Moves a component to another phase, where the phases may follow one another.
pub fn transition(state: &mut State, slug: &str, to: Phase) -> (r: Result<(), StateError<String>>)
    requires
        old(state).wf(),
    ensures
        final(state).wf(),
        match r {
            Ok(_) => transited(old(state).components@, slug@, to) == Ok::<
                Map<Seq<char>, RowView>,
                StateError<Seq<char>>,
            >(final(state).components@),
            Err(e) => transited(old(state).components@, slug@, to) == Err::<
                Map<Seq<char>, RowView>,
                StateError<Seq<char>>,
            >(e@) && final(state).components@ == old(state).components@,
        },
{
    let from: Phase = match state.get(slug) {
        Some(row) => row.phase,
        None => {
            return Err(StateError::Unknown { slug: owned(slug) });
        },
    };
    if !allowed(from, to) {
        return Err(StateError::Illegal { slug: owned(slug), from, to });
    }
    state.set_phase(slug, to)
}

// ---------------------------------------------------------------------
// Names of files beside the state file
// ---------------------------------------------------------------------

/// The extension of the temporary file of save number `n` of process `pid`.
pub open spec fn tmp_extension_text(pid: nat, n: nat) -> Seq<char> {
    "json.tmp."@ + number::decimal(pid) + "."@ + number::decimal(n)
}

/// The extension of the temporary file of save number `n` of process `pid`.
pub fn tmp_extension(pid: u32, n: u64) -> (r: String)
    ensures
        r@ == tmp_extension_text(pid as nat, n as nat),
{
    Draft::of("json.tmp.").put(to_decimal(pid as u64).as_str()).put(".").put(
        to_decimal(n).as_str(),
    ).text
}

/// The process that wrote the temporary file `name` for the state file `file`:
/// the number behind `.tmp.`, where `name` has that shape.
pub open spec fn owner_of(file: Seq<char>, name: Seq<char>) -> Option<nat> {
    let prefix = file + ".tmp."@;
    if text::begins(name, prefix) {
        number::parsed(
            text::pieces(name.skip(prefix.len() as int), CharSet::One('.'))[0],
            u32::MAX as nat,
        )
    } else {
        None
    }
}

/// The process that wrote the temporary file `name` for the state file `file`.
/// The file is an orphan where that process no longer runs.
pub fn tmp_owner(file: &str, name: &str) -> (r: Option<u32>)
    ensures
        match r {
            Some(pid) => owner_of(file@, name@) == Some(pid as nat),
            None => owner_of(file@, name@) is None,
        },
{
    let prefix = Draft::of(file).put(".tmp.").text;
    match strip_prefix(name, prefix.as_str()) {
        Some(rest) => {
            let parts = split(rest, CharSet::One('.'));
            proof {
                text::lemma_pieces_nonempty(rest@, CharSet::One('.'));
                assert(text::texts(parts@).len() == parts@.len());
                assert(text::texts(parts@)[0] == parts@[0]@);
            }
            match parse_unsigned(parts[0].as_str(), u32::MAX as u64) {
                Some(pid) => Some(pid as u32),
                None => None,
            }
        },
        None => None,
    }
}

/// How many numbered backups there may be.
pub const MAX_BACKUPS: u64 = 10000;

/// The extension of backup number `n` of a state file that could not be read.
pub open spec fn backup_extension_text(n: nat) -> Seq<char> {
    if n == 0 {
        "json.bad"@
    } else if n < MAX_BACKUPS {
        "json.bad."@ + number::decimal(n)
    } else {
        "json.bad.overflow"@
    }
}

/// The first number from `n` on whose backup is not among `taken`.
pub open spec fn free_backup(taken: Seq<Seq<char>>, n: nat) -> nat
    decreases MAX_BACKUPS - n,
{
    if n >= MAX_BACKUPS || !taken.contains(backup_extension_text(n)) {
        n
    } else {
        free_backup(taken, n + 1)
    }
}

/// The extension for the next backup, where the extensions in `taken` are in
/// use: the first numbered one that is free, so that no backup overwrites
/// another, and one of its own where all are in use.
pub fn backup_extension(taken: &Vec<String>) -> (r: String)
    ensures
        r@ == backup_extension_text(free_backup(text::texts(taken@), 0)),
{
    let mut n: u64 = 0;
    while n < MAX_BACKUPS
        invariant
            n <= MAX_BACKUPS,
            free_backup(text::texts(taken@), 0) == free_backup(text::texts(taken@), n as nat),
        decreases MAX_BACKUPS - n,
    {
        let name: String = if n == 0 {
            owned("json.bad")
        } else {
            Draft::of("json.bad.").put(to_decimal(n).as_str()).text
        };
        if !member(taken, name.as_str()) {
            return name;
        }
        n = n + 1;
    }
    owned("json.bad.overflow")
}

// ---------------------------------------------------------------------
// Laws
// ---------------------------------------------------------------------

/// The only way out of quarantine is back to pending, and nothing else leads
/// back to pending; a component that is done stays done.
pub proof fn law_quarantine(from: Phase, to: Phase)
    requires
        may_follow(from, to),
    ensures
        from is Failed <==> to is Pending,
        !(from is Done),
{
}

/// Every phase in which work is under way may fall to quarantine, and no other.
pub proof fn law_every_active_phase_may_fail(from: Phase)
    ensures
        may_follow(from, Phase::Failed) <==> from.active(),
{
}

/// The loop can go on from any recorded state: what was under way is pending
/// again, and nothing else has changed.
pub proof fn law_interrupted_work_is_pending_again(m: Map<Seq<char>, RowView>, k: Seq<char>)
    requires
        m.dom().contains(k),
    ensures
        ({
            let after = m.map_values(|r: RowView| resumed_row(r));
            &&& after.dom() == m.dom()
            &&& !after[k].phase.active()
            &&& m[k].phase.active() ==> after[k] == (RowView { phase: Phase::Pending, ..m[k] })
            &&& !m[k].phase.active() ==> after[k] == m[k]
        }),
{
}

/// The components that wait for work.
pub open spec fn waiting(m: Map<Seq<char>, RowView>) -> Set<Seq<char>> {
    m.dom().filter(|k: Seq<char>| m[k].phase is Pending)
}

/// A new pass takes up every component, and knows of it what it knew before any
/// work.
pub proof fn law_restart_takes_up_everything(m: Map<Seq<char>, RowView>, k: Seq<char>)
    requires
        m.dom().contains(k),
    ensures
        ({
            let after = m.map_values(|r: RowView| restarted_row(r));
            &&& after.dom() == m.dom()
            &&& waiting(after) == m.dom()
            &&& after[k].findings == 0 && after[k].commit is None
            &&& after[k].paths == m[k].paths && after[k].verify == m[k].verify
        }),
{
    let after = m.map_values(|r: RowView| restarted_row(r));
    assert(waiting(after) =~= m.dom());
}

/// A component that is settled, done or parked, no longer waits, and the others
/// wait as before. So a loop that settles what it picks comes to an end.
pub proof fn law_settled_components_wait_no_more(
    m: Map<Seq<char>, RowView>,
    k: Seq<char>,
    row: RowView,
)
    requires
        m.dom().contains(k),
        row.phase is Done || row.phase is Failed,
    ensures
        waiting(m.insert(k, row)) == waiting(m).remove(k),
{
    assert(waiting(m.insert(k, row)) =~= waiting(m).remove(k));
}

proof fn lemma_taken_up_domain(m: Map<Seq<char>, RowView>, cs: Seq<ComponentView>, k: Seq<char>)
    ensures
        taken_up(m, cs).dom().contains(k) <==> m.dom().contains(k) || slugs(cs).contains(k),
        !slugs(cs).contains(k) && m.dom().contains(k) ==> taken_up(m, cs)[k] == m[k],
    decreases cs.len(),
{
    let all = slugs(cs);
    if cs.len() > 0 {
        let front = slugs(cs.drop_last());
        lemma_taken_up_domain(m, cs.drop_last(), k);
        assert(all =~= front.push(cs.last().slug));
        if front.contains(k) {
            let i = choose|i: int| 0 <= i < front.len() && front[i] == k;
            assert(all[i] == k);
        }
        if all.contains(k) && k != cs.last().slug {
            let i = choose|i: int| 0 <= i < all.len() && all[i] == k;
            assert(front[i] == k);
        }
        assert(all[all.len() - 1] == cs.last().slug);
    }
}

/// After a sync there is a row for each component of the checklist and for
/// nothing else.
pub proof fn law_sync_lists_the_checklist(
    m: Map<Seq<char>, RowView>,
    cs: Seq<ComponentView>,
    slug: Seq<char>,
)
    ensures
        synced(m, cs).dom().contains(slug) <==> slugs(cs).contains(slug),
{
    lemma_taken_up_domain(restricted(m, slugs(cs)), cs, slug);
}

/// No two components have the same slug.
pub open spec fn distinct_slugs(cs: Seq<ComponentView>) -> bool {
    forall|i: int, j: int|
        0 <= i < j < cs.len() ==> (#[trigger] cs[i]).slug != (#[trigger] cs[j]).slug
}

proof fn lemma_taken_up_row(m: Map<Seq<char>, RowView>, cs: Seq<ComponentView>, i: int)
    requires
        distinct_slugs(cs),
        0 <= i < cs.len(),
    ensures
        taken_up(m, cs).dom().contains(cs[i].slug),
        taken_up(m, cs)[cs[i].slug] == (if m.dom().contains(cs[i].slug) {
            refreshed_row(m[cs[i].slug], cs[i])
        } else {
            fresh_row(cs[i])
        }),
    decreases cs.len(),
{
    let front = cs.drop_last();
    if i < cs.len() - 1 {
        assert(distinct_slugs(front));
        lemma_taken_up_row(m, front, i);
        assert(cs[i].slug != cs[cs.len() - 1].slug);
    } else {
        let k = cs[i].slug;
        lemma_taken_up_domain(m, front, k);
        if slugs(front).contains(k) {
            let j = choose|j: int| 0 <= j < slugs(front).len() && slugs(front)[j] == k;
            assert(cs[j].slug == k);
        }
    }
}

/// What a sync makes of each component: its row brought up to date where it
/// has one, a fresh row where it has none. Progress is kept: a row under work
/// keeps its phase, findings, detail and commit.
pub proof fn law_sync_keeps_progress(m: Map<Seq<char>, RowView>, cs: Seq<ComponentView>, i: int)
    requires
        distinct_slugs(cs),
        0 <= i < cs.len(),
    ensures
        !m.dom().contains(cs[i].slug) ==> synced(m, cs)[cs[i].slug] == fresh_row(cs[i]),
        m.dom().contains(cs[i].slug) ==> synced(m, cs)[cs[i].slug] == refreshed_row(
            m[cs[i].slug],
            cs[i],
        ),
        m.dom().contains(cs[i].slug) && m[cs[i].slug].phase.active() ==> ({
            let was = m[cs[i].slug];
            let now = synced(m, cs)[cs[i].slug];
            now.phase == was.phase && now.findings == was.findings && now.detail == was.detail
                && now.commit == was.commit
        }),
{
    let k = cs[i].slug;
    assert(slugs(cs)[i] == k);
    lemma_taken_up_row(restricted(m, slugs(cs)), cs, i);
}

/// A second sync with the same checklist changes nothing.
pub proof fn law_sync_twice(m: Map<Seq<char>, RowView>, cs: Seq<ComponentView>)
    requires
        distinct_slugs(cs),
    ensures
        synced(synced(m, cs), cs) == synced(m, cs),
{
    let once = synced(m, cs);
    let twice = synced(once, cs);
    assert forall|k: Seq<char>| #[trigger] twice.dom().contains(k) == once.dom().contains(k) by {
        law_sync_lists_the_checklist(m, cs, k);
        law_sync_lists_the_checklist(once, cs, k);
    }
    assert forall|k: Seq<char>| #[trigger] twice.dom().contains(k) implies twice[k] == once[k] by {
        law_sync_lists_the_checklist(m, cs, k);
        law_sync_lists_the_checklist(once, cs, k);
        let i = choose|i: int| 0 <= i < slugs(cs).len() && slugs(cs)[i] == k;
        assert(cs[i].slug == k);
        law_sync_keeps_progress(m, cs, i);
        law_sync_keeps_progress(once, cs, i);
        let row = once[k];
        assert(refreshed_row(row, cs[i]) == row);
    }
    assert(twice =~= once);
}

proof fn lemma_sooner(a: RowView, b: RowView, c: RowView)
    ensures
        !sooner(a, b) && !sooner(b, c) ==> !sooner(a, c),
        !sooner(a, a),
        sooner(a, b) ==> !sooner(b, a),
{
    text::lemma_before_strict(a.slug, b.slug);
    text::lemma_before_total(a.slug, b.slug);
    text::lemma_before_total(b.slug, c.slug);
    text::lemma_before_strict(a.slug, c.slug);
    text::lemma_before_strict(b.slug, c.slug);
    if text::before(b.slug, a.slug) && text::before(c.slug, b.slug) {
        text::lemma_before_transitive(c.slug, b.slug, a.slug);
    }
}

/// The component to work on next is a pending one, and no pending one comes
/// before it; there is none only where nothing is pending.
pub proof fn law_next_is_the_first_pending(rows: Seq<RowView>)
    ensures
        match next_row(rows) {
            Some(row) => {
                &&& row.phase is Pending
                &&& rows.contains(row)
                &&& forall|i: int|
                    0 <= i < rows.len() && rows[i].phase is Pending ==> !sooner(
                        #[trigger] rows[i],
                        row,
                    )
            },
            None => forall|i: int| 0 <= i < rows.len() ==> !((#[trigger] rows[i]).phase is Pending),
        },
    decreases rows.len(),
{
    if rows.len() > 0 {
        let front = rows.drop_last();
        let last = rows.last();
        law_next_is_the_first_pending(front);
        assert(rows[rows.len() - 1] == last);
        match next_row(front) {
            Some(held) => {
                let at = choose|i: int| 0 <= i < front.len() && front[i] == held;
                assert(rows[at] == held);
                let row = next_row(rows)->Some_0;
                assert forall|i: int| 0 <= i < rows.len() && rows[i].phase is Pending implies !sooner(
                    #[trigger] rows[i],
                    row,
                ) by {
                    lemma_sooner(last, held, last);
                    if i < front.len() {
                        assert(front[i] == rows[i]);
                        lemma_sooner(rows[i], held, last);
                    } else {
                        lemma_sooner(last, last, last);
                    }
                }
            },
            None => {
                assert forall|i: int| 0 <= i < front.len() implies !((#[trigger] rows[i]).phase is Pending) by {
                    assert(front[i] == rows[i]);
                }
                lemma_sooner(last, last, last);
            },
        }
    }
}

proof fn lemma_first_piece(a: Seq<char>, b: Seq<char>)
    requires
        !text::has_char(a, CharSet::One('.')),
    ensures
        text::pieces(a + seq!['.'] + b, CharSet::One('.'))[0] == a,
    decreases b.len(),
{
    let dot = CharSet::One('.');
    let s = a + seq!['.'] + b;
    if b.len() == 0 {
        assert(s =~= a.push('.'));
        let e = Seq::<char>::empty();
        roundtrip::lemma_pieces_extend(e, a, dot);
        assert(e + a =~= a);
        assert(text::pieces(e, dot) =~= seq![e]);
        assert(s.drop_last() =~= a);
        assert(text::pieces(a, dot) =~= seq![a]);
    } else {
        lemma_first_piece(a, b.drop_last());
        assert(s.drop_last() =~= a + seq!['.'] + b.drop_last());
        text::lemma_pieces_nonempty(s.drop_last(), dot);
        let p = text::pieces(s.drop_last(), dot);
        lemma_second_piece(a, b.drop_last());
    }
}

proof fn lemma_second_piece(a: Seq<char>, b: Seq<char>)
    ensures
        text::pieces(a + seq!['.'] + b, CharSet::One('.')).len() >= 2,
    decreases b.len(),
{
    let dot = CharSet::One('.');
    let s = a + seq!['.'] + b;
    if b.len() == 0 {
        assert(s =~= a.push('.'));
        assert(s.drop_last() =~= a);
        text::lemma_pieces_nonempty(a, dot);
    } else {
        lemma_second_piece(a, b.drop_last());
        assert(s.drop_last() =~= a + seq!['.'] + b.drop_last());
    }
}

/// The temporary names of saves are among those by which orphans are found:
/// the owner of such a file is the process that wrote it.
pub proof fn law_tmp_files_name_their_owner(stem: Seq<char>, pid: u32, n: u64)
    ensures
        owner_of(
            stem + ".json"@,
            stem + "."@ + tmp_extension_text(pid as nat, n as nat),
        ) == Some(pid as nat),
{
    reveal_strlit(".json");
    reveal_strlit(".");
    reveal_strlit("json.tmp.");
    reveal_strlit(".tmp.");
    let d = number::decimal(pid as nat);
    let e = number::decimal(n as nat);
    let name = stem + "."@ + tmp_extension_text(pid as nat, n as nat);
    let prefix = stem + ".json"@ + ".tmp."@;
    let rest = d + seq!['.'] + e;
    assert(name =~= prefix + rest);
    assert(name.subrange(0, prefix.len() as int) =~= prefix);
    assert(name.skip(prefix.len() as int) =~= rest);
    number::lemma_decimal(pid as nat);
    assert forall|i: int| 0 <= i < d.len() implies !CharSet::One('.').has(#[trigger] d[i]) by {
        assert(text::is_digit(d[i]));
    }
    lemma_first_piece(d, e);
    assert(d[0] != '+') by {
        assert(text::is_digit(d[0]));
    }
}

/// The order of the phases: from pending to review, from review to the fixer,
/// to done or to quarantine, from the fixer to the checks, from the checks to
/// the commit or back to the fixer, and from the commit to done; all work may
/// fail, and only what failed may be pending again.
pub proof fn law_order_of_phases(from: Phase, to: Phase)
    ensures
        may_follow(from, to) <==> {
            ||| from is Pending && to is Reviewing
            ||| from is Reviewing && (to is Fixing || to is Done)
            ||| from is Fixing && to is Verifying
            ||| from is Verifying && (to is Committing || to is Fixing)
            ||| from is Committing && to is Done
            ||| to is Failed && (from is Reviewing || from is Fixing || from is Verifying
                || from is Committing)
            ||| from is Failed && to is Pending
        },
        from.active() <==> from is Reviewing || from is Fixing || from is Verifying
            || from is Committing,
{
}

/// A transition changes the phase of one component and nothing else; it is
/// refused, and nothing changes, where there is no such component or the phases
/// do not follow one another.
pub proof fn law_transitions_change_one_phase(
    m: Map<Seq<char>, RowView>,
    slug: Seq<char>,
    to: Phase,
    other: Seq<char>,
)
    ensures
        transited(m, slug, to) is Ok <==> m.dom().contains(slug) && may_follow(m[slug].phase, to),
        transited(m, slug, to) matches Ok(n) ==> {
            &&& n.dom() == m.dom()
            &&& n[slug] == (RowView { phase: to, ..m[slug] })
            &&& other != slug && m.dom().contains(other) ==> n[other] == m[other]
        },
        !m.dom().contains(slug) ==> transited(m, slug, to) == Err::<
            Map<Seq<char>, RowView>,
            StateError<Seq<char>>,
        >(StateError::Unknown { slug }),
        m.dom().contains(slug) && !may_follow(m[slug].phase, to) ==> transited(m, slug, to) == Err::<
            Map<Seq<char>, RowView>,
            StateError<Seq<char>>,
        >(StateError::Illegal { slug, from: m[slug].phase, to }),
{
    if let Ok(n) = transited(m, slug, to) {
        assert(n.dom() =~= m.dom());
    }
}

/// A component that is new to the state starts as the checklist has it: pending,
/// or done where it is ticked, without findings and without a commit.
pub proof fn law_new_rows(c: ComponentView)
    ensures
        ({
            let r = fresh_row(c);
            &&& r.slug == c.slug && r.name == c.name && r.tier == c.tier && r.paths == c.paths
                && r.verify == c.verify
            &&& r.phase is Done <==> c.done
            &&& r.phase is Pending <==> !c.done
            &&& r.findings == 0 && r.commit is None
            &&& c.done ==> r.detail == "marked done in checklist"@
            &&& !c.done ==> r.detail.len() == 0
        }),
{
}

/// What the checklist says of a component wins over its row: the name, the tier
/// and the commands, and the paths where it lists any. A tick finishes what is
/// pending, and taking the tick away starts what is settled over; anything else
/// leaves the progress as it is.
pub proof fn law_rows_follow_the_checklist(row: RowView, c: ComponentView)
    ensures
        ({
            let r = refreshed_row(row, c);
            &&& r.slug == row.slug && r.name == c.name && r.tier == c.tier && r.verify == c.verify
            &&& c.paths.len() > 0 ==> r.paths == c.paths
            &&& c.paths.len() == 0 ==> r.paths == row.paths
            &&& r.commit == row.commit
            &&& c.done && row.phase is Pending ==> r.phase is Done && r.findings == row.findings
                && (row.detail.len() > 0 ==> r.detail == row.detail) && (row.detail.len() == 0
                ==> r.detail == "marked done in checklist"@)
            &&& !c.done && (row.phase is Done || row.phase is Failed) ==> r.phase is Pending
                && r.findings == 0 && r.detail.len() == 0
            &&& (c.done && !(row.phase is Pending)) || (!c.done && !(row.phase is Done)
                && !(row.phase is Failed)) ==> r.phase == row.phase && r.findings == row.findings
                && r.detail == row.detail
        }),
{
}

/// A new pass forgets what came of a component and keeps what it is.
pub proof fn law_restarted_rows(row: RowView)
    ensures
        restarted_row(row) == (RowView {
            slug: row.slug,
            name: row.name,
            tier: row.tier,
            phase: Phase::Pending,
            findings: 0,
            detail: Seq::empty(),
            paths: row.paths,
            verify: row.verify,
            commit: None,
        }),
        row.phase is Reviewing || row.phase is Fixing || row.phase is Verifying
            || row.phase is Committing ==> resumed_row(row) == (RowView {
            phase: Phase::Pending,
            ..row
        }),
        row.phase is Pending || row.phase is Done || row.phase is Failed ==> resumed_row(row)
            == row,
{
}

/// Work is taken up tier by tier, high before medium before low, and within a
/// tier in the order of the slugs.
pub proof fn law_high_tiers_come_first(rows: Seq<RowView>, i: int)
    requires
        0 <= i < rows.len(),
        rows[i].phase is Pending,
    ensures
        next_row(rows) matches Some(row) && {
            &&& row.phase is Pending
            &&& rows[i].tier == "high"@ ==> row.tier == "high"@
            &&& rows[i].tier == "medium"@ ==> row.tier == "high"@ || row.tier == "medium"@
            &&& rows[i].tier == "low"@ ==> row.tier == "high"@ || row.tier == "medium"@ || row.tier
                == "low"@
            &&& rows[i].tier == row.tier ==> !text::before(rows[i].slug, row.slug)
        },
{
    reveal_strlit("high");
    reveal_strlit("medium");
    reveal_strlit("low");
    assert("high"@.len() == 4 && "medium"@.len() == 6 && "low"@.len() == 3);
    law_next_is_the_first_pending(rows);
    assert(!(next_row(rows) is None));
    assert(!sooner(rows[i], next_row(rows)->Some_0));
}

/// A backup takes the first name that is free and none that is in use, as long
/// as any is free.
pub proof fn law_backups_overwrite_nothing(taken: Seq<Seq<char>>, n: nat)
    requires
        n <= MAX_BACKUPS,
    ensures
        n <= free_backup(taken, n) <= MAX_BACKUPS,
        free_backup(taken, n) < MAX_BACKUPS ==> !taken.contains(
            backup_extension_text(free_backup(taken, n)),
        ),
        forall|k: nat|
            n <= k < free_backup(taken, n) ==> taken.contains(#[trigger] backup_extension_text(k)),
    decreases MAX_BACKUPS - n,
{
    if n < MAX_BACKUPS && taken.contains(backup_extension_text(n)) {
        law_backups_overwrite_nothing(taken, n + 1);
    }
}

/// Backups have numbered names: the first none, the others theirs.
pub proof fn law_names_of_backups(n: nat)
    ensures
        backup_extension_text(0) == "json.bad"@,
        0 < n < 10000 ==> backup_extension_text(n) == "json.bad."@ + number::decimal(n),
        n >= 10000 ==> backup_extension_text(n) == "json.bad.overflow"@,
        tmp_extension_text(n, n + 1) == "json.tmp."@ + number::decimal(n) + "."@ + number::decimal(
            n + 1,
        ),
{
}

/// A phase has one word and a word one phase.
pub proof fn law_words_of_phases(a: Phase, b: Phase)
    ensures
        a.word() == b.word() ==> a == b,
        Phase::Pending.word() == "pending"@ && Phase::Reviewing.word() == "reviewing"@
            && Phase::Fixing.word() == "fixing"@ && Phase::Verifying.word() == "verifying"@
            && Phase::Committing.word() == "committing"@ && Phase::Done.word() == "done"@
            && Phase::Failed.word() == "failed"@,
{
    reveal_strlit("pending");
    reveal_strlit("reviewing");
    reveal_strlit("fixing");
    reveal_strlit("verifying");
    reveal_strlit("committing");
    reveal_strlit("done");
    reveal_strlit("failed");
    assert(a.word()[0] == b.word()[0] && a.word()[1] == b.word()[1] && a.word().len()
        == b.word().len() ==> a == b);
}

/// Rows that the checklist no longer lists are dropped; every other row is kept
/// as it is.
pub proof fn law_listed_rows_are_kept(m: Map<Seq<char>, RowView>, keys: Seq<Seq<char>>, k: Seq<char>)
    ensures
        restricted(m, keys).dom().contains(k) <==> m.dom().contains(k) && keys.contains(k),
        restricted(m, keys).dom().contains(k) ==> restricted(m, keys)[k] == m[k],
{
}

/// A change of one row changes that row alone, and a row that is not there is
/// not made: the component is told as unknown and nothing is changed.
pub proof fn law_changes_touch_one_row(
    was: Map<Seq<char>, RowView>,
    now: Map<Seq<char>, RowView>,
    slug: Seq<char>,
    other: Seq<char>,
    f: spec_fn(RowView) -> RowView,
    r: Result<(), StateError<String>>,
)
    requires
        changed(was, now, slug, f, r),
    ensures
        r is Ok <==> was.dom().contains(slug),
        now.dom() == was.dom(),
        was.dom().contains(slug) ==> now[slug] == f(was[slug]),
        other != slug && was.dom().contains(other) ==> now[other] == was[other],
        r matches Err(e) ==> e@ == (StateError::<Seq<char>>::Unknown { slug }),
{
    if was.dom().contains(slug) {
        assert(was.insert(slug, f(was[slug])).dom() =~= was.dom());
    }
}

/// A fault names the component, and an illegal transition both of its phases.
pub proof fn law_faults_of_a_state_in_words(slug: Seq<char>, from: Phase, to: Phase)
    ensures
        (StateError::<Seq<char>>::Unknown { slug }).words() == "unknown component "@ + slug,
        (StateError::<Seq<char>>::Illegal { slug, from, to }).words() == "illegal transition "@ + slug
            + ": "@ + from.word() + " → "@ + to.word(),
{
}

} // verus!
