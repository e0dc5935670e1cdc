//! What the harness asks of git. The harness commits, the agents never do.

use vstd::prelude::*;
use crate::clock;
use crate::clock::{now_formatted, STAMP_FORM};
use crate::config;
use crate::config::{ConfigError, TomlView};
use crate::number;
use crate::number::to_signed;
use crate::text;
use crate::text::{
    below_bytes, contains_char, drop_empty, find_byte, from_lossy, join, member, owned, replace, same,
    split, starts_with, trim, trim_start_text, CharSet, Draft,
};

verus! {

// ---------------------------------------------------------------------
// Settings
// ---------------------------------------------------------------------

/// A switch in the settings: off where the file, the section or the key is not
/// there; nothing where it holds something else than a boolean.
pub open spec fn switch(doc: TomlView, section: Seq<char>, key: Seq<char>) -> Result<
    bool,
    Seq<char>,
> {
    match doc.member(section) {
        None => Ok(false),
        Some(s) => match s.member(key) {
            None => Ok(false),
            Some(TomlView::Boolean(b)) => Ok(b),
            Some(v) => Err(v.kind_name()),
        },
    }
}

/// The switch under `section` and `key` in a document, or the kind of value that
/// stands there in its place.
pub fn read_switch(doc: &toml::Value, section: &str, key: &str) -> (r: Result<bool, String>)
    ensures
        match r {
            Ok(b) => switch(config::toml_view(*doc), section@, key@) == Ok::<bool, Seq<char>>(b),
            Err(found) => switch(config::toml_view(*doc), section@, key@) == Err::<bool, Seq<char>>(
                found@,
            ),
        },
{
    match config::get(doc, section) {
        None => Ok(false),
        Some(s) => match config::get(s, key) {
            None => Ok(false),
            Some(v) => match config::as_bool(v) {
                Some(b) => Ok(b),
                None => Err(config::kind_name(v)),
            },
        },
    }
}

/// How commits are made.
#[derive(Debug, Clone, Copy)]
pub struct CommitConfig {
    /// Whether commits are signed. Off by default: a prompt for a passphrase
    /// would hang the loop.
    pub sign: bool,
}

/// Whether commits are signed, by the settings file.
pub open spec fn sign_in(content: Option<Seq<char>>) -> Result<bool, ConfigError<Seq<char>>> {
    match content {
        None => Ok(false),
        Some(t) => match config::toml_document(t) {
            Err(detail) => Err(ConfigError::Syntax { detail }),
            Ok(doc) => match switch(doc, "commit"@, "sign"@) {
                Ok(b) => Ok(b),
                Err(found) => Err(ConfigError::SignNotBoolean { found }),
            },
        },
    }
}

impl CommitConfig {
    /// Reads the settings file; its defaults where there is none.
    pub fn load(content: Option<&str>) -> (r: Result<CommitConfig, ConfigError<String>>)
        ensures
            match r {
                Ok(c) => sign_in(text::opt_str(content)) == Ok::<bool, ConfigError<Seq<char>>>(
                    c.sign,
                ),
                Err(e) => sign_in(text::opt_str(content)) == Err::<bool, ConfigError<Seq<char>>>(
                    e@,
                ),
            },
    {
        match content {
            None => Ok(CommitConfig { sign: false }),
            Some(t) => match config::parse_toml(t) {
                Err(detail) => Err(ConfigError::Syntax { detail }),
                Ok(doc) => match read_switch(&doc, "commit", "sign") {
                    Ok(sign) => Ok(CommitConfig { sign }),
                    Err(found) => Err(ConfigError::SignNotBoolean { found }),
                },
            },
        }
    }
}

/// Where commits go.
#[derive(Debug, Clone, Copy)]
pub struct BranchConfig {
    /// Whether a run has a branch of its own.
    pub dedicated: bool,
}

/// Whether a run has a branch of its own, by the settings file.
pub open spec fn dedicated_in(content: Option<Seq<char>>) -> Result<
    bool,
    ConfigError<Seq<char>>,
> {
    match content {
        None => Ok(false),
        Some(t) => match config::toml_document(t) {
            Err(detail) => Err(ConfigError::Syntax { detail }),
            Ok(doc) => match switch(doc, "branch"@, "dedicated"@) {
                Ok(b) => Ok(b),
                Err(found) => Err(ConfigError::DedicatedNotBoolean { found }),
            },
        },
    }
}

impl BranchConfig {
    /// Reads the settings file; its defaults where there is none.
    pub fn load(content: Option<&str>) -> (r: Result<BranchConfig, ConfigError<String>>)
        ensures
            match r {
                Ok(c) => dedicated_in(text::opt_str(content)) == Ok::<bool, ConfigError<Seq<char>>>(
                    c.dedicated,
                ),
                Err(e) => dedicated_in(text::opt_str(content)) == Err::<
                    bool,
                    ConfigError<Seq<char>>,
                >(e@),
            },
    {
        match content {
            None => Ok(BranchConfig { dedicated: false }),
            Some(t) => match config::parse_toml(t) {
                Err(detail) => Err(ConfigError::Syntax { detail }),
                Ok(doc) => match read_switch(&doc, "branch", "dedicated") {
                    Ok(dedicated) => Ok(BranchConfig { dedicated }),
                    Err(found) => Err(ConfigError::DedicatedNotBoolean { found }),
                },
            },
        }
    }
}

// ---------------------------------------------------------------------
// What git prints
// ---------------------------------------------------------------------

/// The exit code of a process as it is printed for debugging; none for a
/// process that a signal ended.
pub open spec fn code_text(code: Option<i32>) -> Seq<char> {
    match code {
        Some(n) => "Some("@ + number::signed(n as int) + ")"@,
        None => "None"@,
    }
}

/// The exit code of a process as it is printed for debugging.
pub fn show_code(code: Option<i32>) -> (r: String)
    ensures
        r@ == code_text(code),
{
    match code {
        Some(n) => Draft::of("Some(").put(to_signed(n).as_str()).put(")").text,
        None => owned("None"),
    }
}

/// The report of a git command that failed.
pub open spec fn failure_text(args: Seq<Seq<char>>, code: Option<i32>, stderr: Seq<u8>) -> Seq<
    char,
> {
    "git "@ + text::joined(args, " "@) + " failed (exit "@ + code_text(code) + "): "@
        + text::trimmed(text::lossy(stderr))
}

/// The report of a git command that failed.
pub fn failure(args: &Vec<String>, code: Option<i32>, stderr: &[u8]) -> (r: String)
    ensures
        r@ == failure_text(text::texts(args@), code, stderr@),
{
    let shown: String = show_code(code);
    let told = from_lossy(stderr);
    Draft::of("git ").put(join(args, " ").as_str()).put(" failed (exit ").put(shown.as_str()).put(
        "): ",
    ).put(trim(told.as_str())).text
}

/// What git printed, without the white space around it.
pub fn printed(stdout: &[u8]) -> (r: String)
    ensures
        r@ == text::trimmed(text::lossy(stdout@)),
{
    let told = from_lossy(stdout);
    owned(trim(told.as_str()))
}

/// The records that git printed, each ended by a null character. Only in this
/// form are paths printed as they are.
pub fn records(stdout: &[u8]) -> (r: Vec<String>)
    ensures
        text::texts(r@) == text::filled(
            text::pieces(text::lossy(stdout@), CharSet::One('\u{0}')),
        ),
{
    let told = from_lossy(stdout);
    drop_empty(split(told.as_str(), CharSet::One('\u{0}')))
}

/// Why a repository without a commit is refused.
pub const NO_HEAD: &'static str = "this repository has no commits yet — gaggle needs at least one commit (its diff/reset/commit machinery keys off HEAD). Make an initial commit and re-run.";

/// Refuses a repository without a commit, by whether git found one.
pub fn require_head(found: bool) -> (r: Result<(), &'static str>)
    ensures
        found ==> r is Ok,
        !found ==> r is Err && r->Err_0@ == NO_HEAD@,
{
    if found {
        Ok(())
    } else {
        Err(NO_HEAD)
    }
}

/// The name of the current branch, from what git printed: none where HEAD is
/// detached.
pub open spec fn branch_in(stdout: Seq<u8>) -> Option<Seq<char>> {
    let name = text::trimmed(text::lossy(stdout));
    if name.len() == 0 {
        None
    } else {
        Some(name)
    }
}

/// The name of the current branch, from what git printed.
pub fn current_branch(stdout: &[u8]) -> (r: Option<String>)
    ensures
        text::opt(r) == branch_in(stdout@),
{
    let name = printed(stdout);
    if name.as_str().is_empty() {
        None
    } else {
        Some(name)
    }
}

/// What the names of the branches of runs begin with.
pub const RUN_BRANCH_PREFIX: &'static str = "gaggle/run-";

/// The branch of a run. `T` is the type of names.
#[derive(Debug)]
pub enum RunBranch<T> {
    /// The branch that is checked out, whichever it is.
    Current,
    /// The branch of an earlier part of the same run.
    Reuse(T),
    /// A new one.
    Create(T),
}

impl View for RunBranch<String> {
    type V = RunBranch<Seq<char>>;

    open spec fn view(&self) -> RunBranch<Seq<char>> {
        match *self {
            RunBranch::Current => RunBranch::Current,
            RunBranch::Reuse(name) => RunBranch::Reuse(name@),
            RunBranch::Create(name) => RunBranch::Create(name@),
        }
    }
}

/// The branch of a run that starts at `stamp`.
pub open spec fn run_branch(dedicated: bool, current: Option<Seq<char>>, stamp: Seq<char>) -> RunBranch<
    Seq<char>,
> {
    if !dedicated {
        RunBranch::Current
    } else if current is Some && text::begins(current->Some_0, RUN_BRANCH_PREFIX@) {
        RunBranch::Reuse(current->Some_0)
    } else {
        RunBranch::Create(RUN_BRANCH_PREFIX@ + stamp)
    }
}

/// The branch of a run: one of its own where the settings ask for it, and then
/// that of an earlier part of the same run where it is checked out.
pub fn ensure_run_branch(cfg: &BranchConfig, current: Option<&str>) -> (r: RunBranch<String>)
    ensures
        exists|s: Seq<char>| #[trigger]
            clock::stamp(s) && r@ == run_branch(cfg.dedicated, text::opt_str(current), s),
{
    let stamp = now_formatted(STAMP_FORM);
    let r = run_branch_at(cfg, current, stamp.as_str());
    assert(clock::stamp(stamp@) && r@ == run_branch(
        cfg.dedicated,
        text::opt_str(current),
        stamp@,
    ));
    r
}

/// The branch of a run that starts at `stamp`.
pub fn run_branch_at(cfg: &BranchConfig, current: Option<&str>, stamp: &str) -> (r: RunBranch<
    String,
>)
    ensures
        r@ == run_branch(cfg.dedicated, text::opt_str(current), stamp@),
{
    if !cfg.dedicated {
        return RunBranch::Current;
    }
    if let Some(name) = current {
        if starts_with(name, RUN_BRANCH_PREFIX) {
            return RunBranch::Reuse(owned(name));
        }
    }
    RunBranch::Create(Draft::of(RUN_BRANCH_PREFIX).put(stamp).text)
}

/// A resumed run keeps the branch that it was given.
pub proof fn law_run_branch_is_kept(current: Option<Seq<char>>, stamp: Seq<char>, later: Seq<char>)
    ensures
        run_branch(true, current, stamp) matches RunBranch::Create(name) ==> run_branch(
            true,
            Some(name),
            later,
        ) == RunBranch::Reuse(name),
{
    let name = RUN_BRANCH_PREFIX@ + stamp;
    assert(name.subrange(0, RUN_BRANCH_PREFIX@.len() as int) =~= RUN_BRANCH_PREFIX@);
}

/// The branch that is made for a run is told from every other by its prefix, and
/// behind that holds nothing but digits, a hyphen and perhaps a sign.
pub proof fn law_new_branch_names_are_plain(current: Option<Seq<char>>, stamp: Seq<char>)
    requires
        clock::stamp(stamp),
    ensures
        run_branch(true, current, stamp) matches RunBranch::Create(name) ==> {
            let rest = name.skip(RUN_BRANCH_PREFIX@.len() as int);
            &&& text::begins(name, RUN_BRANCH_PREFIX@)
            &&& rest == stamp
            &&& forall|i: int|
                0 <= i < rest.len() ==> text::is_digit(#[trigger] rest[i]) || rest[i] == '-'
                    || rest[i] == '+'
        },
{
    let name = RUN_BRANCH_PREFIX@ + stamp;
    assert(name.subrange(0, RUN_BRANCH_PREFIX@.len() as int) =~= RUN_BRANCH_PREFIX@);
    assert(name.skip(RUN_BRANCH_PREFIX@.len() as int) =~= stamp);
}

// ---------------------------------------------------------------------
// Paths
// ---------------------------------------------------------------------

/// The path is in the directory of the harness.
pub open spec fn harness_path(p: Seq<char>) -> bool {
    let q = text::replaced(
        text::without_prefixes(text::trimmed(p), "./"@),
        CharSet::One('\\'),
        "/"@,
    );
    q == ".review"@ || text::begins(q, ".review/"@)
}

/// Whether the path is in the directory of the harness.
pub fn is_harness_path(p: &str) -> (r: bool)
    ensures
        r == harness_path(p@),
{
    proof {
        reveal_strlit("./");
    }
    let q = replace(trim_start_text(trim(p), "./"), CharSet::One('\\'), "/");
    same(q.as_str(), ".review") || starts_with(q.as_str(), ".review/")
}

/// The paths that are not the harness's own.
pub open spec fn foreign(paths: Seq<Seq<char>>) -> Seq<Seq<char>>
    decreases paths.len(),
{
    if paths.len() == 0 {
        Seq::empty()
    } else if harness_path(paths.last()) {
        foreign(paths.drop_last())
    } else {
        foreign(paths.drop_last()).push(paths.last())
    }
}

/// `base` and behind it the paths that are neither the harness's own nor there
/// already.
pub open spec fn with_new(base: Seq<Seq<char>>, paths: Seq<Seq<char>>) -> Seq<Seq<char>>
    decreases paths.len(),
{
    if paths.len() == 0 {
        base
    } else {
        let before = with_new(base, paths.drop_last());
        if harness_path(paths.last()) || before.contains(paths.last()) {
            before
        } else {
            before.push(paths.last())
        }
    }
}

/// The paths with uncommitted changes outside the directory of the harness:
/// known paths that differ from HEAD, then untracked ones.
pub fn dirty_paths(changed: &Vec<String>, untracked: &Vec<String>) -> (r: Vec<String>)
    ensures
        text::texts(r@) == with_new(
            foreign(text::texts(changed@)),
            text::texts(untracked@),
        ),
{
    let mut out: Vec<String> = Vec::new();
    assert(text::texts(out@) =~= Seq::empty());
    let ghost all = text::texts(changed@);
    let mut i: usize = 0;
    assert(all.take(0) =~= Seq::empty());
    while i < changed.len()
        invariant
            i <= changed.len(),
            all == text::texts(changed@),
            text::texts(out@) == foreign(all.take(i as int)),
        decreases changed.len() - i,
    {
        assert(all.take(i + 1).drop_last() =~= all.take(i as int));
        assert(all[i as int] == changed@[i as int]@);
        let p = changed[i].as_str();
        if !is_harness_path(p) {
            let ghost was = text::texts(out@);
            out.push(owned(p));
            assert(text::texts(out@) =~= was.push(p@));
        }
        i = i + 1;
    }
    assert(all.take(all.len() as int) =~= all);
    let ghost base = text::texts(out@);
    let ghost more = text::texts(untracked@);
    let mut k: usize = 0;
    assert(more.take(0) =~= Seq::empty());
    while k < untracked.len()
        invariant
            k <= untracked.len(),
            more == text::texts(untracked@),
            text::texts(out@) == with_new(base, more.take(k as int)),
        decreases untracked.len() - k,
    {
        assert(more.take(k + 1).drop_last() =~= more.take(k as int));
        assert(more[k as int] == untracked@[k as int]@);
        let p = untracked[k].as_str();
        if !is_harness_path(p) && !member(&out, p) {
            let ghost was = text::texts(out@);
            out.push(owned(p));
            assert(text::texts(out@) =~= was.push(p@));
        }
        k = k + 1;
    }
    assert(more.take(more.len() as int) =~= more);
    out
}

proof fn lemma_dirty_members(base: Seq<Seq<char>>, paths: Seq<Seq<char>>, p: Seq<char>)
    ensures
        with_new(base, paths).contains(p) <==> base.contains(p) || paths.contains(p)
            && !harness_path(p),
    decreases paths.len(),
{
    if paths.len() > 0 {
        let front = paths.drop_last();
        let before = with_new(base, front);
        let l = paths.last();
        lemma_dirty_members(base, front, p);
        lemma_dirty_members(base, front, l);
        if front.contains(p) {
            let i = choose|i: int| 0 <= i < front.len() && front[i] == p;
            assert(paths[i] == p);
        }
        if paths.contains(p) && p != l {
            let i = choose|i: int| 0 <= i < paths.len() && paths[i] == p;
            assert(front[i] == p);
        }
        assert(paths[paths.len() - 1] == l);
        if before.contains(p) {
            let i = choose|i: int| 0 <= i < before.len() && before[i] == p;
            assert(before.push(l)[i] == p);
        }
        assert(before.push(l)[before.len() as int] == l);
        if before.push(l).contains(p) && p != l {
            let i = choose|i: int| 0 <= i < before.push(l).len() && before.push(l)[i] == p;
            assert(before[i] == p);
        }
    }
}

proof fn lemma_foreign_members(paths: Seq<Seq<char>>, p: Seq<char>)
    ensures
        foreign(paths).contains(p) <==> paths.contains(p) && !harness_path(p),
    decreases paths.len(),
{
    if paths.len() > 0 {
        let front = paths.drop_last();
        let before = foreign(front);
        let l = paths.last();
        lemma_foreign_members(front, p);
        if front.contains(p) {
            let i = choose|i: int| 0 <= i < front.len() && front[i] == p;
            assert(paths[i] == p);
        }
        if paths.contains(p) && p != l {
            let i = choose|i: int| 0 <= i < paths.len() && paths[i] == p;
            assert(front[i] == p);
        }
        assert(paths[paths.len() - 1] == l);
        if before.contains(p) {
            let i = choose|i: int| 0 <= i < before.len() && before[i] == p;
            assert(before.push(l)[i] == p);
        }
        assert(before.push(l)[before.len() as int] == l);
        if before.push(l).contains(p) && p != l {
            let i = choose|i: int| 0 <= i < before.push(l).len() && before.push(l)[i] == p;
            assert(before[i] == p);
        }
    }
}

/// A path counts as dirty exactly where git reports it and it is not the
/// harness's own.
pub proof fn law_dirty_paths(changed: Seq<Seq<char>>, untracked: Seq<Seq<char>>, p: Seq<char>)
    ensures
        with_new(foreign(changed), untracked).contains(p) <==> (changed.contains(p)
            || untracked.contains(p)) && !harness_path(p),
{
    lemma_foreign_members(changed, p);
    lemma_dirty_members(foreign(changed), untracked, p);
}

/// Whether the records of `git status --porcelain -z` from `i` on show a change
/// outside the directory of the harness. A record is two characters of status,
/// a blank and a path; behind a rename or copy stands a record with the old
/// path alone, and it is the harness's own only where both paths are. A record
/// in no such form counts as a change.
pub open spec fn dirty_from(rs: Seq<Seq<char>>, i: int) -> bool
    decreases rs.len() - i,
{
    if i >= rs.len() || i < 0 {
        false
    } else if text::byte_count(rs[i]) < 3 {
        dirty_from(rs, i + 1)
    } else {
        match (text::byte_place(rs[i], 2), text::byte_place(rs[i], 3)) {
            (Some(a), Some(b)) => {
                let status = rs[i].take(a as int);
                let path = rs[i].skip(b as int);
                if text::has_char(status, CharSet::One('R')) || text::has_char(
                    status,
                    CharSet::One('C'),
                ) {
                    let old_path = if i + 1 < rs.len() {
                        rs[i + 1]
                    } else {
                        Seq::empty()
                    };
                    if harness_path(path) && old_path.len() > 0 && harness_path(old_path) {
                        dirty_from(rs, i + 2)
                    } else {
                        true
                    }
                } else if path.len() > 0 && !harness_path(path) {
                    true
                } else {
                    dirty_from(rs, i + 1)
                }
            },
            _ => true,
        }
    }
}

/// Whether the worktree has changes outside the directory of the harness, from
/// the records of `git status --porcelain -z -uall`.
pub fn is_dirty(records: &Vec<String>) -> (r: bool)
    ensures
        r == dirty_from(text::texts(records@), 0),
{
    let ghost all = text::texts(records@);
    let mut i: usize = 0;
    while i < records.len()
        invariant
            i <= records.len(),
            all == text::texts(records@),
            dirty_from(all, 0) == dirty_from(all, i as int),
        decreases records.len() - i,
    {
        let record = records[i].as_str();
        assert(all[i as int] == records@[i as int]@);
        if below_bytes(record, 3) {
            i = i + 1;
            continue ;
        }
        let (a, b): (usize, usize) = match (find_byte(record, 2), find_byte(record, 3)) {
            (Some(a), Some(b)) => (a, b),
            _ => {
                return true;
            },
        };
        let status = record.substring_char(0, a);
        let path = record.substring_char(b, record.unicode_len());
        assert(status@ =~= all[i as int].take(a as int));
        assert(path@ =~= all[i as int].skip(b as int));
        if contains_char(status, CharSet::One('R')) || contains_char(status, CharSet::One('C')) {
            if i + 1 < records.len() {
                assert(all[i + 1] == records@[i + 1]@);
                let former = records[i + 1].as_str();
                if is_harness_path(path) && !former.is_empty() && is_harness_path(former) {
                    i = i + 2;
                    continue ;
                }
            }
            return true;
        }
        if !path.is_empty() && !is_harness_path(path) {
            return true;
        }
        i = i + 1;
    }
    false
}

// ---------------------------------------------------------------------
// Commits
// ---------------------------------------------------------------------

/// The steps by which the changes of a component are committed.
#[derive(Debug, Clone, Copy, PartialEq, Eq, Structural)]
pub enum CommitStep {
    /// Stage everything: edits, additions and deletions.
    Add,
    /// Take the directory of the harness out again, whatever becomes of it.
    DropReview,
    /// Take `.gitignore` out again, which the harness itself edits.
    DropIgnore,
    /// Ask whether anything is staged.
    Probe,
    /// Commit.
    Commit,
    /// Ask for the short hash of the commit.
    Hash,
    /// There was nothing to commit.
    Nothing,
    /// The commit is made.
    Done,
    /// The last command failed.
    Failed,
}

/// The step after one whose command has ended with `code`.
pub open spec fn commit_step(at: CommitStep, code: Option<i32>) -> CommitStep {
    match at {
        CommitStep::Add => if code == Some(0i32) {
            CommitStep::DropReview
        } else {
            CommitStep::Failed
        },
        CommitStep::DropReview => CommitStep::DropIgnore,
        CommitStep::DropIgnore => CommitStep::Probe,
        CommitStep::Probe => if code == Some(0i32) {
            CommitStep::Nothing
        } else if code == Some(1i32) {
            CommitStep::Commit
        } else {
            CommitStep::Failed
        },
        CommitStep::Commit => if code == Some(0i32) {
            CommitStep::Hash
        } else {
            CommitStep::Failed
        },
        CommitStep::Hash => if code == Some(0i32) {
            CommitStep::Done
        } else {
            CommitStep::Failed
        },
        CommitStep::Nothing => CommitStep::Nothing,
        CommitStep::Done => CommitStep::Done,
        CommitStep::Failed => CommitStep::Failed,
    }
}

/// The arguments of git at a step; none at the last ones.
pub open spec fn commit_args(at: CommitStep, sign: bool, message: Seq<char>) -> Seq<Seq<char>> {
    match at {
        CommitStep::Add => seq!["add"@, "-A"@],
        CommitStep::DropReview => seq!["reset"@, "--quiet"@, "--"@, ".review"@],
        CommitStep::DropIgnore => seq!["reset"@, "--quiet"@, "--"@, ".gitignore"@],
        CommitStep::Probe => seq!["diff"@, "--cached"@, "--quiet"@],
        CommitStep::Commit => if sign {
            seq!["commit"@, "-m"@, message]
        } else {
            seq!["-c"@, "commit.gpgsign=false"@, "commit"@, "-m"@, message]
        },
        CommitStep::Hash => seq!["rev-parse"@, "--short"@, "HEAD"@],
        CommitStep::Nothing => Seq::empty(),
        CommitStep::Done => Seq::empty(),
        CommitStep::Failed => Seq::empty(),
    }
}

/// The step after one whose command has ended with `code`. A commit starts with
/// [`CommitStep::Add`].
pub fn commit_dirty(at: CommitStep, code: Option<i32>) -> (r: CommitStep)
    ensures
        r == commit_step(at, code),
{
    let zero: bool = matches!(code, Some(0));
    let one: bool = matches!(code, Some(1));
    match at {
        CommitStep::Add => if zero {
            CommitStep::DropReview
        } else {
            CommitStep::Failed
        },
        CommitStep::DropReview => CommitStep::DropIgnore,
        CommitStep::DropIgnore => CommitStep::Probe,
        CommitStep::Probe => if zero {
            CommitStep::Nothing
        } else if one {
            CommitStep::Commit
        } else {
            CommitStep::Failed
        },
        CommitStep::Commit => if zero {
            CommitStep::Hash
        } else {
            CommitStep::Failed
        },
        CommitStep::Hash => if zero {
            CommitStep::Done
        } else {
            CommitStep::Failed
        },
        CommitStep::Nothing => CommitStep::Nothing,
        CommitStep::Done => CommitStep::Done,
        CommitStep::Failed => CommitStep::Failed,
    }
}

fn words2(a: &str, b: &str) -> (r: Vec<String>)
    ensures
        text::texts(r@) == seq![a@, b@],
{
    let mut r: Vec<String> = Vec::new();
    r.push(owned(a));
    r.push(owned(b));
    assert(text::texts(r@) =~= seq![a@, b@]);
    r
}

fn words3(a: &str, b: &str, c: &str) -> (r: Vec<String>)
    ensures
        text::texts(r@) == seq![a@, b@, c@],
{
    let mut r: Vec<String> = words2(a, b);
    r.push(owned(c));
    assert(text::texts(r@) =~= seq![a@, b@].push(c@));
    assert(seq![a@, b@].push(c@) =~= seq![a@, b@, c@]);
    r
}

fn words4(a: &str, b: &str, c: &str, d: &str) -> (r: Vec<String>)
    ensures
        text::texts(r@) == seq![a@, b@, c@, d@],
{
    let mut r: Vec<String> = words3(a, b, c);
    let ghost was = text::texts(r@);
    r.push(owned(d));
    assert(text::texts(r@) =~= was.push(d@));
    assert(was.push(d@) =~= seq![a@, b@, c@, d@]);
    r
}

fn words5(a: &str, b: &str, c: &str, d: &str, e: &str) -> (r: Vec<String>)
    ensures
        text::texts(r@) == seq![a@, b@, c@, d@, e@],
{
    let mut r: Vec<String> = words4(a, b, c, d);
    let ghost was = text::texts(r@);
    r.push(owned(e));
    assert(text::texts(r@) =~= was.push(e@));
    assert(was.push(e@) =~= seq![a@, b@, c@, d@, e@]);
    r
}

/// The arguments of git at a step of a commit.
pub fn step_args(at: CommitStep, cfg: &CommitConfig, message: &str) -> (r: Vec<String>)
    ensures
        text::texts(r@) == commit_args(at, cfg.sign, message@),
{
    match at {
        CommitStep::Add => words2("add", "-A"),
        CommitStep::DropReview => words4("reset", "--quiet", "--", ".review"),
        CommitStep::DropIgnore => words4("reset", "--quiet", "--", ".gitignore"),
        CommitStep::Probe => words3("diff", "--cached", "--quiet"),
        CommitStep::Commit => if cfg.sign {
            words3("commit", "-m", message)
        } else {
            words5("-c", "commit.gpgsign=false", "commit", "-m", message)
        },
        CommitStep::Hash => words3("rev-parse", "--short", "HEAD"),
        CommitStep::Nothing | CommitStep::Done | CommitStep::Failed => {
            let r: Vec<String> = Vec::new();
            assert(text::texts(r@) =~= Seq::empty());
            r
        },
    }
}

/// The steps after several commands have ended.
pub open spec fn commit_steps(at: CommitStep, codes: Seq<Option<i32>>) -> CommitStep
    decreases codes.len(),
{
    if codes.len() == 0 {
        at
    } else {
        commit_step(commit_steps(at, codes.drop_last()), codes.last())
    }
}

proof fn lemma_commit_order(codes: Seq<Option<i32>>)
    ensures
        ({
            let at = commit_steps(CommitStep::Add, codes);
            let n = codes.len();
            &&& at is Add ==> n == 0
            &&& at is DropReview ==> n == 1
            &&& at is DropIgnore ==> n == 2
            &&& at is Probe ==> n == 3
            &&& at is Commit ==> n == 4 && codes[3] == Some(1i32)
            &&& at is Hash ==> n == 5 && codes[3] == Some(1i32) && codes[4] == Some(0i32)
            &&& at is Done ==> n >= 6
        }),
    decreases codes.len(),
{
    if codes.len() > 0 {
        lemma_commit_order(codes.drop_last());
    }
}

/// A commit is made only after everything was staged, the directory of the
/// harness and `.gitignore` were taken out again, and something was left: what
/// the harness writes itself is never part of a commit.
pub proof fn law_harness_files_are_unstaged_before_a_commit(codes: Seq<Option<i32>>)
    requires
        commit_steps(CommitStep::Add, codes) is Commit,
    ensures
        codes.len() == 4,
        codes[3] == Some(1i32),
        commit_steps(CommitStep::Add, codes.take(0)) is Add,
        commit_steps(CommitStep::Add, codes.take(1)) is DropReview,
        commit_steps(CommitStep::Add, codes.take(2)) is DropIgnore,
        commit_steps(CommitStep::Add, codes.take(3)) is Probe,
{
    lemma_commit_order(codes);
    assert(codes.take(4) =~= codes);
    assert(codes.take(4).drop_last() =~= codes.take(3));
    assert(codes.take(3).drop_last() =~= codes.take(2));
    assert(codes.take(2).drop_last() =~= codes.take(1));
    assert(codes.take(1).drop_last() =~= codes.take(0));
    lemma_commit_order(codes.take(3));
    lemma_commit_order(codes.take(2));
    lemma_commit_order(codes.take(1));
}

// ---------------------------------------------------------------------
// Resets
// ---------------------------------------------------------------------

/// The paths but `.gitignore`.
pub open spec fn without_ignore(paths: Seq<Seq<char>>) -> Seq<Seq<char>> {
    paths.filter(|p: Seq<char>| p != ".gitignore"@)
}

/// The commands that discard what is staged and what is untracked.
pub open spec fn discard_args() -> Seq<Seq<Seq<char>>> {
    seq![
        seq!["reset"@, "--quiet"@, "--"@, "."@],
        seq!["clean"@, "-f"@, "-d"@, "-e"@, ".review"@],
    ]
}

/// The commands that discard what is staged and what is untracked, outside the
/// directory of the harness. They come first: leftover files would stop the
/// checkout that follows.
pub fn discard_commands() -> (r: Vec<Vec<String>>)
    ensures
        r@.len() == 2,
        text::texts(r@[0]@) == discard_args()[0],
        text::texts(r@[1]@) == discard_args()[1],
{
    let mut r: Vec<Vec<String>> = Vec::new();
    r.push(words4("reset", "--quiet", "--", "."));
    r.push(words5("clean", "-f", "-d", "-e", ".review"));
    r
}

/// The command that discards changes to known paths, given those that differ
/// from HEAD; none where nothing is to be discarded. `.gitignore` is spared: it
/// may hold what the harness appended in this run.
pub fn reset_worktree(dirty: &Vec<String>) -> (r: Option<Vec<String>>)
    ensures
        match r {
            Some(args) => without_ignore(text::texts(dirty@)).len() > 0 && text::texts(args@)
                == seq!["checkout"@, "--"@] + without_ignore(text::texts(dirty@)),
            None => without_ignore(text::texts(dirty@)).len() == 0,
        },
{
    let ghost all = text::texts(dirty@);
    let ghost spare = |p: Seq<char>| p != ".gitignore"@;
    let mut args: Vec<String> = words2("checkout", "--");
    let ghost head = text::texts(args@);
    let mut i: usize = 0;
    proof {
        reveal(Seq::filter);
        assert(all.take(0) =~= Seq::empty());
        assert(head + all.take(0).filter(spare) =~= head);
    }
    while i < dirty.len()
        invariant
            i <= dirty.len(),
            all == text::texts(dirty@),
            spare == (|p: Seq<char>| p != ".gitignore"@),
            head == seq!["checkout"@, "--"@],
            text::texts(args@) == head + all.take(i as int).filter(spare),
        decreases dirty.len() - i,
    {
        proof {
            reveal(Seq::filter);
            assert(all.take(i + 1).drop_last() =~= all.take(i as int));
            assert(all[i as int] == dirty@[i as int]@);
        }
        let p = dirty[i].as_str();
        let ghost was = all.take(i as int).filter(spare);
        if !same(p, ".gitignore") {
            let ghost before = text::texts(args@);
            args.push(owned(p));
            assert(text::texts(args@) =~= before.push(p@));
            assert((head + was).push(p@) =~= head + was.push(p@));
        }
        i = i + 1;
    }
    assert(all.take(all.len() as int) =~= all);
    assert(text::texts(args@).len() == args@.len());
    if args.len() > 2 {
        Some(args)
    } else {
        None
    }
}

// ---------------------------------------------------------------------
// Laws of settings and paths
// ---------------------------------------------------------------------

/// A switch is on only where the settings say `true` under its key, off where
/// they say `false` or nothing, and anything else there is refused.
pub proof fn law_switches(t: Seq<char>, doc: TomlView)
    requires
        config::toml_document(t) == Ok::<TomlView, Seq<char>>(doc),
    ensures
        sign_in(None) == Ok::<bool, ConfigError<Seq<char>>>(false),
        dedicated_in(None) == Ok::<bool, ConfigError<Seq<char>>>(false),
        doc.member("commit"@) is None ==> sign_in(Some(t)) == Ok::<bool, ConfigError<Seq<char>>>(
            false,
        ),
        doc.member("branch"@) is None ==> dedicated_in(Some(t)) == Ok::<
            bool,
            ConfigError<Seq<char>>,
        >(false),
        doc.member("commit"@) matches Some(s) ==> s.member("sign"@) is None ==> sign_in(Some(t))
            == Ok::<bool, ConfigError<Seq<char>>>(false),
        doc.member("branch"@) matches Some(s) ==> s.member("dedicated"@) is None ==> dedicated_in(
            Some(t),
        ) == Ok::<bool, ConfigError<Seq<char>>>(false),
        doc.member("commit"@) matches Some(s) ==> (s.member("sign"@) matches Some(
            TomlView::Boolean(b),
        ) ==> sign_in(Some(t)) == Ok::<bool, ConfigError<Seq<char>>>(b)),
        doc.member("branch"@) matches Some(s) ==> (s.member("dedicated"@) matches Some(
            TomlView::Boolean(b),
        ) ==> dedicated_in(Some(t)) == Ok::<bool, ConfigError<Seq<char>>>(b)),
        doc.member("commit"@) matches Some(s) ==> (s.member("sign"@) matches Some(v) && !(
        v is Boolean) ==> sign_in(Some(t)) is Err),
        doc.member("branch"@) matches Some(s) ==> (s.member("dedicated"@) matches Some(v) && !(
        v is Boolean) ==> dedicated_in(Some(t)) is Err),
{
}

/// What the harness writes lies in its own directory and nowhere else: a path
/// in plain spelling is the harness's exactly where it is that directory or lies
/// below it.
pub proof fn law_own_paths_of_the_harness(p: Seq<char>)
    requires
        text::trimmed(p) == p,
        !text::has_char(p, CharSet::One('\\')),
        !text::begins(p, "./"@),
    ensures
        harness_path(p) <==> p == ".review"@ || text::begins(p, ".review/"@),
{
    reveal_strlit("./");
    text::law_prefixes_are_taken_off(p, "./"@);
    text::law_replacing(p, Seq::empty(), '/', CharSet::One('\\'), "/"@);
}

/// Everything below the directory of the harness is its own.
pub proof fn law_everything_below_is_the_harness(rest: Seq<char>)
    requires
        rest.len() > 0,
        !text::is_space(rest.last()),
        !text::has_char(rest, CharSet::One('\\')),
    ensures
        harness_path(".review/"@ + rest),
        harness_path(".review"@),
        !harness_path(".reviews/"@ + rest),
        !harness_path("src/.review/"@ + rest),
{
    reveal_strlit("./");
    reveal_strlit(".review/");
    reveal_strlit(".review");
    reveal_strlit(".reviews/");
    reveal_strlit("src/.review/");
    let a = ".review/"@ + rest;
    let b = ".reviews/"@ + rest;
    let c = "src/.review/"@ + rest;
    lemma_plain_spelling(".review/"@, rest);
    lemma_plain_spelling(".reviews/"@, rest);
    lemma_plain_spelling("src/.review/"@, rest);
    reveal_strlit(".");
    reveal_strlit("review");
    lemma_plain_spelling("."@, "review"@);
    assert("."@ + "review"@ =~= ".review"@);
    assert(a.subrange(0, 8) =~= ".review/"@);
    assert(a.subrange(0, 2)[1] == 'r');
    assert(b.subrange(0, 2)[1] == 'r');
    assert(c.subrange(0, 2)[0] == 's');
    assert(".review"@.subrange(0, 2)[1] == 'r');
    law_own_paths_of_the_harness(a);
    law_own_paths_of_the_harness(b);
    law_own_paths_of_the_harness(c);
    law_own_paths_of_the_harness(".review"@);
    assert(b.subrange(0, 8)[7] == 's');
    assert(c.subrange(0, 8)[0] == 's');
    assert(b.len() > 7 && c.len() > 7);
}

proof fn lemma_plain_spelling(head: Seq<char>, rest: Seq<char>)
    requires
        head.len() > 0,
        rest.len() > 0,
        !text::is_space(head[0]),
        !text::is_space(rest.last()),
        !text::has_char(head, CharSet::One('\\')),
        !text::has_char(rest, CharSet::One('\\')),
    ensures
        text::trimmed(head + rest) == head + rest,
        !text::has_char(head + rest, CharSet::One('\\')),
{
    let s = head + rest;
    assert(s[0] == head[0] && s.last() == rest.last());
    text::law_trimmed_stays(s);
    assert forall|i: int| 0 <= i < s.len() implies !CharSet::One('\\').has(#[trigger] s[i]) by {
        if i < head.len() {
            assert(!CharSet::One('\\').has(head[i]));
        } else {
            assert(!CharSet::One('\\').has(rest[i - head.len()]));
        }
    }
}

/// The dirty paths stand in the order in which git reports them: the changed
/// ones first, then the untracked ones that are not among them, each once.
pub proof fn law_order_of_dirty_paths(changed: Seq<Seq<char>>, untracked: Seq<Seq<char>>)
    ensures
        foreign(changed) == changed.filter(|p: Seq<char>| !harness_path(p)),
        with_new(foreign(changed), untracked).len() >= foreign(changed).len(),
        with_new(foreign(changed), untracked).take(foreign(changed).len() as int) == foreign(
            changed,
        ),
        untracked.no_duplicates() && (forall|i: int|
            0 <= i < untracked.len() ==> !changed.contains(#[trigger] untracked[i]))
            ==> with_new(foreign(changed), untracked) == foreign(changed) + untracked.filter(
            |p: Seq<char>| !harness_path(p),
        ),
    decreases changed.len() + untracked.len(),
{
    lemma_foreign_filter(changed);
    lemma_with_new(changed, untracked);
}

proof fn lemma_foreign_filter(paths: Seq<Seq<char>>)
    ensures
        foreign(paths) == paths.filter(|p: Seq<char>| !harness_path(p)),
    decreases paths.len(),
{
    reveal(Seq::filter);
    if paths.len() > 0 {
        lemma_foreign_filter(paths.drop_last());
    }
}

proof fn lemma_with_new(changed: Seq<Seq<char>>, untracked: Seq<Seq<char>>)
    ensures
        with_new(foreign(changed), untracked).len() >= foreign(changed).len(),
        with_new(foreign(changed), untracked).take(foreign(changed).len() as int) == foreign(
            changed,
        ),
        untracked.no_duplicates() && (forall|i: int|
            0 <= i < untracked.len() ==> !changed.contains(#[trigger] untracked[i]))
            ==> with_new(foreign(changed), untracked) == foreign(changed) + untracked.filter(
            |p: Seq<char>| !harness_path(p),
        ),
    decreases untracked.len(),
{
    reveal(Seq::filter);
    let base = foreign(changed);
    let keep = |p: Seq<char>| !harness_path(p);
    if untracked.len() > 0 {
        let front = untracked.drop_last();
        let l = untracked.last();
        lemma_with_new(changed, front);
        let before = with_new(base, front);
        let all = with_new(base, untracked);
        assert(all.take(base.len() as int) =~= before.take(base.len() as int));
        assert(untracked[untracked.len() - 1] == l);
        if untracked.no_duplicates() && (forall|i: int|
            0 <= i < untracked.len() ==> !changed.contains(#[trigger] untracked[i])) {
            assert forall|i: int| 0 <= i < front.len() implies !changed.contains(
                #[trigger] front[i],
            ) by {
                assert(front[i] == untracked[i]);
            }
            assert(front.no_duplicates());
            law_dirty_paths(changed, front, l);
            if front.contains(l) {
                let i = choose|i: int| 0 <= i < front.len() && front[i] == l;
                assert(untracked[i] == untracked[untracked.len() - 1]);
            }
            assert((base + front.filter(keep)).push(l) =~= base + front.filter(keep).push(l));
        }
    } else {
        assert(base.take(base.len() as int) =~= base);
        assert(base + untracked.filter(keep) =~= base);
    }
}

/// A record of a change that is no rename: two characters of status, a blank,
/// and the path.
pub open spec fn plain_record(r: Seq<char>, path: Seq<char>) -> bool {
    &&& r.len() >= 3
    &&& r[0] <= '\u{7f}' && r[1] <= '\u{7f}' && r[2] <= '\u{7f}'
    &&& r[0] != 'R' && r[0] != 'C' && r[1] != 'R' && r[1] != 'C'
    &&& r.skip(3) == path
}

proof fn lemma_narrow(c: char)
    requires
        c <= '\u{7f}',
    ensures
        vstd::utf8::encode_scalar(c as u32).len() == 1,
{
    assert(c as u32 <= 0x7F);
}

proof fn lemma_record(r: Seq<char>)
    requires
        r.len() >= 3,
        r[0] <= '\u{7f}',
        r[1] <= '\u{7f}',
        r[2] <= '\u{7f}',
    ensures
        text::byte_place(r, 2) == Some(2nat),
        text::byte_place(r, 3) == Some(3nat),
        text::byte_count(r) >= 3,
{
    assert(r.skip(0) =~= r);
    text::lemma_byte_count_step(r, 0);
    text::lemma_byte_count_step(r, 1);
    text::lemma_byte_count_step(r, 2);
    let a = r.skip(1);
    let b = a.skip(1);
    let c = b.skip(1);
    assert(a[0] == r[1] && b[0] == r[2]);
    lemma_narrow(r[0]);
    lemma_narrow(r[1]);
    lemma_narrow(r[2]);
    assert(text::byte_place(c, 0) == Some(0nat));
    assert(text::byte_place(b, 0) == Some(0nat));
    assert(text::byte_place(b, 1) == Some(1nat));
    assert(text::byte_place(a, 1) == Some(1nat));
    assert(text::byte_place(a, 2) == Some(2nat));
}

/// A worktree is dirty exactly where some record shows a change outside the
/// directory of the harness.
pub proof fn law_dirty_worktrees(rs: Seq<Seq<char>>, paths: Seq<Seq<char>>, i: int)
    requires
        rs.len() == paths.len(),
        0 <= i <= rs.len(),
        forall|k: int| 0 <= k < rs.len() ==> plain_record(#[trigger] rs[k], paths[k]),
    ensures
        dirty_from(rs, i) <==> exists|k: int|
            i <= k < rs.len() && (#[trigger] paths[k]).len() > 0 && !harness_path(paths[k]),
    decreases rs.len() - i,
{
    if i < rs.len() {
        law_dirty_worktrees(rs, paths, i + 1);
        let r = rs[i];
        assert(plain_record(rs[i], paths[i]));
        lemma_record(r);
        let status = r.take(2);
        assert forall|k: int| 0 <= k < status.len() implies !CharSet::One('R').has(
            #[trigger] status[k],
        ) && !CharSet::One('C').has(status[k]) by {
            assert(status[k] == r[k]);
        }
        if paths[i].len() > 0 && !harness_path(paths[i]) {
            assert(dirty_from(rs, i));
        } else {
            assert(dirty_from(rs, i) == dirty_from(rs, i + 1));
            if exists|k: int|
                i <= k < rs.len() && (#[trigger] paths[k]).len() > 0 && !harness_path(paths[k]) {
                let k = choose|k: int|
                    i <= k < rs.len() && (#[trigger] paths[k]).len() > 0 && !harness_path(paths[k]);
                assert(k != i);
            }
        }
    }
}

/// A rename is the harness's own only where both of its paths are: moving a file
/// into or out of the directory of the harness is a change.
pub proof fn law_renames(rs: Seq<Seq<char>>, i: int)
    requires
        0 <= i < rs.len() - 1,
        rs[i].len() >= 3,
        rs[i][0] == 'R',
        rs[i][1] <= '\u{7f}',
        rs[i][2] <= '\u{7f}',
    ensures
        !harness_path(rs[i].skip(3)) || !harness_path(rs[i + 1]) || rs[i + 1].len() == 0
            ==> dirty_from(rs, i),
        harness_path(rs[i].skip(3)) && harness_path(rs[i + 1]) && rs[i + 1].len() > 0
            ==> dirty_from(rs, i) == dirty_from(rs, i + 2),
{
    lemma_record(rs[i]);
    assert(rs[i].take(2)[0] == 'R');
    assert(CharSet::One('R').has(rs[i].take(2)[0]));
}

// ---------------------------------------------------------------------
// Laws of branches and commits
// ---------------------------------------------------------------------

/// A run has a branch of its own only where the settings ask for it; then it
/// goes on with the branch of a run that is checked out, and otherwise makes one.
pub proof fn law_branch_of_a_run(current: Option<Seq<char>>, stamp: Seq<char>)
    ensures
        run_branch(false, current, stamp) is Current,
        current is None ==> run_branch(true, current, stamp) == RunBranch::Create(
            "gaggle/run-"@ + stamp,
        ),
        current matches Some(b) ==> text::begins(b, "gaggle/run-"@) ==> run_branch(
            true,
            current,
            stamp,
        ) == RunBranch::Reuse(b),
        current matches Some(b) ==> !text::begins(b, "gaggle/run-"@) ==> run_branch(
            true,
            current,
            stamp,
        ) == RunBranch::Create("gaggle/run-"@ + stamp),
{
}

/// Each step of a commit follows the one before it, and a command that fails
/// ends it, except for those that only take files out; without anything staged
/// there is no commit.
pub proof fn law_steps_of_a_commit(code: Option<i32>)
    ensures
        commit_step(CommitStep::Add, Some(0)) is DropReview,
        code != Some(0i32) ==> commit_step(CommitStep::Add, code) is Failed,
        commit_step(CommitStep::DropReview, code) is DropIgnore,
        commit_step(CommitStep::DropIgnore, code) is Probe,
        commit_step(CommitStep::Probe, Some(0)) is Nothing,
        commit_step(CommitStep::Probe, Some(1)) is Commit,
        code != Some(0i32) && code != Some(1i32) ==> commit_step(CommitStep::Probe, code) is Failed,
        commit_step(CommitStep::Commit, Some(0)) is Hash,
        code != Some(0i32) ==> commit_step(CommitStep::Commit, code) is Failed,
        commit_step(CommitStep::Hash, Some(0)) is Done,
        code != Some(0i32) ==> commit_step(CommitStep::Hash, code) is Failed,
        commit_step(CommitStep::Nothing, code) is Nothing,
        commit_step(CommitStep::Done, code) is Done,
        commit_step(CommitStep::Failed, code) is Failed,
{
}

/// The commands of a commit: everything is staged, the harness's directory and
/// `.gitignore` are taken out, and the commit has its message and is signed only
/// where that is asked for.
pub proof fn law_commands_of_a_commit(sign: bool, message: Seq<char>)
    ensures
        commit_args(CommitStep::Add, sign, message) == seq!["add"@, "-A"@],
        commit_args(CommitStep::DropReview, sign, message) == seq![
            "reset"@,
            "--quiet"@,
            "--"@,
            ".review"@,
        ],
        commit_args(CommitStep::DropIgnore, sign, message) == seq![
            "reset"@,
            "--quiet"@,
            "--"@,
            ".gitignore"@,
        ],
        commit_args(CommitStep::Probe, sign, message) == seq!["diff"@, "--cached"@, "--quiet"@],
        commit_args(CommitStep::Commit, true, message) == seq!["commit"@, "-m"@, message],
        commit_args(CommitStep::Commit, false, message) == seq![
            "-c"@,
            "commit.gpgsign=false"@,
            "commit"@,
            "-m"@,
            message,
        ],
        commit_args(CommitStep::Hash, sign, message) == seq!["rev-parse"@, "--short"@, "HEAD"@],
{
}

/// What is discarded: what is staged and what is untracked outside the directory
/// of the harness, and every change to a known path but `.gitignore`.
pub proof fn law_what_is_discarded(paths: Seq<Seq<char>>, p: Seq<char>)
    ensures
        discard_args() == seq![
            seq!["reset"@, "--quiet"@, "--"@, "."@],
            seq!["clean"@, "-f"@, "-d"@, "-e"@, ".review"@],
        ],
        without_ignore(paths).contains(p) <==> paths.contains(p) && p != ".gitignore"@,
    decreases paths.len(),
{
    reveal(Seq::filter);
    if paths.len() > 0 {
        let front = paths.drop_last();
        law_what_is_discarded(front, p);
        let before = without_ignore(front);
        let all = without_ignore(paths);
        assert(paths[paths.len() - 1] == paths.last());
        if front.contains(p) {
            let i = choose|i: int| 0 <= i < front.len() && front[i] == p;
            assert(paths[i] == p);
        }
        if paths.contains(p) && p != paths.last() {
            let i = choose|i: int| 0 <= i < paths.len() && paths[i] == p;
            assert(front[i] == p);
        }
        if before.contains(p) {
            let i = choose|i: int| 0 <= i < before.len() && before[i] == p;
            assert(all[i] == p);
        }
        if p == paths.last() && p != ".gitignore"@ {
            assert(all[all.len() - 1] == p);
        }
        if all.contains(p) && !before.contains(p) {
            let i = choose|i: int| 0 <= i < all.len() && all[i] == p;
            if i < before.len() {
                assert(before[i] == p);
            }
        }
    }
}

/// A failed command is told with its arguments, its exit code, and what it said.
pub proof fn law_failures_in_words(args: Seq<Seq<char>>, n: i32, stderr: Seq<u8>)
    ensures
        code_text(None) == "None"@,
        code_text(Some(n)) == "Some("@ + number::signed(n as int) + ")"@,
        failure_text(args, Some(n), stderr) == "git "@ + text::joined(args, " "@)
            + " failed (exit "@ + code_text(Some(n)) + "): "@ + text::trimmed(text::lossy(stderr)),
        branch_in(stderr) is None <==> text::trimmed(text::lossy(stderr)).len() == 0,
        branch_in(stderr) matches Some(b) ==> b == text::trimmed(text::lossy(stderr)),
{
}

} // verus!
