//! The recipes, the settings file for a fresh repository, and the rule that keeps
//! the directory of the harness out of git.

use vstd::prelude::*;
use crate::roundtrip;
use crate::text;
use crate::text::{
    contains, ends_with, join, lines_of, member, owned, replace, same, split, starts_with, trim,
    trim_end, trim_start, CharSet, Draft,
};

verus! {

// ---------------------------------------------------------------------
// Recipes
// ---------------------------------------------------------------------

/// The names of the recipes.
pub open spec fn recipe_names() -> Seq<Seq<char>> {
    seq![
        "discover.yaml"@,
        "discover-validate.yaml"@,
        "review.yaml"@,
        "confirm.yaml"@,
        "fix.yaml"@,
        "verify.yaml"@,
        "gate.yaml"@,
        "report.yaml"@,
    ]
}

/// The names of the recipes.
pub fn names() -> (r: Vec<String>)
    ensures
        text::texts(r@) == recipe_names(),
{
    let mut r: Vec<String> = Vec::new();
    r.push(owned("discover.yaml"));
    r.push(owned("discover-validate.yaml"));
    r.push(owned("review.yaml"));
    r.push(owned("confirm.yaml"));
    r.push(owned("fix.yaml"));
    r.push(owned("verify.yaml"));
    r.push(owned("gate.yaml"));
    r.push(owned("report.yaml"));
    assert(text::texts(r@) =~= recipe_names());
    r
}

/// The names that are in `present`, in the order of the recipes.
pub open spec fn overriding(names: Seq<Seq<char>>, present: Seq<Seq<char>>) -> Seq<Seq<char>> {
    names.filter(|n: Seq<char>| present.contains(n))
}

/// The recipes that the repository overrides, where `present` holds the names
/// of the files in its directory for recipes.
pub fn list_overrides(present: &Vec<String>) -> (r: Vec<String>)
    ensures
        text::texts(r@) == overriding(recipe_names(), text::texts(present@)),
{
    let all: Vec<String> = names();
    let ghost ns = text::texts(all@);
    let ghost given = text::texts(present@);
    let ghost keep = |n: Seq<char>| given.contains(n);
    let mut out: Vec<String> = Vec::new();
    let mut i: usize = 0;
    proof {
        reveal(Seq::filter);
        assert(ns.take(0) =~= Seq::empty());
        assert(text::texts(out@) =~= ns.take(0).filter(keep));
    }
    while i < all.len()
        invariant
            i <= all.len(),
            ns == text::texts(all@),
            given == text::texts(present@),
            keep == (|n: Seq<char>| given.contains(n)),
            text::texts(out@) == ns.take(i as int).filter(keep),
        decreases all.len() - i,
    {
        proof {
            reveal(Seq::filter);
            assert(ns.take(i + 1).drop_last() =~= ns.take(i as int));
            assert(ns[i as int] == all@[i as int]@);
        }
        let n = all[i].as_str();
        if member(present, n) {
            let ghost was = text::texts(out@);
            out.push(owned(n));
            assert(text::texts(out@) =~= was.push(n@));
        }
        i = i + 1;
    }
    assert(ns.take(ns.len() as int) =~= ns);
    assert(keep =~= (|n: Seq<char>| text::texts(present@).contains(n)));
    out
}

/// Where a recipe is taken from.
#[derive(Debug, Clone, Copy, PartialEq, Eq, Structural)]
pub enum Source {
    /// The file of the repository.
    Override,
    /// The recipe that comes with the program.
    Embedded,
}

/// Why there is no such recipe.
pub open spec fn unknown_text(name: Seq<char>) -> Seq<char> {
    "unknown embedded recipe: "@ + name
}

/// Where the recipe `name` is taken from; `overridden` says whether the
/// repository has a file for it. A name that is no recipe's is refused, whether
/// there is such a file or not.
pub fn path(name: &str, overridden: bool) -> (r: Result<Source, String>)
    ensures
        match r {
            Ok(s) => recipe_names().contains(name@) && s == (if overridden {
                Source::Override
            } else {
                Source::Embedded
            }),
            Err(e) => !recipe_names().contains(name@) && e@ == unknown_text(name@),
        },
{
    if !member(&names(), name) {
        return Err(Draft::of("unknown embedded recipe: ").put(name).text);
    }
    if overridden {
        Ok(Source::Override)
    } else {
        Ok(Source::Embedded)
    }
}

// ---------------------------------------------------------------------
// The settings file
// ---------------------------------------------------------------------

/// The settings file of a fresh repository. Its gate fails until real commands
/// stand in it.
pub const DEFAULT_CONFIG: &'static str = "# gaggle settings\n\n# Commands that check a change, run from the root of the repository. The\n# placeholder fails until the repository's own commands stand here.\nverify = [\"false\"]\n\n# The full gate at the end of a run, where it is more than `verify`.\n# final_verify = [\"./scripts/e2e.sh\"]\n\n# A command without output and without CPU time for this long is hung; 0 turns\n# the check off.\n# verify_stall_secs = 900\n\n# Wall-clock limit of one command; no limit when unset.\n# verify_timeout_secs = 14400\n\n# [model]\n# provider = \"openai\"\n# model = \"gpt-5\"\n\n# [model.fix]\n# model = \"gpt-5-mini\"\n\n# [commit]\n# sign = false\n\n# [branch]\n# dedicated = false\n";

/// The settings file of a fresh repository.
pub fn default_config_for() -> (r: String)
    ensures
        r@ == DEFAULT_CONFIG@,
{
    owned(DEFAULT_CONFIG)
}

/// A command as a TOML string.
pub open spec fn toml_string(s: Seq<char>) -> Seq<char> {
    "\""@ + text::replaced(
        text::replaced(s, CharSet::One('\\'), "\\\\"@),
        CharSet::One('"'),
        "\\\""@,
    ) + "\""@
}

pub open spec fn toml_strings(l: Seq<Seq<char>>) -> Seq<Seq<char>> {
    l.map_values(|s: Seq<char>| toml_string(s))
}

/// The line that sets a list of commands.
pub open spec fn list_line(key: Seq<char>, cmds: Seq<Seq<char>>) -> Seq<char> {
    key + " = ["@ + text::joined(toml_strings(cmds), ", "@) + "]"@
}

/// The lines of a text, each with what ends it.
pub open spec fn whole_lines(s: Seq<char>) -> Seq<Seq<char>> {
    let all = text::pieces(s, CharSet::One('\n'));
    let ended = all.drop_last().map_values(|l: Seq<char>| l.push('\n'));
    if all.last().len() == 0 {
        ended
    } else {
        ended.push(all.last())
    }
}

/// The line sets the key, or shows in a comment how it is set.
pub open spec fn sets(line: Seq<char>, key: Seq<char>) -> bool {
    let start = text::trim_left(text::trim_right(line, CharSet::LineEnd), CharSet::Space);
    text::begins(start, key + " = ["@) || text::begins(start, "# "@ + key + " = ["@)
}

/// What ends a line.
pub open spec fn ending(line: Seq<char>) -> Seq<char> {
    if text::ends(line, "\r\n"@) {
        "\r\n"@
    } else if text::ends(line, "\n"@) {
        "\n"@
    } else {
        Seq::empty()
    }
}

/// The text of the lines, with the first that sets the key replaced; and whether
/// there was one.
pub open spec fn with_line(ls: Seq<Seq<char>>, key: Seq<char>, line: Seq<char>) -> (
    Seq<char>,
    bool,
)
    decreases ls.len(),
{
    if ls.len() == 0 {
        (Seq::empty(), false)
    } else {
        let (before, done) = with_line(ls.drop_last(), key, line);
        if !done && sets(ls.last(), key) {
            (before + line + ending(ls.last()), true)
        } else {
            (before + ls.last(), done)
        }
    }
}

/// The text with the list of commands under the key: in place of the first line
/// that sets it, or on a line of its own at the end.
pub open spec fn with_list(s: Seq<char>, key: Seq<char>, cmds: Seq<Seq<char>>) -> Seq<char> {
    let line = list_line(key, cmds);
    let (out, done) = with_line(whole_lines(s), key, line);
    if done {
        out
    } else if out.len() > 0 && !text::ends(out, "\n"@) {
        out + "\n"@ + line + "\n"@
    } else {
        out + line + "\n"@
    }
}

fn quote(s: &str) -> (r: String)
    ensures
        r@ == toml_string(s@),
{
    let one = replace(s, CharSet::One('\\'), "\\\\");
    let two = replace(one.as_str(), CharSet::One('"'), "\\\"");
    Draft::of("\"").put(two.as_str()).put("\"").text
}

fn make_list_line(key: &str, cmds: &Vec<String>) -> (r: String)
    ensures
        r@ == list_line(key@, text::texts(cmds@)),
{
    let ghost all = toml_strings(text::texts(cmds@));
    let mut quoted: Vec<String> = Vec::new();
    let mut i: usize = 0;
    assert(text::texts(quoted@) =~= all.take(0));
    while i < cmds.len()
        invariant
            i <= cmds.len(),
            all == toml_strings(text::texts(cmds@)),
            text::texts(quoted@) == all.take(i as int),
        decreases cmds.len() - i,
    {
        let ghost was = text::texts(quoted@);
        let q = quote(cmds[i].as_str());
        let ghost v = q@;
        quoted.push(q);
        assert(text::texts(cmds@)[i as int] == cmds@[i as int]@);
        assert(all[i as int] == v);
        assert(text::texts(quoted@) =~= was.push(v));
        assert(all.take(i as int).push(all[i as int]) =~= all.take(i + 1));
        i = i + 1;
    }
    assert(all.take(all.len() as int) =~= all);
    Draft::of(key).put(" = [").put(join(&quoted, ", ").as_str()).put("]").text
}

fn split_whole_lines(s: &str) -> (r: Vec<String>)
    ensures
        text::texts(r@) == whole_lines(s@),
{
    let all: Vec<String> = split(s, CharSet::One('\n'));
    let ghost parts = text::pieces(s@, CharSet::One('\n'));
    proof {
        text::lemma_pieces_nonempty(s@, CharSet::One('\n'));
        assert(text::texts(all@).len() == all.len());
    }
    let last: usize = all.len() - 1;
    let ghost ended = parts.drop_last().map_values(|l: Seq<char>| l.push('\n'));
    let mut out: Vec<String> = Vec::new();
    let mut i: usize = 0;
    assert(text::texts(out@) =~= ended.take(0));
    while i < last
        invariant
            i <= last,
            last + 1 == all.len(),
            parts == text::texts(all@),
            ended == parts.drop_last().map_values(|l: Seq<char>| l.push('\n')),
            text::texts(out@) == ended.take(i as int),
        decreases last - i,
    {
        let ghost was = text::texts(out@);
        let mut l: String = all[i].clone();
        l.push('\n');
        let ghost v = l@;
        out.push(l);
        assert(parts[i as int] == all@[i as int]@);
        assert(ended[i as int] == v);
        assert(text::texts(out@) =~= was.push(v));
        assert(ended.take(i as int).push(ended[i as int]) =~= ended.take(i + 1));
        i = i + 1;
    }
    assert(ended.take(ended.len() as int) =~= ended);
    assert(parts.last() == all@[last as int]@);
    if !all[last].as_str().is_empty() {
        let ghost was = text::texts(out@);
        out.push(all[last].clone());
        assert(text::texts(out@) =~= was.push(parts.last()));
    }
    out
}

fn is_setting(line: &str, key: &str) -> (r: bool)
    ensures
        r == sets(line@, key@),
{
    let start = trim_start(trim_end(line, CharSet::LineEnd), CharSet::Space);
    let active = Draft::of(key).put(" = [").text;
    let commented = Draft::of("# ").put(key).put(" = [").text;
    starts_with(start, active.as_str()) || starts_with(start, commented.as_str())
}

/// The text with the list of commands under the key.
pub fn replace_array_key(s: &str, key: &str, cmds: &Vec<String>) -> (r: String)
    ensures
        r@ == with_list(s@, key@, text::texts(cmds@)),
{
    let line = make_list_line(key, cmds);
    let ls = split_whole_lines(s);
    let ghost all = text::texts(ls@);
    let mut out: String = String::new();
    let mut done: bool = false;
    let mut i: usize = 0;
    assert(all.take(0) =~= Seq::empty());
    assert(out@ =~= Seq::empty());
    while i < ls.len()
        invariant
            i <= ls.len(),
            all == text::texts(ls@),
            line@ == list_line(key@, text::texts(cmds@)),
            with_line(all.take(i as int), key@, line@) == (out@, done),
        decreases ls.len() - i,
    {
        assert(all.take(i + 1).drop_last() =~= all.take(i as int));
        assert(all.take(i + 1).last() == ls@[i as int]@);
        let l = ls[i].as_str();
        if !done && is_setting(l, key) {
            done = true;
            out.append(line.as_str());
            if ends_with(l, "\r\n") {
                out.append("\r\n");
            } else if ends_with(l, "\n") {
                out.append("\n");
            } else {
                assert(out@ + Seq::<char>::empty() =~= out@);
            }
        } else {
            out.append(l);
        }
        i = i + 1;
    }
    assert(all.take(all.len() as int) =~= all);
    if !done {
        if !out.as_str().is_empty() && !ends_with(out.as_str(), "\n") {
            out.append("\n");
        }
        out.append(line.as_str());
        out.append("\n");
    }
    out
}

/// The settings with the gates that a discovery named. Without commands for the
/// first gate nothing is changed; without commands for the second it has those
/// of the first.
pub open spec fn with_gates(s: Seq<char>, first: Seq<Seq<char>>, full: Seq<Seq<char>>) -> Option<
    Seq<char>,
> {
    if first.len() == 0 {
        None
    } else {
        Some(
            with_list(
                with_list(s, "verify"@, first),
                "final_verify"@,
                if full.len() == 0 {
                    first
                } else {
                    full
                },
            ),
        )
    }
}

/// The settings with the gates that a discovery named; nothing where it named
/// none.
pub fn apply_discovered_gates(s: &str, verify: &Vec<String>, final_verify: &Vec<String>) -> (r:
    Option<String>)
    ensures
        text::opt(r) == with_gates(s@, text::texts(verify@), text::texts(final_verify@)),
{
    assert(text::texts(verify@).len() == verify@.len());
    assert(text::texts(final_verify@).len() == final_verify@.len());
    if verify.len() == 0 {
        return None;
    }
    let one = replace_array_key(s, "verify", verify);
    if final_verify.len() == 0 {
        Some(replace_array_key(one.as_str(), "final_verify", verify))
    } else {
        Some(replace_array_key(one.as_str(), "final_verify", final_verify))
    }
}

// ---------------------------------------------------------------------
// The ignore rule
// ---------------------------------------------------------------------

/// What marks the rule in `.gitignore`.
pub const GITIGNORE_MARK: &'static str = "# gaggle: ignore the review directory";

/// The rule with its mark.
pub const GITIGNORE_BLOCK: &'static str = "# gaggle: ignore the review directory\n.review/\n";

/// The line ignores the directory of the harness.
pub open spec fn ignores(line: Seq<char>) -> bool {
    let l = text::trimmed(line);
    l == ".review"@ || l == "/.review"@ || l == ".review/"@ || l == "/.review/"@ || l
        == ".review/*"@ || l == "/.review/*"@
}

/// The directory of the harness is ignored already, by a rule or by a mark that
/// was left with one.
pub open spec fn covered(s: Seq<char>) -> bool {
    text::has_text(s, GITIGNORE_MARK@) || text::has_text(
        s,
        "# sift: keep durable config; ignore run state"@,
    ) || text::has_text(s, "# gaggle: keep durable config; ignore run state"@) || (exists|i: int|
        0 <= i < text::lines(s).len() && ignores(#[trigger] text::lines(s)[i]))
}

fn line_ignores(line: &str) -> (r: bool)
    ensures
        r == ignores(line@),
{
    let l = trim(line);
    same(l, ".review") || same(l, "/.review") || same(l, ".review/") || same(l, "/.review/")
        || same(l, ".review/*") || same(l, "/.review/*")
}

/// Whether the directory of the harness is ignored already.
pub fn gitignore_has_review_rules(s: &str) -> (r: bool)
    ensures
        r == covered(s@),
{
    if contains(s, GITIGNORE_MARK) || contains(s, "# sift: keep durable config; ignore run state")
        || contains(s, "# gaggle: keep durable config; ignore run state") {
        return true;
    }
    let ls = lines_of(s);
    let ghost all = text::lines(s@);
    let mut i: usize = 0;
    while i < ls.len()
        invariant
            i <= ls.len(),
            all == text::lines(s@),
            all == text::texts(ls@),
            forall|j: int| 0 <= j < i ==> !ignores(#[trigger] all[j]),
        decreases ls.len() - i,
    {
        assert(all[i as int] == ls@[i as int]@);
        if line_ignores(ls[i].as_str()) {
            return true;
        }
        i = i + 1;
    }
    assert(all.len() == ls@.len());
    false
}

/// The text with the rule at its end, a blank line before it.
pub open spec fn with_rule(s: Seq<char>) -> Seq<char> {
    if s.len() == 0 {
        GITIGNORE_BLOCK@
    } else if text::ends(s, "\n"@) {
        s + "\n"@ + GITIGNORE_BLOCK@
    } else {
        s + "\n"@ + "\n"@ + GITIGNORE_BLOCK@
    }
}

/// The contents of `.gitignore` with the rule; nothing where it is covered
/// already.
pub fn ensure_gitignore(existing: &str) -> (r: Option<String>)
    ensures
        text::opt(r) == (if covered(existing@) {
            None
        } else {
            Some(with_rule(existing@))
        }),
{
    if gitignore_has_review_rules(existing) {
        return None;
    }
    if existing.is_empty() {
        return Some(owned(GITIGNORE_BLOCK));
    }
    if ends_with(existing, "\n") {
        Some(Draft::of(existing).put("\n").put(GITIGNORE_BLOCK).text)
    } else {
        Some(Draft::of(existing).put("\n").put("\n").put(GITIGNORE_BLOCK).text)
    }
}

/// The rule is appended once: a file that has it is left alone.
pub proof fn law_rule_is_appended_once(s: Seq<char>)
    ensures
        covered(with_rule(s)),
{
    reveal_strlit("# gaggle: ignore the review directory");
    reveal_strlit("# gaggle: ignore the review directory\n.review/\n");
    let t = with_rule(s);
    let k = t.len() - GITIGNORE_BLOCK@.len();
    assert(t.skip(k as int) =~= GITIGNORE_BLOCK@);
    assert(t.subrange(k as int, k + GITIGNORE_MARK@.len()) =~= GITIGNORE_MARK@) by {
        assert forall|i: int| 0 <= i < GITIGNORE_MARK@.len() implies t[k + i]
            == GITIGNORE_MARK@[i] by {
            assert(t.skip(k as int)[i] == t[k + i]);
            assert(GITIGNORE_BLOCK@[i] == GITIGNORE_MARK@[i]);
        }
    }
    assert(text::occurs_at(t, GITIGNORE_MARK@, k as int));
}

// ---------------------------------------------------------------------
// Laws of the settings
// ---------------------------------------------------------------------

/// The texts one after another.
pub open spec fn flat(ls: Seq<Seq<char>>) -> Seq<char>
    decreases ls.len(),
{
    if ls.len() == 0 {
        Seq::empty()
    } else {
        flat(ls.drop_last()) + ls.last()
    }
}

/// A line with at most one line feed, at its end.
spec fn single(l: Seq<char>) -> bool {
    l.len() > 0 && forall|i: int| 0 <= i < l.len() - 1 ==> #[trigger] l[i] != '\n'
}

/// A line that has its end.
spec fn finished(l: Seq<char>) -> bool {
    single(l) && l.last() == '\n'
}

/// Lines of which only the last may lack its end.
spec fn proper(ls: Seq<Seq<char>>) -> bool {
    &&& forall|i: int| 0 <= i < ls.len() ==> single(#[trigger] ls[i])
    &&& forall|i: int| 0 <= i < ls.len() - 1 ==> finished(#[trigger] ls[i])
}

spec fn all_finished(ls: Seq<Seq<char>>) -> bool {
    forall|i: int| 0 <= i < ls.len() ==> finished(#[trigger] ls[i])
}

spec fn marked(ls: Seq<Seq<char>>) -> Seq<Seq<char>> {
    ls.map_values(|l: Seq<char>| l.push('\n'))
}

spec fn cut(ls: Seq<Seq<char>>) -> Seq<Seq<char>> {
    ls.map_values(|l: Seq<char>| l.drop_last())
}

/// What a whole line says.
spec fn stripped(l: Seq<char>) -> Seq<char> {
    if l.last() == '\n' {
        text::without_cr(l.drop_last())
    } else {
        l
    }
}

/// The lines with the first that sets the key replaced; and whether there was
/// one.
spec fn swapped(ls: Seq<Seq<char>>, key: Seq<char>, line: Seq<char>) -> (Seq<Seq<char>>, bool)
    decreases ls.len(),
{
    if ls.len() == 0 {
        (Seq::empty(), false)
    } else {
        let (before, done) = swapped(ls.drop_last(), key, line);
        if !done && sets(ls.last(), key) {
            (before.push(line + ending(ls.last())), true)
        } else {
            (before.push(ls.last()), done)
        }
    }
}

proof fn lemma_swapped_text(ls: Seq<Seq<char>>, key: Seq<char>, line: Seq<char>)
    ensures
        with_line(ls, key, line) == (flat(swapped(ls, key, line).0), swapped(ls, key, line).1),
    decreases ls.len(),
{
    if ls.len() > 0 {
        lemma_swapped_text(ls.drop_last(), key, line);
        let (before, done) = swapped(ls.drop_last(), key, line);
        let l = ls.last();
        let n = line + ending(l);
        assert(before.push(n).drop_last() =~= before);
        assert(before.push(l).drop_last() =~= before);
        assert(flat(before) + n =~= flat(before) + line + ending(l));
    }
}

proof fn lemma_ending(l: Seq<char>)
    requires
        single(l),
    ensures
        l.last() == '\n' ==> ending(l) == "\n"@ || ending(l) == "\r\n"@,
        l.last() != '\n' ==> ending(l).len() == 0,
{
    reveal_strlit("\n");
    reveal_strlit("\r\n");
    let n = l.len() as int;
    if text::ends(l, "\n"@) {
        assert(l.subrange(n - 1, n)[0] == "\n"@[0]);
    }
    if text::ends(l, "\r\n"@) {
        assert(l.subrange(n - 2, n)[1] == "\r\n"@[1]);
    }
    if l.last() == '\n' {
        assert(l.subrange(n - 1, n) =~= "\n"@);
    }
}

proof fn lemma_swapped(ls: Seq<Seq<char>>, key: Seq<char>, line: Seq<char>)
    requires
        proper(ls),
        line.len() > 0,
        !text::has_char(line, CharSet::One('\n')),
    ensures
        ({
            let (now, done) = swapped(ls, key, line);
            &&& proper(now)
            &&& now.len() == ls.len()
            &&& forall|i: int| 0 <= i < ls.len() && !sets(#[trigger] ls[i], key) ==> now[i] == ls[i]
            &&& done ==> exists|i: int|
                0 <= i < ls.len() && #[trigger] now[i] == line + ending(ls[i])
            &&& !done ==> now == ls
            &&& all_finished(ls) ==> all_finished(now)
        }),
    decreases ls.len(),
{
    reveal_strlit("\n");
    reveal_strlit("\r\n");
    if ls.len() > 0 {
        let front = ls.drop_last();
        let l = ls.last();
        assert(proper(front)) by {
            assert forall|i: int| 0 <= i < front.len() implies single(#[trigger] front[i]) by {
                assert(single(ls[i]));
            }
            assert forall|i: int| 0 <= i < front.len() - 1 implies finished(
                #[trigger] front[i],
            ) by {
                assert(finished(ls[i]));
            }
        }
        assert(all_finished(front)) by {
            assert forall|i: int| 0 <= i < front.len() implies finished(#[trigger] front[i]) by {
                assert(finished(ls[i]));
            }
        }
        lemma_swapped(front, key, line);
        let (before, was) = swapped(front, key, line);
        let (now, done) = swapped(ls, key, line);
        assert(single(ls[ls.len() - 1]));
        lemma_ending(l);
        let n = line + ending(l);
        assert(single(n)) by {
            assert forall|i: int| 0 <= i < n.len() - 1 implies #[trigger] n[i] != '\n' by {
                if i < line.len() {
                    assert(n[i] == line[i]);
                    assert(!CharSet::One('\n').has(line[i]));
                }
            }
        }
        assert(l.last() == '\n' ==> n.last() == '\n');
        assert(now[now.len() - 1] == n || now[now.len() - 1] == l);
        assert forall|i: int| 0 <= i < now.len() implies single(#[trigger] now[i]) by {
            if i < before.len() {
                assert(now[i] == before[i]);
            }
        }
        assert forall|i: int| 0 <= i < now.len() - 1 implies finished(#[trigger] now[i]) by {
            assert(now[i] == before[i]);
        }
        assert forall|i: int| 0 <= i < ls.len() && !sets(#[trigger] ls[i], key) implies now[i]
            == ls[i] by {
            if i < front.len() {
                assert(front[i] == ls[i]);
                assert(now[i] == before[i]);
            }
        }
        if done {
            if was {
                let i = choose|i: int|
                    0 <= i < front.len() && #[trigger] before[i] == line + ending(front[i]);
                assert(now[i] == line + ending(ls[i]));
            } else {
                assert(now[ls.len() - 1] == line + ending(ls[ls.len() - 1]));
            }
        } else {
            assert(now =~= ls);
        }
        if all_finished(ls) {
            assert(finished(ls[ls.len() - 1]));
            assert forall|i: int| 0 <= i < now.len() implies finished(#[trigger] now[i]) by {
                if i < before.len() {
                    assert(now[i] == before[i]);
                }
            }
        }
    } else {
        assert(swapped(ls, key, line).0 =~= ls);
    }
}

proof fn lemma_marks(s: Seq<char>)
    ensures
        ({
            let p = text::pieces(s, CharSet::One('\n'));
            &&& p.len() > 0
            &&& flat(marked(p.drop_last())) + p.last() == s
            &&& forall|i: int, j: int|
                0 <= i < p.len() && 0 <= j < p[i].len() ==> #[trigger] p[i][j] != '\n'
        }),
    decreases s.len(),
{
    let p = text::pieces(s, CharSet::One('\n'));
    if s.len() == 0 {
        assert(marked(p.drop_last()) =~= Seq::empty());
        assert(flat(marked(p.drop_last())) + p.last() =~= s);
    } else {
        let front = s.drop_last();
        let c = s.last();
        lemma_marks(front);
        let q = text::pieces(front, CharSet::One('\n'));
        if c == '\n' {
            assert(p.drop_last() =~= q);
            assert(marked(q) =~= marked(q.drop_last()).push(q.last().push('\n')));
            assert(marked(q).drop_last() =~= marked(q.drop_last()));
            assert(flat(marked(q)) =~= (flat(marked(q.drop_last())) + q.last()).push('\n'));
            assert(s =~= front.push('\n'));
            assert(flat(marked(q)) + p.last() =~= s);
        } else {
            assert(p.drop_last() =~= q.drop_last());
            assert(flat(marked(p.drop_last())) + p.last() =~= (flat(marked(q.drop_last()))
                + q.last()).push(c));
            assert(s =~= front.push(c));
        }
        assert forall|i: int, j: int| 0 <= i < p.len() && 0 <= j < p[i].len() implies #[trigger] p[i][j]
            != '\n' by {
            if i < p.len() - 1 {
                assert(p[i] == q[i]);
                assert(q[i][j] != '\n');
            } else if c != '\n' && j < q.last().len() {
                assert(q[q.len() - 1][j] != '\n');
            }
        }
    }
}

proof fn lemma_whole(s: Seq<char>)
    ensures
        proper(whole_lines(s)),
        flat(whole_lines(s)) == s,
        text::ends(s, "\n"@) || s.len() == 0 ==> all_finished(whole_lines(s)),
        s.len() > 0 && !text::ends(s, "\n"@) ==> whole_lines(s).len() > 0 && whole_lines(
            s,
        ).last().last() != '\n',
{
    reveal_strlit("\n");
    lemma_marks(s);
    let p = text::pieces(s, CharSet::One('\n'));
    let m = marked(p.drop_last());
    let w = whole_lines(s);
    assert(w =~= if p.last().len() == 0 {
        m
    } else {
        m.push(p.last())
    });
    assert forall|i: int| 0 <= i < m.len() implies finished(#[trigger] m[i]) by {
        assert(m[i] == p[i].push('\n'));
        assert forall|j: int| 0 <= j < m[i].len() - 1 implies #[trigger] m[i][j] != '\n' by {
            assert(p[i][j] != '\n');
        }
    }
    if p.last().len() == 0 {
        assert(flat(m) + p.last() =~= flat(m));
        if s.len() > 0 {
            assert(m.len() > 0);
            assert(finished(m[m.len() - 1]));
            assert(s.last() == '\n');
            assert(s.subrange(s.len() - 1, s.len() as int) =~= "\n"@);
        }
    } else {
        assert(w.drop_last() =~= m);
        let l = p.last();
        assert(single(l)) by {
            assert forall|j: int| 0 <= j < l.len() - 1 implies #[trigger] l[j] != '\n' by {
                assert(p[p.len() - 1][j] != '\n');
            }
        }
        assert(p[p.len() - 1][l.len() - 1] != '\n');
        assert(s.last() == l.last());
        if text::ends(s, "\n"@) {
            assert(s.subrange(s.len() - 1, s.len() as int)[0] == "\n"@[0]);
        }
        assert forall|i: int| 0 <= i < w.len() implies single(#[trigger] w[i]) by {
            if i < m.len() {
                assert(w[i] == m[i]);
            }
        }
        assert forall|i: int| 0 <= i < w.len() - 1 implies finished(#[trigger] w[i]) by {
            assert(w[i] == m[i]);
        }
    }
}

proof fn lemma_finished_pieces(ls: Seq<Seq<char>>)
    requires
        all_finished(ls),
    ensures
        text::pieces(flat(ls), CharSet::One('\n')) == cut(ls).push(Seq::empty()),
    decreases ls.len(),
{
    let set = CharSet::One('\n');
    if ls.len() == 0 {
        assert(cut(ls).push(Seq::<char>::empty()) =~= seq![Seq::<char>::empty()]);
    } else {
        let front = ls.drop_last();
        let l = ls.last();
        assert(finished(ls[ls.len() - 1]));
        assert forall|i: int| 0 <= i < front.len() implies finished(#[trigger] front[i]) by {
            assert(finished(ls[i]));
        }
        lemma_finished_pieces(front);
        let y = l.drop_last();
        assert forall|i: int| 0 <= i < y.len() implies !set.has(#[trigger] y[i]) by {
            assert(l[i] != '\n');
        }
        roundtrip::lemma_pieces_extend(flat(front), y, set);
        assert(flat(ls) =~= (flat(front) + y).push('\n'));
        assert(flat(ls).drop_last() =~= flat(front) + y);
        assert(Seq::<char>::empty() + y =~= y);
        assert(cut(front).push(Seq::<char>::empty()).drop_last() =~= cut(front));
        assert(cut(ls) =~= cut(front).push(y));
    }
}

/// Text that is put together of lines has those lines.
proof fn lemma_lines_of_flat(ls: Seq<Seq<char>>)
    requires
        proper(ls),
    ensures
        whole_lines(flat(ls)) == ls,
        text::lines(flat(ls)) == ls.map_values(|l: Seq<char>| stripped(l)),
{
    let set = CharSet::One('\n');
    let s = flat(ls);
    let told = ls.map_values(|l: Seq<char>| stripped(l));
    if ls.len() == 0 || ls.last().last() == '\n' {
        assert forall|i: int| 0 <= i < ls.len() implies finished(#[trigger] ls[i]) by {
            assert(single(ls[i]));
        }
        lemma_finished_pieces(ls);
        let p = text::pieces(s, set);
        assert(p.drop_last() =~= cut(ls));
        assert forall|i: int| 0 <= i < ls.len() implies #[trigger] ls[i] == cut(ls)[i].push(
            '\n',
        ) by {
            assert(finished(ls[i]));
            assert(ls[i] =~= ls[i].drop_last().push('\n'));
        }
        assert(whole_lines(s) =~= ls);
        assert(text::lines(s) =~= told) by {
            assert forall|i: int| 0 <= i < ls.len() implies #[trigger] told[i] == text::without_cr(
                cut(ls)[i],
            ) by {
                assert(finished(ls[i]));
            }
        }
    } else {
        let front = ls.drop_last();
        let l = ls.last();
        assert forall|i: int| 0 <= i < front.len() implies finished(#[trigger] front[i]) by {
            assert(finished(ls[i]));
        }
        lemma_finished_pieces(front);
        assert(single(ls[ls.len() - 1]));
        assert forall|i: int| 0 <= i < l.len() implies !set.has(#[trigger] l[i]) by {
            if i < l.len() - 1 {
                assert(l[i] != '\n');
            }
        }
        roundtrip::lemma_pieces_extend(flat(front), l, set);
        let p = text::pieces(s, set);
        assert(Seq::<char>::empty() + l =~= l);
        assert(cut(front).push(Seq::<char>::empty()).drop_last() =~= cut(front));
        assert(p =~= cut(front).push(l));
        assert(p.drop_last() =~= cut(front));
        assert forall|i: int| 0 <= i < front.len() implies #[trigger] front[i] == cut(front)[i].push(
            '\n',
        ) by {
            assert(finished(front[i]));
            assert(front[i] =~= front[i].drop_last().push('\n'));
        }
        assert(whole_lines(s) =~= ls);
        assert(text::lines(s) =~= told) by {
            assert forall|i: int| 0 <= i < front.len() implies #[trigger] told[i]
                == text::without_cr(cut(front)[i]) by {
                assert(finished(front[i]));
                assert(told[i] == stripped(ls[i]));
            }
        }
    }
}

/// The lines of the text in which the list is set.
spec fn set_lines(s: Seq<char>, key: Seq<char>, line: Seq<char>) -> Seq<Seq<char>> {
    let ls = whole_lines(s);
    let (now, done) = swapped(ls, key, line);
    if done {
        now
    } else if s.len() > 0 && !text::ends(s, "\n"@) {
        ls.drop_last().push(ls.last().push('\n')).push(line.push('\n'))
    } else {
        ls.push(line.push('\n'))
    }
}

proof fn lemma_set_lines(s: Seq<char>, key: Seq<char>, cmds: Seq<Seq<char>>)
    requires
        !text::has_char(list_line(key, cmds), CharSet::One('\n')),
    ensures
        ({
            let line = list_line(key, cmds);
            let now = set_lines(s, key, line);
            let was = whole_lines(s);
            &&& proper(now)
            &&& flat(now) == with_list(s, key, cmds)
            &&& now.len() >= was.len()
            &&& forall|i: int|
                0 <= i < was.len() && !sets(#[trigger] was[i], key) ==> now[i] == was[i] || (i
                    == was.len() - 1 && now[i] == was[i].push('\n'))
            &&& exists|i: int|
                0 <= i < now.len() && (#[trigger] now[i] == line || now[i] == line + "\n"@ || now[i]
                    == line + "\r\n"@)
        }),
{
    reveal_strlit("\n");
    reveal_strlit("\r\n");
    reveal_strlit(" = [");
    reveal_strlit("]");
    let line = list_line(key, cmds);
    let ls = whole_lines(s);
    lemma_whole(s);
    lemma_swapped(ls, key, line);
    lemma_swapped_text(ls, key, line);
    let (swap, done) = swapped(ls, key, line);
    let now = set_lines(s, key, line);
    let own = line.push('\n');
    assert(finished(own)) by {
        assert forall|i: int| 0 <= i < own.len() - 1 implies #[trigger] own[i] != '\n' by {
            assert(!CharSet::One('\n').has(line[i]));
        }
    }
    assert(own =~= line + "\n"@);
    if done {
        let i = choose|i: int| 0 <= i < ls.len() && #[trigger] swap[i] == line + ending(ls[i]);
        assert(single(ls[i]));
        lemma_ending(ls[i]);
        assert(line + Seq::<char>::empty() =~= line);
        assert(now[i] == line + ending(ls[i]));
    } else if s.len() > 0 && !text::ends(s, "\n"@) {
        let last = ls.last().push('\n');
        let head = ls.drop_last().push(last);
        assert(single(ls[ls.len() - 1]));
        assert(finished(last)) by {
            assert forall|i: int| 0 <= i < last.len() - 1 implies #[trigger] last[i] != '\n' by {
                if i < ls.last().len() - 1 {
                    assert(ls.last()[i] != '\n');
                }
            }
        }
        assert(now =~= head.push(own));
        assert forall|i: int| 0 <= i < now.len() implies finished(#[trigger] now[i]) by {
            if i < ls.len() - 1 {
                assert(now[i] == ls[i]);
                assert(finished(ls[i]));
            }
        }
        assert(now.drop_last() =~= head);
        assert(head.drop_last() =~= ls.drop_last());
        assert(flat(head) =~= flat(ls) + "\n"@);
        assert(flat(now) =~= s + "\n"@ + line + "\n"@);
        assert(now[now.len() - 1] == own);
    } else {
        assert forall|i: int| 0 <= i < now.len() implies finished(#[trigger] now[i]) by {
            if i < ls.len() {
                assert(now[i] == ls[i]);
                assert(finished(ls[i]));
            }
        }
        assert(now.drop_last() =~= ls);
        assert(flat(now) =~= s + line + "\n"@);
        assert(now[now.len() - 1] == own);
    }
}

/// A line that ends in a bracket.
spec fn bracketed(l: Seq<char>) -> bool {
    l.len() > 0 && l.last() == ']' && !text::has_char(l, CharSet::One('\n'))
}

proof fn lemma_stripped(l: Seq<char>, w: Seq<char>)
    requires
        bracketed(l),
        w == l || w == l + "\n"@ || w == l + "\r\n"@,
    ensures
        stripped(w) == l,
        stripped(w.push('\n')) == l || w.last() == '\n',
{
    reveal_strlit("\n");
    reveal_strlit("\r\n");
    assert(w.push('\n').drop_last() =~= w);
    if w == l + "\n"@ {
        assert(w.drop_last() =~= l);
    } else if w == l + "\r\n"@ {
        assert(w.drop_last() =~= l.push('\r'));
        assert(w.drop_last().drop_last() =~= l);
    }
}

/// A list of commands that is written to the settings stands there on a line of
/// its own, and no other line is lost: each that does not set the key stays in
/// its place as it is, and only the last may gain a line feed.
pub proof fn law_list_is_written(s: Seq<char>, key: Seq<char>, cmds: Seq<Seq<char>>)
    requires
        !text::has_char(list_line(key, cmds), CharSet::One('\n')),
    ensures
        text::lines(with_list(s, key, cmds)).contains(list_line(key, cmds)),
        whole_lines(with_list(s, key, cmds)).len() >= whole_lines(s).len(),
        forall|i: int|
            0 <= i < whole_lines(s).len() && !sets(#[trigger] whole_lines(s)[i], key) ==> ({
                let now = whole_lines(with_list(s, key, cmds))[i];
                now == whole_lines(s)[i] || (i == whole_lines(s).len() - 1 && now == whole_lines(
                    s,
                )[i].push('\n'))
            }),
{
    reveal_strlit("]");
    let line = list_line(key, cmds);
    let now = set_lines(s, key, line);
    lemma_set_lines(s, key, cmds);
    lemma_lines_of_flat(now);
    let ls = text::lines(with_list(s, key, cmds));
    let i = choose|i: int|
        0 <= i < now.len() && (#[trigger] now[i] == line || now[i] == line + "\n"@ || now[i] == line
            + "\r\n"@);
    assert(line.last() == ']');
    lemma_stripped(line, now[i]);
    assert(ls[i] == stripped(now[i]));
}

proof fn lemma_other_key(l: Seq<char>, w: Seq<char>)
    requires
        bracketed(l),
        l[0] == 'v',
        w == l || w == l + "\n"@ || w == l + "\r\n"@,
    ensures
        !sets(w, "final_verify"@),
{
    reveal_strlit("\n");
    reveal_strlit("\r\n");
    reveal_strlit("final_verify");
    reveal_strlit(" = [");
    reveal_strlit("# ");
    let set = CharSet::LineEnd;
    assert(text::trim_right(l, set) == l);
    if w == l + "\n"@ {
        assert(w.drop_last() =~= l);
        assert(text::trim_right(w, set) == l);
    } else if w == l + "\r\n"@ {
        assert(w.drop_last() =~= l.push('\r'));
        assert(w.drop_last().drop_last() =~= l);
        assert(text::trim_right(w.drop_last(), set) == text::trim_right(l, set));
        assert(text::trim_right(w, set) == l);
    }
    assert(text::trim_left(l, CharSet::Space) == l);
    let a = "final_verify"@ + " = ["@;
    let b = "# "@ + "final_verify"@ + " = ["@;
    assert(a[0] == 'f');
    assert(b[0] == '#');
    if text::begins(l, a) {
        assert(l.subrange(0, a.len() as int)[0] == a[0]);
    }
    if text::begins(l, b) {
        assert(l.subrange(0, b.len() as int)[0] == b[0]);
    }
}

/// The gates that a discovery named stand in the settings afterwards, each on a
/// line of its own, whatever stood there before.
pub proof fn law_gates_are_written(s: Seq<char>, first: Seq<Seq<char>>, full: Seq<Seq<char>>)
    requires
        first.len() > 0,
        !text::has_char(list_line("verify"@, first), CharSet::One('\n')),
        !text::has_char(
            list_line(
                "final_verify"@,
                if full.len() == 0 {
                    first
                } else {
                    full
                },
            ),
            CharSet::One('\n'),
        ),
    ensures
        with_gates(s, first, full) is Some,
        text::lines(with_gates(s, first, full)->Some_0).contains(list_line("verify"@, first)),
        text::lines(with_gates(s, first, full)->Some_0).contains(
            list_line(
                "final_verify"@,
                if full.len() == 0 {
                    first
                } else {
                    full
                },
            ),
        ),
{
    reveal_strlit("]");
    reveal_strlit("verify");
    reveal_strlit(" = [");
    let last = if full.len() == 0 {
        first
    } else {
        full
    };
    let line = list_line("verify"@, first);
    let one = with_list(s, "verify"@, first);
    let two = with_list(one, "final_verify"@, last);
    let mid = set_lines(s, "verify"@, line);
    lemma_set_lines(s, "verify"@, first);
    lemma_lines_of_flat(mid);
    law_list_is_written(one, "final_verify"@, last);
    let i = choose|i: int|
        0 <= i < mid.len() && (#[trigger] mid[i] == line || mid[i] == line + "\n"@ || mid[i] == line
            + "\r\n"@);
    assert(line.last() == ']');
    assert(line[0] == 'v');
    lemma_other_key(line, mid[i]);
    lemma_stripped(line, mid[i]);
    let now = set_lines(one, "final_verify"@, list_line("final_verify"@, last));
    lemma_set_lines(one, "final_verify"@, last);
    lemma_lines_of_flat(now);
    assert(whole_lines(one) == mid);
    assert(!sets(whole_lines(one)[i], "final_verify"@));
    assert(now[i] == mid[i] || now[i] == mid[i].push('\n'));
    assert(proper(now));
    assert(single(now[i]));
    if now[i] == mid[i].push('\n') && mid[i].last() == '\n' {
        assert(now[i][mid[i].len() - 1] == '\n');
    }
    assert(text::lines(two)[i] == stripped(now[i]));
}

proof fn lemma_no_feed_add(a: Seq<char>, b: Seq<char>)
    requires
        !text::has_char(a, CharSet::One('\n')),
        !text::has_char(b, CharSet::One('\n')),
    ensures
        !text::has_char(a + b, CharSet::One('\n')),
{
    let set = CharSet::One('\n');
    assert forall|i: int| 0 <= i < (a + b).len() implies !set.has(#[trigger] (a + b)[i]) by {
        if i < a.len() {
            assert(!set.has(a[i]));
        } else {
            assert(!set.has(b[i - a.len()]));
        }
    }
}

proof fn lemma_no_feed_replaced(s: Seq<char>, set: CharSet, with: Seq<char>)
    requires
        !text::has_char(s, CharSet::One('\n')),
        !text::has_char(with, CharSet::One('\n')),
    ensures
        !text::has_char(text::replaced(s, set, with), CharSet::One('\n')),
    decreases s.len(),
{
    if s.len() > 0 {
        let front = s.drop_last();
        assert forall|i: int| 0 <= i < front.len() implies !CharSet::One('\n').has(
            #[trigger] front[i],
        ) by {
            assert(!CharSet::One('\n').has(s[i]));
        }
        assert(!CharSet::One('\n').has(s[s.len() - 1]));
        lemma_no_feed_replaced(front, set, with);
        lemma_no_feed_add(
            text::replaced(front, set, with),
            if set.has(s.last()) {
                with
            } else {
                seq![s.last()]
            },
        );
    }
}

proof fn lemma_no_feed_joined(parts: Seq<Seq<char>>, sep: Seq<char>)
    requires
        forall|i: int|
            0 <= i < parts.len() ==> !text::has_char(#[trigger] parts[i], CharSet::One('\n')),
        !text::has_char(sep, CharSet::One('\n')),
    ensures
        !text::has_char(text::joined(parts, sep), CharSet::One('\n')),
    decreases parts.len(),
{
    if parts.len() == 1 {
        assert(!text::has_char(parts[0], CharSet::One('\n')));
    } else if parts.len() > 1 {
        lemma_no_feed_joined(parts.drop_last(), sep);
        lemma_no_feed_add(text::joined(parts.drop_last(), sep), sep);
        lemma_no_feed_add(text::joined(parts.drop_last(), sep) + sep, parts[parts.len() - 1]);
    }
}

proof fn lemma_no_feed_in_line(key: Seq<char>, cmds: Seq<Seq<char>>)
    requires
        !text::has_char(key, CharSet::One('\n')),
        forall|i: int|
            0 <= i < cmds.len() ==> !text::has_char(#[trigger] cmds[i], CharSet::One('\n')),
    ensures
        !text::has_char(list_line(key, cmds), CharSet::One('\n')),
{
    reveal_strlit("\"");
    reveal_strlit("\\\\");
    reveal_strlit("\\\"");
    reveal_strlit(" = [");
    reveal_strlit(", ");
    reveal_strlit("]");
    let parts = toml_strings(cmds);
    assert forall|i: int| 0 <= i < parts.len() implies !text::has_char(
        #[trigger] parts[i],
        CharSet::One('\n'),
    ) by {
        let one = text::replaced(cmds[i], CharSet::One('\\'), "\\\\"@);
        let two = text::replaced(one, CharSet::One('"'), "\\\""@);
        lemma_no_feed_replaced(cmds[i], CharSet::One('\\'), "\\\\"@);
        lemma_no_feed_replaced(one, CharSet::One('"'), "\\\""@);
        lemma_no_feed_add("\""@, two);
        lemma_no_feed_add("\""@ + two, "\""@);
    }
    lemma_no_feed_joined(parts, ", "@);
    lemma_no_feed_add(key, " = ["@);
    lemma_no_feed_add(key + " = ["@, text::joined(parts, ", "@));
    lemma_no_feed_add(key + " = ["@ + text::joined(parts, ", "@), "]"@);
}

/// The line that sets a list is a line that sets its key, whatever ends it.
proof fn lemma_own_line(key: Seq<char>, cmds: Seq<Seq<char>>, e: Seq<char>)
    requires
        key.len() > 0,
        !text::has_char(key, CharSet::Space),
        e.len() == 0 || e == "\n"@ || e == "\r\n"@,
    ensures
        sets(list_line(key, cmds) + e, key),
        ending(list_line(key, cmds) + e) == e,
{
    reveal_strlit("\n");
    reveal_strlit("\r\n");
    reveal_strlit(" = [");
    reveal_strlit("]");
    let set = CharSet::LineEnd;
    let l = list_line(key, cmds);
    let w = l + e;
    let n = w.len() as int;
    assert(l.last() == ']');
    assert(text::trim_right(l, set) == l);
    if e.len() == 0 {
        assert(w =~= l);
        if text::ends(w, "\n"@) {
            assert(w.subrange(n - 1, n)[0] == "\n"@[0]);
        }
        if text::ends(w, "\r\n"@) {
            assert(w.subrange(n - 2, n)[1] == "\r\n"@[1]);
        }
    } else if e == "\n"@ {
        assert(w.drop_last() =~= l);
        assert(text::trim_right(w, set) == l);
        assert(w.subrange(n - 1, n) =~= "\n"@);
        if text::ends(w, "\r\n"@) {
            assert(w.subrange(n - 2, n)[0] == "\r\n"@[0]);
        }
    } else {
        assert(w.drop_last() =~= l.push('\r'));
        assert(w.drop_last().drop_last() =~= l);
        assert(text::trim_right(w.drop_last(), set) == text::trim_right(l, set));
        assert(text::trim_right(w, set) == l);
        assert(w.subrange(n - 2, n) =~= "\r\n"@);
    }
    assert(l[0] == key[0]);
    assert(!CharSet::Space.has(key[0]));
    assert(text::trim_left(l, CharSet::Space) == l);
    let start = key + " = ["@;
    assert(l.subrange(0, start.len() as int) =~= start);
}

/// Lines among which one was replaced stay as they are when the same is done
/// again.
proof fn lemma_swapped_twice(ls: Seq<Seq<char>>, key: Seq<char>, line: Seq<char>)
    requires
        swapped(ls, key, line).1,
        forall|l: Seq<char>|
            sets(line + #[trigger] ending(l), key) && ending(line + ending(l)) == ending(l),
    ensures
        swapped(swapped(ls, key, line).0, key, line) == (swapped(ls, key, line).0, true),
    decreases ls.len(),
{
    let front = ls.drop_last();
    let (before, done) = swapped(front, key, line);
    let now = swapped(ls, key, line).0;
    assert(now.drop_last() =~= before);
    if done {
        lemma_swapped_twice(front, key, line);
    } else {
        lemma_unswapped(front, key, line);
        let l = ls.last();
        assert(now.last() == line + ending(l));
        assert(sets(now.last(), key));
        assert(line + ending(now.last()) == now.last());
    }
}

proof fn lemma_unswapped(ls: Seq<Seq<char>>, key: Seq<char>, line: Seq<char>)
    requires
        !swapped(ls, key, line).1,
    ensures
        swapped(ls, key, line).0 == ls,
    decreases ls.len(),
{
    if ls.len() > 0 {
        lemma_unswapped(ls.drop_last(), key, line);
        assert(ls.drop_last().push(ls.last()) =~= ls);
    }
}

/// The lines of the settings to which a list was written stay as they are when
/// it is written again.
proof fn lemma_written_settles(s: Seq<char>, key: Seq<char>, cmds: Seq<Seq<char>>)
    requires
        key.len() > 0,
        !text::has_char(key, CharSet::Space),
        forall|i: int|
            0 <= i < cmds.len() ==> !text::has_char(#[trigger] cmds[i], CharSet::One('\n')),
    ensures
        ({
            let now = whole_lines(with_list(s, key, cmds));
            swapped(now, key, list_line(key, cmds)) == (now, true)
        }),
{
    reveal_strlit("\n");
    reveal_strlit("\r\n");
    assert forall|i: int| 0 <= i < key.len() implies !CharSet::One('\n').has(
        #[trigger] key[i],
    ) by {
        assert(!CharSet::Space.has(key[i]));
    }
    lemma_no_feed_in_line(key, cmds);
    let line = list_line(key, cmds);
    let ls = whole_lines(s);
    let one = with_list(s, key, cmds);
    let now = set_lines(s, key, line);
    lemma_set_lines(s, key, cmds);
    lemma_lines_of_flat(now);
    assert(whole_lines(one) == now);
    assert forall|l: Seq<char>|
        sets(line + #[trigger] ending(l), key) && ending(line + ending(l)) == ending(l) by {
        lemma_own_line(key, cmds, ending(l));
    }
    let (_, done) = swapped(ls, key, line);
    if done {
        lemma_swapped_twice(ls, key, line);
    } else {
        lemma_unswapped(ls, key, line);
        let own = line.push('\n');
        let head = now.drop_last();
        assert(own =~= line + "\n"@);
        lemma_own_line(key, cmds, "\n"@);
        assert(!swapped(head, key, line).1 && swapped(head, key, line).0 == head) by {
            if s.len() > 0 && !text::ends(s, "\n"@) {
                let last = ls.last();
                lemma_whole(s);
                lemma_unswapped(ls.drop_last(), key, line);
                assert(head =~= ls.drop_last().push(last.push('\n')));
                assert(head.drop_last() =~= ls.drop_last());
                assert(last.push('\n').drop_last() =~= last);
                assert(text::trim_right(last.push('\n'), CharSet::LineEnd) == text::trim_right(
                    last,
                    CharSet::LineEnd,
                ));
            } else {
                assert(head =~= ls);
            }
        }
        assert(now.last() == own);
        assert(swapped(now, key, line) == (now, true)) by {
            assert(head.push(own) =~= now);
        }
    }
}

/// A list of commands that is written to the settings a second time changes
/// nothing.
pub proof fn law_list_written_twice(s: Seq<char>, key: Seq<char>, cmds: Seq<Seq<char>>)
    requires
        key.len() > 0,
        !text::has_char(key, CharSet::Space),
        forall|i: int|
            0 <= i < cmds.len() ==> !text::has_char(#[trigger] cmds[i], CharSet::One('\n')),
    ensures
        with_list(with_list(s, key, cmds), key, cmds) == with_list(s, key, cmds),
{
    lemma_written_settles(s, key, cmds);
    lemma_whole(with_list(s, key, cmds));
    lemma_swapped_text(whole_lines(with_list(s, key, cmds)), key, list_line(key, cmds));
}

proof fn lemma_keys_apart(l: Seq<char>)
    requires
        sets(l, "final_verify"@),
    ensures
        !sets(l, "verify"@),
{
    reveal_strlit("verify");
    reveal_strlit("final_verify");
    reveal_strlit(" = [");
    reveal_strlit("# ");
    let start = text::trim_left(text::trim_right(l, CharSet::LineEnd), CharSet::Space);
    let a = "final_verify"@ + " = ["@;
    let b = "# "@ + "final_verify"@ + " = ["@;
    let c = "verify"@ + " = ["@;
    let d = "# "@ + "verify"@ + " = ["@;
    if text::begins(start, a) {
        assert(start.subrange(0, a.len() as int)[0] == a[0]);
    } else {
        assert(start.subrange(0, b.len() as int)[0] == b[0]);
        assert(start.subrange(0, b.len() as int)[2] == b[2]);
    }
    if text::begins(start, c) {
        assert(start.subrange(0, c.len() as int)[0] == c[0]);
    }
    if text::begins(start, d) {
        assert(start.subrange(0, d.len() as int)[0] == d[0]);
        assert(start.subrange(0, d.len() as int)[2] == d[2]);
    }
}

/// Lines that a first list leaves as they are stay so when the line of a second
/// list is put among them.
proof fn lemma_swapped_apart(ls: Seq<Seq<char>>, line: Seq<char>, full: Seq<Seq<char>>)
    requires
        swapped(ls, "verify"@, line).0 == ls,
    ensures
        ({
            let other = list_line("final_verify"@, full);
            let now = swapped(ls, "final_verify"@, other).0;
            swapped(now, "verify"@, line) == (now, swapped(ls, "verify"@, line).1)
        }),
    decreases ls.len(),
{
    let other = list_line("final_verify"@, full);
    let now = swapped(ls, "final_verify"@, other).0;
    if ls.len() > 0 {
        let front = ls.drop_last();
        let l = ls.last();
        let before = swapped(front, "final_verify"@, other).0;
        let same = swapped(front, "verify"@, line).0;
        assert(swapped(ls, "verify"@, line).0.drop_last() =~= same);
        lemma_swapped_apart(front, line, full);
        assert(now.drop_last() =~= before);
        if !swapped(front, "final_verify"@, other).1 && sets(l, "final_verify"@) {
            lemma_keys_apart(l);
            lemma_other_line(full, ending(l));
            assert(now.last() == other + ending(l));
            assert(before.push(now.last()) =~= now);
        } else {
            assert(now.last() == l);
            assert(before.push(l) =~= now);
            assert(swapped(ls, "verify"@, line).0.last() == l);
        }
    }
}

proof fn lemma_other_line(full: Seq<Seq<char>>, e: Seq<char>)
    requires
        e.len() == 0 || e == "\n"@ || e == "\r\n"@,
    ensures
        !sets(list_line("final_verify"@, full) + e, "verify"@),
{
    reveal_strlit("final_verify");
    lemma_own_line("final_verify"@, full, e);
    lemma_keys_apart(list_line("final_verify"@, full) + e);
}

/// Lines of which a list is one stay as they are when the last of them gets the
/// line feed that it lacked.
proof fn lemma_settled_end(ls: Seq<Seq<char>>, key: Seq<char>, cmds: Seq<Seq<char>>)
    requires
        ls.len() > 0,
        ending(ls.last()).len() == 0,
        key.len() > 0,
        !text::has_char(key, CharSet::Space),
        swapped(ls, key, list_line(key, cmds)) == (ls, true),
    ensures
        ({
            let more = ls.drop_last().push(ls.last().push('\n'));
            swapped(more, key, list_line(key, cmds)) == (more, true)
        }),
{
    reveal_strlit("\n");
    let line = list_line(key, cmds);
    let front = ls.drop_last();
    let l = ls.last();
    let w = l.push('\n');
    let more = front.push(w);
    let (same, done) = swapped(front, key, line);
    assert(swapped(ls, key, line).0.drop_last() =~= same);
    assert(swapped(ls, key, line).0.last() == l);
    assert(more.drop_last() =~= front);
    assert(w.drop_last() =~= l);
    assert(text::trim_right(w, CharSet::LineEnd) == text::trim_right(l, CharSet::LineEnd));
    if !done {
        assert(l =~= line);
        assert(w =~= line + "\n"@);
        lemma_own_line(key, cmds, "\n"@);
    }
}

proof fn lemma_unended(s: Seq<char>)
    requires
        s.len() > 0,
        !text::ends(s, "\n"@),
    ensures
        whole_lines(s).len() > 0,
        ending(whole_lines(s).last()).len() == 0,
{
    reveal_strlit("\n");
    lemma_whole(s);
    let ls = whole_lines(s);
    let l = ls.last();
    assert(single(ls[ls.len() - 1]));
    lemma_ending(l);
    if l.last() == '\n' {
        assert(s.last() == '\n');
        assert(s.subrange(s.len() - 1, s.len() as int) =~= "\n"@);
    }
}

/// What the first list settled stays settled when the second is written.
proof fn lemma_settled_apart(s: Seq<char>, first: Seq<Seq<char>>, full: Seq<Seq<char>>)
    requires
        swapped(whole_lines(s), "verify"@, list_line("verify"@, first)) == (whole_lines(s), true),
    ensures
        ({
            let now = set_lines(s, "final_verify"@, list_line("final_verify"@, full));
            swapped(now, "verify"@, list_line("verify"@, first)) == (now, true)
        }),
{
    reveal_strlit("\n");
    reveal_strlit("verify");
    let line = list_line("verify"@, first);
    let other = list_line("final_verify"@, full);
    let ls = whole_lines(s);
    let now = set_lines(s, "final_verify"@, other);
    lemma_swapped_apart(ls, line, full);
    if !swapped(ls, "final_verify"@, other).1 {
        let own = other.push('\n');
        let head = now.drop_last();
        assert(own =~= other + "\n"@);
        lemma_other_line(full, "\n"@);
        if s.len() > 0 && !text::ends(s, "\n"@) {
            lemma_unended(s);
            lemma_settled_end(ls, "verify"@, first);
            assert(head =~= ls.drop_last().push(ls.last().push('\n')));
        } else {
            assert(head =~= ls);
        }
        assert(now.last() == own);
        assert(head.push(own) =~= now);
    }
}

/// Gates that are written to the settings a second time change nothing.
pub proof fn law_gates_written_twice(s: Seq<char>, first: Seq<Seq<char>>, full: Seq<Seq<char>>)
    requires
        first.len() > 0,
        forall|i: int|
            0 <= i < first.len() ==> !text::has_char(#[trigger] first[i], CharSet::One('\n')),
        forall|i: int|
            0 <= i < full.len() ==> !text::has_char(#[trigger] full[i], CharSet::One('\n')),
    ensures
        with_gates(s, first, full) is Some,
        with_gates(with_gates(s, first, full)->Some_0, first, full) == with_gates(s, first, full),
{
    reveal_strlit("verify");
    reveal_strlit("final_verify");
    let last = if full.len() == 0 {
        first
    } else {
        full
    };
    let one = with_list(s, "verify"@, first);
    let two = with_list(one, "final_verify"@, last);
    lemma_no_feed_in_line("final_verify"@, last);
    lemma_written_settles(s, "verify"@, first);
    lemma_settled_apart(one, first, last);
    lemma_set_lines(one, "final_verify"@, last);
    lemma_lines_of_flat(set_lines(one, "final_verify"@, list_line("final_verify"@, last)));
    lemma_swapped_text(whole_lines(two), "verify"@, list_line("verify"@, first));
    assert(with_list(two, "verify"@, first) == two);
    law_list_written_twice(one, "final_verify"@, last);
}

// ---------------------------------------------------------------------
// Laws of recipes and texts
// ---------------------------------------------------------------------

/// The recipes that a repository overrides are exactly those for which it has a
/// file, and a file that is no recipe's overrides nothing.
pub proof fn law_overrides(ns: Seq<Seq<char>>, present: Seq<Seq<char>>, n: Seq<char>)
    ensures
        overriding(ns, present).contains(n) <==> ns.contains(n) && present.contains(n),
    decreases ns.len(),
{
    reveal(Seq::filter);
    if ns.len() > 0 {
        let front = ns.drop_last();
        law_overrides(front, present, n);
        let before = overriding(front, present);
        let all = overriding(ns, present);
        assert(ns[ns.len() - 1] == ns.last());
        if front.contains(n) {
            let i = choose|i: int| 0 <= i < front.len() && front[i] == n;
            assert(ns[i] == n);
        }
        if ns.contains(n) && n != ns.last() {
            let i = choose|i: int| 0 <= i < ns.len() && ns[i] == n;
            assert(front[i] == n);
        }
        if before.contains(n) {
            let i = choose|i: int| 0 <= i < before.len() && before[i] == n;
            assert(all[i] == n);
        }
        if n == ns.last() && present.contains(n) {
            assert(all[all.len() - 1] == n);
        }
        if all.contains(n) && !before.contains(n) {
            let i = choose|i: int| 0 <= i < all.len() && all[i] == n;
            if i < before.len() {
                assert(before[i] == n);
            }
        }
    }
}

/// A command stands in the settings in quotes, character by character, with a
/// backslash in front of each quote and each backslash.
pub proof fn law_quoted_commands(a: Seq<char>, b: Seq<char>)
    ensures
        toml_string(a).len() >= 2,
        toml_string(a)[0] == '"' && toml_string(a).last() == '"',
        ({
            let inner = |s: Seq<char>| toml_string(s).subrange(1, toml_string(s).len() - 1);
            &&& inner(a + b) == inner(a) + inner(b)
            &&& inner(seq!['"']) == seq!['\\', '"']
            &&& inner(seq!['\\']) == seq!['\\', '\\']
        }),
        !text::has_char(a, CharSet::One('"')) && !text::has_char(a, CharSet::One('\\'))
            ==> toml_string(a) == "\""@ + a + "\""@,
{
    reveal_strlit("\"");
    reveal_strlit("\\\\");
    reveal_strlit("\\\"");
    lemma_inner(a);
    lemma_inner(b);
    lemma_inner(a + b);
    lemma_inner(seq!['"']);
    lemma_inner(seq!['\\']);
    let back = CharSet::One('\\');
    let quote = CharSet::One('"');
    text::law_replacing(a, b, '"', back, "\\\\"@);
    text::law_replacing(a, b, '\\', back, "\\\\"@);
    let x = text::replaced(a, back, "\\\\"@);
    let y = text::replaced(b, back, "\\\\"@);
    text::law_replacing(x, y, '"', quote, "\\\""@);
    text::law_replacing(a, b, '"', quote, "\\\""@);
    text::law_replacing(seq!['\\'], seq!['\\'], '\\', quote, "\\\""@);
    assert(seq!['\\'] + seq!['\\'] =~= "\\\\"@);
    assert(text::replaced("\\\\"@, quote, "\\\""@) =~= seq!['\\', '\\']);
    assert(seq!['\\', '"'] =~= "\\\""@);
}

proof fn lemma_inner(s: Seq<char>)
    ensures
        ({
            let q = text::replaced(
                text::replaced(s, CharSet::One('\\'), "\\\\"@),
                CharSet::One('"'),
                "\\\""@,
            );
            &&& toml_string(s) == "\""@ + q + "\""@
            &&& toml_string(s).subrange(1, toml_string(s).len() - 1) == q
        }),
{
    reveal_strlit("\"");
    let q = text::replaced(
        text::replaced(s, CharSet::One('\\'), "\\\\"@),
        CharSet::One('"'),
        "\\\""@,
    );
    let t = toml_string(s);
    assert(t.subrange(1, t.len() - 1) =~= q);
}

/// The line of a list names its key and holds every command, in its order.
pub proof fn law_lines_of_lists(key: Seq<char>, cmds: Seq<Seq<char>>)
    ensures
        list_line(key, cmds) == key + " = ["@ + text::joined(
            cmds.map_values(|c: Seq<char>| toml_string(c)),
            ", "@,
        ) + "]"@,
{
    assert(cmds.map_values(|c: Seq<char>| toml_string(c)) =~= toml_strings(cmds));
}

/// Gates are written only where a discovery names commands for the first; the
/// second has its own commands, or those of the first where it has none.
pub proof fn law_gates_that_are_named(s: Seq<char>, first: Seq<Seq<char>>, full: Seq<Seq<char>>)
    ensures
        first.len() == 0 ==> with_gates(s, first, full) is None,
        first.len() > 0 && full.len() > 0 ==> with_gates(s, first, full) == Some(
            with_list(with_list(s, "verify"@, first), "final_verify"@, full),
        ),
        first.len() > 0 && full.len() == 0 ==> with_gates(s, first, full) == Some(
            with_list(with_list(s, "verify"@, first), "final_verify"@, first),
        ),
{
}

/// The rule is added behind everything that was there, on lines of its own.
pub proof fn law_rule_is_added_at_the_end(s: Seq<char>)
    ensures
        s.is_prefix_of(with_rule(s)),
        text::ends(with_rule(s), "# gaggle: ignore the review directory\n.review/\n"@),
        s.len() == 0 ==> with_rule(s) == "# gaggle: ignore the review directory\n.review/\n"@,
{
    let t = with_rule(s);
    let b = GITIGNORE_BLOCK@;
    assert(t.subrange(0, s.len() as int) =~= s);
    assert(t.subrange(t.len() - b.len(), t.len() as int) =~= b);
}

/// A file that ignores the directory of the harness in any of the usual forms is
/// covered, and one without such a line and without a mark is not.
pub proof fn law_rules_that_cover(s: Seq<char>, i: int)
    ensures
        0 <= i < text::lines(s).len() && seq![
            ".review"@,
            "/.review"@,
            ".review/"@,
            "/.review/"@,
            ".review/*"@,
            "/.review/*"@,
        ].contains(text::trimmed(text::lines(s)[i])) ==> covered(s),
        covered(s) && !text::has_text(s, "# gaggle: ignore the review directory"@)
            && !text::has_text(s, "# sift: keep durable config; ignore run state"@)
            && !text::has_text(s, "# gaggle: keep durable config; ignore run state"@)
            ==> exists|k: int|
            0 <= k < text::lines(s).len() && seq![
                ".review"@,
                "/.review"@,
                ".review/"@,
                "/.review/"@,
                ".review/*"@,
                "/.review/*"@,
            ].contains(text::trimmed(#[trigger] text::lines(s)[k])),
        text::has_text(s, "# gaggle: ignore the review directory"@) ==> covered(s),
{
    let l = seq![
        ".review"@,
        "/.review"@,
        ".review/"@,
        "/.review/"@,
        ".review/*"@,
        "/.review/*"@,
    ];
    assert(l[0] == ".review"@ && l[1] == "/.review"@ && l[2] == ".review/"@ && l[3] == "/.review/"@
        && l[4] == ".review/*"@ && l[5] == "/.review/*"@);
    let ls = text::lines(s);
    if 0 <= i < ls.len() && l.contains(text::trimmed(ls[i])) {
        assert(ignores(ls[i]));
    }
    if exists|k: int| 0 <= k < ls.len() && ignores(#[trigger] ls[k]) {
        let k = choose|k: int| 0 <= k < ls.len() && ignores(#[trigger] ls[k]);
        assert(l.contains(text::trimmed(ls[k])));
    }
}

/// The recipes that are built in, in their order.
pub proof fn law_built_in_recipes(name: Seq<char>)
    ensures
        recipe_names() == seq![
            "discover.yaml"@,
            "discover-validate.yaml"@,
            "review.yaml"@,
            "confirm.yaml"@,
            "fix.yaml"@,
            "verify.yaml"@,
            "gate.yaml"@,
            "report.yaml"@,
        ],
        unknown_text(name) == "unknown embedded recipe: "@ + name,
{
}

/// What was there and the rule are parted by one blank line, whether or not the
/// last line was ended.
pub proof fn law_blank_line_before_the_rule(s: Seq<char>)
    requires
        s.len() > 0,
    ensures
        s.last() == '\n' ==> with_rule(s) == s + "\n"@
            + "# gaggle: ignore the review directory\n.review/\n"@,
        s.last() != '\n' ==> with_rule(s) == s + "\n"@ + "\n"@
            + "# gaggle: ignore the review directory\n.review/\n"@,
{
    reveal_strlit("\n");
    assert(s.subrange(s.len() - 1, s.len() as int) =~= seq![s.last()]);
    assert("\n"@ =~= seq!['\n']);
    assert(seq![s.last()][0] == s.last() && seq!['\n'][0] == '\n');
}

/// A mark covers the directory, whichever of its forms it has.
pub proof fn law_marks_that_cover(s: Seq<char>)
    ensures
        text::has_text(s, "# sift: keep durable config; ignore run state"@) ==> covered(s),
        text::has_text(s, "# gaggle: keep durable config; ignore run state"@) ==> covered(s),
{
}

} // verus!
