//! The verify gate: which commands check a change, how long they may run, and
//! what their outcomes mean. Exit codes are the only verdict.

use vstd::prelude::*;
use crate::config;
use crate::config::{ConfigError, TomlView};
use crate::number;
use crate::number::{parse_unsigned, to_decimal};
use crate::text;
use crate::text::{
    contains, contains_char, drop_empty, extend, from_lossy, lines_of, member, owned, same, split,
    split_once, starts_with, trim, trim_end, trim_matches, trim_start_text, CharSet, Draft,
};

verus! {

// ---------------------------------------------------------------------
// Command lists
// ---------------------------------------------------------------------

/// The commands in the entries of a list, or the first entry that is none.
pub open spec fn entries(key: Seq<char>, l: Seq<TomlView>) -> Result<
    Seq<Seq<char>>,
    ConfigError<Seq<char>>,
>
    decreases l.len(),
{
    if l.len() == 0 {
        Ok(Seq::empty())
    } else {
        match entries(key, l.drop_last()) {
            Err(e) => Err(e),
            Ok(before) => {
                let index = (l.len() - 1) as usize;
                match l.last().text() {
                    None => Err(
                        ConfigError::EntryNotText { key, index, found: l.last().kind_name() },
                    ),
                    Some(s) => if text::trimmed(s).len() == 0 {
                        Err(ConfigError::EntryBlank { key, index })
                    } else {
                        Ok(before.push(text::trimmed(s)))
                    },
                }
            },
        }
    }
}

/// The command list under `key` in a document. A required list must be there
/// and have an entry: without one everything would pass with nothing run.
pub open spec fn command_list(doc: TomlView, key: Seq<char>, required: bool) -> Result<
    Seq<Seq<char>>,
    ConfigError<Seq<char>>,
> {
    match doc.member(key) {
        None => if required {
            Err(ConfigError::KeyMissing { key })
        } else {
            Ok(Seq::empty())
        },
        Some(v) => match v.list() {
            None => Err(ConfigError::NotAnArray { key }),
            Some(l) => match entries(key, l) {
                Err(e) => Err(e),
                Ok(cmds) => if cmds.len() == 0 && required {
                    Err(ConfigError::EmptyList { key })
                } else {
                    Ok(cmds)
                },
            },
        },
    }
}

/// The command list under `key` in the settings file, whose contents are
/// `content` where it exists.
pub open spec fn commands_in(content: Option<Seq<char>>, key: Seq<char>, required: bool) -> Result<
    Seq<Seq<char>>,
    ConfigError<Seq<char>>,
> {
    match content {
        None => Err(ConfigError::NotFound),
        Some(t) => match config::toml_document(t) {
            Err(detail) => Err(ConfigError::Syntax { detail }),
            Ok(doc) => command_list(doc, key, required),
        },
    }
}

/// The commands that check a change.
pub open spec fn verify_commands(content: Option<Seq<char>>) -> Result<
    Seq<Seq<char>>,
    ConfigError<Seq<char>>,
> {
    commands_in(content, "verify"@, true)
}

/// The commands of the final gate of a run: `final_verify` where it is
/// set and has an entry, `verify` otherwise.
pub open spec fn final_commands(content: Option<Seq<char>>) -> Result<
    Seq<Seq<char>>,
    ConfigError<Seq<char>>,
> {
    match commands_in(content, "final_verify"@, false) {
        Err(e) => Err(e),
        Ok(cmds) => if cmds.len() == 0 {
            verify_commands(content)
        } else {
            Ok(cmds)
        },
    }
}

/// The contract of a function that reads a command list.
pub open spec fn reads_list(
    r: Result<Vec<String>, ConfigError<String>>,
    expected: Result<Seq<Seq<char>>, ConfigError<Seq<char>>>,
) -> bool {
    match r {
        Ok(l) => expected == Ok::<Seq<Seq<char>>, ConfigError<Seq<char>>>(text::texts(l@)),
        Err(e) => expected == Err::<Seq<Seq<char>>, ConfigError<Seq<char>>>(e@),
    }
}

proof fn lemma_entries_stop(key: Seq<char>, l: Seq<TomlView>, k: int)
    requires
        0 <= k <= l.len(),
        entries(key, l.take(k)) is Err,
    ensures
        entries(key, l) == entries(key, l.take(k)),
    decreases l.len(),
{
    if k < l.len() {
        assert(l.drop_last().take(k) =~= l.take(k));
        lemma_entries_stop(key, l.drop_last(), k);
    } else {
        assert(l.take(k) =~= l);
    }
}

fn read_entries(key: &str, l: &Vec<toml::Value>) -> (r: Result<Vec<String>, ConfigError<String>>)
    ensures
        reads_list(r, entries(key@, config::toml_views(l@))),
{
    let ghost all = config::toml_views(l@);
    let mut out: Vec<String> = Vec::new();
    let mut i: usize = 0;
    assert(all.take(0) =~= Seq::empty());
    assert(text::texts(out@) =~= Seq::empty());
    while i < l.len()
        invariant
            i <= l.len(),
            all == config::toml_views(l@),
            entries(key@, all.take(i as int)) == Ok::<Seq<Seq<char>>, ConfigError<Seq<char>>>(
                text::texts(out@),
            ),
        decreases l.len() - i,
    {
        let v = &l[i];
        assert(all.take(i + 1).drop_last() =~= all.take(i as int));
        assert(all.take(i + 1).last() == config::toml_view(*v));
        match config::as_str(v) {
            None => {
                proof {
                    lemma_entries_stop(key@, all, i + 1);
                }
                return Err(
                    ConfigError::EntryNotText {
                        key: owned(key),
                        index: i,
                        found: config::kind_name(v),
                    },
                );
            },
            Some(s) => {
                let cut = trim(s);
                if cut.is_empty() {
                    proof {
                        lemma_entries_stop(key@, all, i + 1);
                    }
                    return Err(ConfigError::EntryBlank { key: owned(key), index: i });
                }
                let ghost was = text::texts(out@);
                out.push(owned(cut));
                assert(text::texts(out@) =~= was.push(cut@));
            },
        }
        i = i + 1;
    }
    assert(all.take(all.len() as int) =~= all);
    Ok(out)
}

/// The command list under `key` in a document.
pub fn list_in_document(doc: &toml::Value, key: &str, required: bool) -> (r: Result<
    Vec<String>,
    ConfigError<String>,
>)
    ensures
        reads_list(r, command_list(config::toml_view(*doc), key@, required)),
{
    match config::get(doc, key) {
        None => {
            if required {
                return Err(ConfigError::KeyMissing { key: owned(key) });
            }
            let out: Vec<String> = Vec::new();
            assert(text::texts(out@) =~= Seq::empty());
            Ok(out)
        },
        Some(v) => match config::as_array(v) {
            None => Err(ConfigError::NotAnArray { key: owned(key) }),
            Some(l) => match read_entries(key, l) {
                Err(e) => Err(e),
                Ok(cmds) => {
                    assert(text::texts(cmds@).len() == cmds@.len());
                    if cmds.len() == 0 && required {
                        return Err(ConfigError::EmptyList { key: owned(key) });
                    }
                    Ok(cmds)
                },
            },
        },
    }
}

/// Reads the command list under `key` in the settings file.
pub fn load_commands_key(content: Option<&str>, key: &str, required: bool) -> (r: Result<
    Vec<String>,
    ConfigError<String>,
>)
    ensures
        reads_list(r, commands_in(text::opt_str(content), key@, required)),
{
    match content {
        None => Err(ConfigError::NotFound),
        Some(t) => match config::parse_toml(t) {
            Err(detail) => Err(ConfigError::Syntax { detail }),
            Ok(doc) => list_in_document(&doc, key, required),
        },
    }
}

/// Reads the commands that check a change. A list that is missing or empty is
/// refused.
pub fn load_commands(content: Option<&str>) -> (r: Result<Vec<String>, ConfigError<String>>)
    ensures
        reads_list(r, verify_commands(text::opt_str(content))),
{
    load_commands_key(content, "verify", true)
}

/// Reads the commands of the final gate of a run.
pub fn load_final_commands(content: Option<&str>) -> (r: Result<Vec<String>, ConfigError<String>>)
    ensures
        reads_list(r, final_commands(text::opt_str(content))),
{
    match load_commands_key(content, "final_verify", false) {
        Err(e) => Err(e),
        Ok(cmds) => {
            assert(text::texts(cmds@).len() == cmds@.len());
            if cmds.len() == 0 {
                load_commands(content)
            } else {
                Ok(cmds)
            }
        },
    }
}

pub open spec fn nested(doc: TomlView, section: Seq<char>, key: Seq<char>) -> bool {
    match doc.member(section) {
        Some(s) => s.member(key) is Some,
        None => false,
    }
}

/// The section, where it holds the key.
pub open spec fn if_nested(doc: TomlView, section: Seq<char>, key: Seq<char>) -> Seq<Seq<char>> {
    if nested(doc, section, key) {
        seq![section]
    } else {
        Seq::empty()
    }
}

/// The sections that hold the key, where the document does not hold it at the
/// top: a key lands in one of them by accident when it is written behind a
/// section header.
pub open spec fn nested_in(doc: TomlView, key: Seq<char>) -> Seq<Seq<char>> {
    if doc.member(key) is None {
        if_nested(doc, "commit"@, key) + if_nested(doc, "model"@, key) + if_nested(
            doc,
            "branch"@,
            key,
        )
    } else {
        Seq::empty()
    }
}

/// The sections of the settings file that hold the key in place of its top.
pub open spec fn misplaced_in(content: Option<Seq<char>>, key: Seq<char>) -> Seq<Seq<char>> {
    match content {
        Some(t) => match config::toml_document(t) {
            Ok(doc) => nested_in(doc, key),
            Err(_) => Seq::empty(),
        },
        None => Seq::empty(),
    }
}

fn is_nested(doc: &toml::Value, section: &str, key: &str) -> (r: bool)
    ensures
        r == nested(config::toml_view(*doc), section@, key@),
{
    match config::get(doc, section) {
        Some(s) => config::get(s, key).is_some(),
        None => false,
    }
}

/// The sections of a document that hold a key in place of its top.
pub fn misplaced_in_document(doc: &toml::Value, key: &str) -> (r: Vec<String>)
    ensures
        text::texts(r@) == nested_in(config::toml_view(*doc), key@),
{
    let mut out: Vec<String> = Vec::new();
    assert(text::texts(out@) =~= Seq::empty());
    if config::get(doc, key).is_some() {
        return out;
    }
    let ghost d = config::toml_view(*doc);
    if is_nested(doc, "commit", key) {
        out.push(owned("commit"));
    }
    assert(text::texts(out@) =~= if_nested(d, "commit"@, key@));
    let ghost one = text::texts(out@);
    if is_nested(doc, "model", key) {
        out.push(owned("model"));
    }
    assert(text::texts(out@) =~= one + if_nested(d, "model"@, key@));
    let ghost two = text::texts(out@);
    if is_nested(doc, "branch", key) {
        out.push(owned("branch"));
    }
    assert(text::texts(out@) =~= two + if_nested(d, "branch"@, key@));
    out
}

/// The sections in which a key of the top was put by mistake and is therefore
/// without effect.
pub fn misplaced(content: Option<&str>, key: &str) -> (r: Vec<String>)
    ensures
        text::texts(r@) == misplaced_in(text::opt_str(content), key@),
{
    let none: Vec<String> = Vec::new();
    assert(text::texts(none@) =~= Seq::empty());
    match content {
        None => none,
        Some(t) => match config::parse_toml(t) {
            Err(_) => none,
            Ok(doc) => misplaced_in_document(&doc, key),
        },
    }
}

// ---------------------------------------------------------------------
// Files that the checks depend on
// ---------------------------------------------------------------------

/// How many directories below the repository the segments of a path lead;
/// nothing where they lead out of it.
pub open spec fn depth_below(segs: Seq<Seq<char>>) -> Option<nat>
    decreases segs.len(),
{
    if segs.len() == 0 {
        Some(0)
    } else {
        match depth_below(segs.drop_last()) {
            None => None,
            Some(d) => if segs.last() == ".."@ {
                if d == 0 {
                    None
                } else {
                    Some((d - 1) as nat)
                }
            } else if segs.last().len() == 0 || segs.last() == "."@ {
                Some(d)
            } else {
                Some(d + 1)
            },
        }
    }
}

/// The directories and the file that the segments of a path lead through from
/// the root of the file system, each `..` taken back with the one before it.
pub open spec fn places(segs: Seq<Seq<char>>) -> Seq<Seq<char>>
    decreases segs.len(),
{
    if segs.len() == 0 {
        Seq::empty()
    } else {
        let before = places(segs.drop_last());
        if segs.last() == ".."@ {
            if before.len() == 0 {
                before
            } else {
                before.drop_last()
            }
        } else if segs.last().len() == 0 || segs.last() == "."@ {
            before
        } else {
            before.push(segs.last())
        }
    }
}

/// Where a path of a command stands, the command being run at `root`.
pub open spec fn located(root: Seq<char>, p: Seq<char>) -> Seq<char> {
    if text::begins(p, "/"@) {
        p
    } else {
        root + "/"@ + p
    }
}

/// The path leads to a place in the repository at `root`, whether it is
/// absolute, stays below the root, or leaves it and comes back. It is told by
/// the texts of the paths alone: links in the file system are not followed. Of
/// a root that is not absolute only the paths that stay below it are known to
/// be in it.
pub open spec fn inside(root: Seq<char>, p: Seq<char>) -> bool {
    if text::begins(root, "/"@) {
        places(text::pieces(root, CharSet::One('/'))).is_prefix_of(
            places(text::pieces(located(root, p), CharSet::One('/'))),
        )
    } else {
        !text::begins(p, "/"@) && depth_below(text::pieces(p, CharSet::One('/'))) is Some
    }
}

/// The path that a word of a command names, where it looks like one: it has a
/// slash in it, is no address and no wildcard, and leads into the repository.
pub open spec fn path_word(root: Seq<char>, word: Seq<char>) -> Option<Seq<char>> {
    let token = text::trim_set(word, CharSet::Quote);
    let rel = text::without_prefixes(token, "./"@);
    if !text::has_char(token, CharSet::One('/')) || text::begins(token, "http"@) || rel.len() == 0
        || text::has_char(rel, CharSet::One('*')) || (forall|i: int|
        0 <= i < rel.len() ==> #[trigger] rel[i] == '.') || !inside(root, rel) {
        None
    } else {
        Some(rel)
    }
}

/// The paths among the words, in order.
pub open spec fn path_words(root: Seq<char>, words: Seq<Seq<char>>) -> Seq<Seq<char>>
    decreases words.len(),
{
    if words.len() == 0 {
        Seq::empty()
    } else {
        let before = path_words(root, words.drop_last());
        match path_word(root, words.last()) {
            Some(p) => before.push(p),
            None => before,
        }
    }
}

/// The paths that the commands name, in order.
pub open spec fn paths_named(root: Seq<char>, cmds: Seq<Seq<char>>) -> Seq<Seq<char>>
    decreases cmds.len(),
{
    if cmds.len() == 0 {
        Seq::empty()
    } else {
        paths_named(root, cmds.drop_last()) + path_words(
            root,
            text::pieces(cmds.last(), CharSet::ShellBreak),
        )
    }
}

pub open spec fn or_empty(
    r: Result<Seq<Seq<char>>, ConfigError<Seq<char>>>,
) -> Seq<Seq<char>> {
    match r {
        Ok(l) => l,
        Err(_) => Seq::empty(),
    }
}

/// The commands of both gates; none where a list cannot be read.
pub open spec fn gate_commands(content: Option<Seq<char>>) -> Seq<Seq<char>> {
    or_empty(verify_commands(content)) + or_empty(final_commands(content))
}

/// The texts of `all` that are in `present`, each once, in the order in which
/// they first occur.
pub open spec fn first_present(all: Seq<Seq<char>>, present: Seq<Seq<char>>) -> Seq<Seq<char>>
    decreases all.len(),
{
    if all.len() == 0 {
        Seq::empty()
    } else {
        let before = first_present(all.drop_last(), present);
        if present.contains(all.last()) && !before.contains(all.last()) {
            before.push(all.last())
        } else {
            before
        }
    }
}

fn only_dots(s: &str) -> (r: bool)
    ensures
        r == (forall|i: int| 0 <= i < s@.len() ==> #[trigger] s@[i] == '.'),
{
    let x: Vec<char> = text::chars_of(s);
    let mut i: usize = 0;
    while i < x.len()
        invariant
            i <= x.len(),
            x@ == s@,
            forall|j: int| 0 <= j < i ==> #[trigger] s@[j] == '.',
        decreases x.len() - i,
    {
        if x[i] != '.' {
            assert(s@[i as int] != '.');
            return false;
        }
        i = i + 1;
    }
    true
}

proof fn lemma_out_for_good(segs: Seq<Seq<char>>, k: int)
    requires
        0 <= k <= segs.len(),
        depth_below(segs.take(k)) is None,
    ensures
        depth_below(segs) is None,
    decreases segs.len(),
{
    if k < segs.len() {
        assert(segs.drop_last().take(k) =~= segs.take(k));
        lemma_out_for_good(segs.drop_last(), k);
    } else {
        assert(segs.take(k) =~= segs);
    }
}

fn stays_below(p: &str) -> (r: bool)
    ensures
        r == (depth_below(text::pieces(p@, CharSet::One('/'))) is Some),
{
    let segs: Vec<String> = split(p, CharSet::One('/'));
    let ghost all = text::texts(segs@);
    let mut depth: usize = 0;
    let mut i: usize = 0;
    assert(all.take(0) =~= Seq::empty());
    while i < segs.len()
        invariant
            i <= segs.len(),
            all == text::texts(segs@),
            all == text::pieces(p@, CharSet::One('/')),
            depth <= i,
            depth_below(all.take(i as int)) == Some(depth as nat),
        decreases segs.len() - i,
    {
        assert(all.take(i + 1).drop_last() =~= all.take(i as int));
        assert(all[i as int] == segs@[i as int]@);
        let seg: &str = segs[i].as_str();
        if same(seg, "..") {
            if depth == 0 {
                proof {
                    lemma_out_for_good(all, i + 1);
                }
                return false;
            }
            depth = depth - 1;
        } else if !seg.is_empty() && !same(seg, ".") {
            depth = depth + 1;
        }
        i = i + 1;
    }
    assert(all.take(all.len() as int) =~= all);
    true
}

fn places_of(p: &str) -> (r: Vec<String>)
    ensures
        text::texts(r@) == places(text::pieces(p@, CharSet::One('/'))),
{
    let segs: Vec<String> = split(p, CharSet::One('/'));
    let ghost all = text::texts(segs@);
    let mut out: Vec<String> = Vec::new();
    let mut i: usize = 0;
    assert(all.take(0) =~= Seq::empty());
    assert(text::texts(out@) =~= Seq::empty());
    while i < segs.len()
        invariant
            i <= segs.len(),
            all == text::texts(segs@),
            all == text::pieces(p@, CharSet::One('/')),
            text::texts(out@) == places(all.take(i as int)),
        decreases segs.len() - i,
    {
        assert(all.take(i + 1).drop_last() =~= all.take(i as int));
        assert(all[i as int] == segs@[i as int]@);
        let ghost was = text::texts(out@);
        let seg: &str = segs[i].as_str();
        if same(seg, "..") {
            if out.len() > 0 {
                out.pop();
                assert(text::texts(out@) =~= was.drop_last());
            }
        } else if !seg.is_empty() && !same(seg, ".") {
            out.push(owned(seg));
            assert(text::texts(out@) =~= was.push(seg@));
        }
        i = i + 1;
    }
    assert(all.take(all.len() as int) =~= all);
    out
}

fn is_start_of(a: &Vec<String>, b: &Vec<String>) -> (r: bool)
    ensures
        r == text::texts(a@).is_prefix_of(text::texts(b@)),
{
    let ghost x = text::texts(a@);
    let ghost y = text::texts(b@);
    if a.len() > b.len() {
        return false;
    }
    let mut i: usize = 0;
    while i < a.len()
        invariant
            i <= a.len() <= b.len(),
            x == text::texts(a@),
            y == text::texts(b@),
            forall|j: int| 0 <= j < i ==> #[trigger] x[j] == y[j],
        decreases a.len() - i,
    {
        assert(x[i as int] == a@[i as int]@);
        assert(y[i as int] == b@[i as int]@);
        if !same(a[i].as_str(), b[i].as_str()) {
            assert(y.subrange(0, x.len() as int)[i as int] == y[i as int]);
            return false;
        }
        i = i + 1;
    }
    assert(y.subrange(0, x.len() as int) =~= x);
    true
}

fn is_inside(root: &str, p: &str) -> (r: bool)
    ensures
        r == inside(root@, p@),
{
    let absolute = starts_with(p, "/");
    if !starts_with(root, "/") {
        return !absolute && stays_below(p);
    }
    let at: String = if absolute {
        owned(p)
    } else {
        Draft::of(root).put("/").put(p).text
    };
    is_start_of(&places_of(root), &places_of(at.as_str()))
}

fn read_path_word<'a>(root: &str, word: &'a str) -> (r: Option<&'a str>)
    ensures
        match r {
            Some(p) => path_word(root@, word@) == Some(p@),
            None => path_word(root@, word@) is None,
        },
{
    proof {
        reveal_strlit("./");
    }
    let token = trim_matches(word, CharSet::Quote);
    if token.is_empty() {
        proof {
            assert(!text::has_char(token@, CharSet::One('/')));
        }
        return None;
    }
    if !contains_char(token, CharSet::One('/')) || starts_with(token, "http") {
        return None;
    }
    let rel = trim_start_text(token, "./");
    if rel.is_empty() || contains_char(rel, CharSet::One('*')) {
        return None;
    }
    if only_dots(rel) || !is_inside(root, rel) {
        return None;
    }
    Some(rel)
}

fn read_path_words(root: &str, words: &Vec<String>) -> (r: Vec<String>)
    ensures
        text::texts(r@) == path_words(root@, text::texts(words@)),
{
    let ghost all = text::texts(words@);
    let mut out: Vec<String> = Vec::new();
    let mut i: usize = 0;
    assert(all.take(0) =~= Seq::empty());
    assert(text::texts(out@) =~= Seq::empty());
    while i < words.len()
        invariant
            i <= words.len(),
            all == text::texts(words@),
            text::texts(out@) == path_words(root@, all.take(i as int)),
        decreases words.len() - i,
    {
        assert(all.take(i + 1).drop_last() =~= all.take(i as int));
        assert(all[i as int] == words@[i as int]@);
        if let Some(p) = read_path_word(root, words[i].as_str()) {
            let ghost was = text::texts(out@);
            out.push(owned(p));
            assert(text::texts(out@) =~= was.push(p@));
        }
        i = i + 1;
    }
    assert(all.take(all.len() as int) =~= all);
    out
}

/// The paths that the commands of a gate name in the repository at `root`, in
/// order. The caller knows which of them exist.
pub fn gate_candidates(content: Option<&str>, root: &str) -> (r: Vec<String>)
    ensures
        text::texts(r@) == paths_named(root@, gate_commands(text::opt_str(content))),
{
    let none: Vec<String> = Vec::new();
    assert(text::texts(none@) =~= Seq::empty());
    let mut cmds: Vec<String> = match load_commands(content) {
        Ok(l) => l,
        Err(_) => none,
    };
    match load_final_commands(content) {
        Ok(l) => extend(&mut cmds, l),
        Err(_) => {
            assert(text::texts(cmds@) + Seq::<Seq<char>>::empty() =~= text::texts(cmds@));
        },
    }
    let ghost all = text::texts(cmds@);
    assert(all == gate_commands(text::opt_str(content)));
    let mut out: Vec<String> = Vec::new();
    let mut i: usize = 0;
    assert(all.take(0) =~= Seq::empty());
    assert(text::texts(out@) =~= Seq::empty());
    while i < cmds.len()
        invariant
            i <= cmds.len(),
            all == text::texts(cmds@),
            text::texts(out@) == paths_named(root@, all.take(i as int)),
        decreases cmds.len() - i,
    {
        assert(all.take(i + 1).drop_last() =~= all.take(i as int));
        assert(all[i as int] == cmds@[i as int]@);
        let words = split(cmds[i].as_str(), CharSet::ShellBreak);
        extend(&mut out, read_path_words(root, &words));
        i = i + 1;
    }
    assert(all.take(all.len() as int) =~= all);
    out
}

/// The files that the checks depend on, where `present` holds the paths of
/// [`gate_candidates`] that exist in the repository. Changes to these files
/// are never committed: they are not the fixer's to rewrite.
pub fn gate_files(content: Option<&str>, root: &str, present: &Vec<String>) -> (r: Vec<String>)
    ensures
        text::texts(r@) == first_present(
            paths_named(root@, gate_commands(text::opt_str(content))),
            text::texts(present@),
        ),
        forall|i: int| 0 <= i < r@.len() ==> inside(root@, (#[trigger] r@[i])@),
{
    let found: Vec<String> = gate_candidates(content, root);
    let ghost all = text::texts(found@);
    let mut out: Vec<String> = Vec::new();
    let mut i: usize = 0;
    assert(all.take(0) =~= Seq::empty());
    assert(text::texts(out@) =~= Seq::empty());
    while i < found.len()
        invariant
            i <= found.len(),
            all == text::texts(found@),
            text::texts(out@) == first_present(all.take(i as int), text::texts(present@)),
        decreases found.len() - i,
    {
        assert(all.take(i + 1).drop_last() =~= all.take(i as int));
        assert(all[i as int] == found@[i as int]@);
        let p = found[i].as_str();
        if member(present, p) && !member(&out, p) {
            let ghost was = text::texts(out@);
            out.push(owned(p));
            assert(text::texts(out@) =~= was.push(p@));
        }
        i = i + 1;
    }
    assert(all.take(all.len() as int) =~= all);
    proof {
        let listed = text::texts(out@);
        assert forall|i: int| 0 <= i < out@.len() implies inside(root@, (#[trigger] out@[i])@) by {
            assert(listed[i] == out@[i]@);
            law_gate_files_lie_in_the_repository(
                text::opt_str(content),
                root@,
                text::texts(present@),
                out@[i]@,
            );
        }
    }
    out
}

/// A path that a command can name as a file of the repository: it has no
/// wildcard, is more than dots, and leads into the repository.
pub open spec fn proper_path(root: Seq<char>, p: Seq<char>) -> bool {
    &&& p.len() > 0
    &&& !text::has_char(p, CharSet::One('*'))
    &&& exists|i: int| 0 <= i < p.len() && #[trigger] p[i] != '.'
    &&& inside(root, p)
}

proof fn lemma_path_words(root: Seq<char>, words: Seq<Seq<char>>)
    ensures
        forall|i: int| 0 <= i < path_words(root, words).len() ==> proper_path(root, #[trigger] path_words(root, words)[i]),
    decreases words.len(),
{
    if words.len() > 0 {
        lemma_path_words(root, words.drop_last());
        let before = path_words(root, words.drop_last());
        assert forall|i: int| 0 <= i < path_words(root, words).len() implies proper_path(
            root,
            #[trigger] path_words(root, words)[i],
        ) by {
            if i < before.len() {
                assert(path_words(root, words)[i] == before[i]);
            }
        }
    }
}

proof fn lemma_paths_named(root: Seq<char>, cmds: Seq<Seq<char>>)
    ensures
        forall|i: int| 0 <= i < paths_named(root, cmds).len() ==> proper_path(root, #[trigger] paths_named(root, cmds)[i]),
    decreases cmds.len(),
{
    if cmds.len() > 0 {
        let before = paths_named(root, cmds.drop_last());
        let more = path_words(root, text::pieces(cmds.last(), CharSet::ShellBreak));
        lemma_paths_named(root, cmds.drop_last());
        lemma_path_words(root, text::pieces(cmds.last(), CharSet::ShellBreak));
        assert forall|i: int| 0 <= i < paths_named(root, cmds).len() implies proper_path(
            root,
            #[trigger] paths_named(root, cmds)[i],
        ) by {
            if i < before.len() {
                assert(paths_named(root, cmds)[i] == before[i]);
            } else {
                assert(paths_named(root, cmds)[i] == more[i - before.len()]);
            }
        }
    }
}

proof fn lemma_first_present(all: Seq<Seq<char>>, present: Seq<Seq<char>>, p: Seq<char>)
    ensures
        first_present(all, present).no_duplicates(),
        first_present(all, present).contains(p) <==> all.contains(p) && present.contains(p),
    decreases all.len(),
{
    if all.len() > 0 {
        let front = all.drop_last();
        let l = all.last();
        let before = first_present(front, present);
        lemma_first_present(front, present, p);
        lemma_first_present(front, present, l);
        assert(all[all.len() - 1] == l);
        if front.contains(p) {
            let i = choose|i: int| 0 <= i < front.len() && front[i] == p;
            assert(all[i] == p);
        }
        if all.contains(p) && p != l {
            let i = choose|i: int| 0 <= i < all.len() && all[i] == p;
            assert(front[i] == p);
        }
        let more = before.push(l);
        assert(more[before.len() as int] == l);
        if before.contains(p) {
            let i = choose|i: int| 0 <= i < before.len() && before[i] == p;
            assert(more[i] == p);
        }
        if more.contains(p) && p != l {
            let i = choose|i: int| 0 <= i < more.len() && more[i] == p;
            assert(before[i] == p);
        }
    }
}

/// The files that the checks depend on are paths that a command names and that
/// exist, each once; none leads out of the repository, none holds a wildcard, and
/// none is made of dots alone.
pub proof fn law_gate_files_lie_in_the_repository(
    content: Option<Seq<char>>,
    root: Seq<char>,
    present: Seq<Seq<char>>,
    p: Seq<char>,
)
    ensures
        ({
            let named = paths_named(root, gate_commands(content));
            let files = first_present(named, present);
            &&& files.no_duplicates()
            &&& files.contains(p) <==> named.contains(p) && present.contains(p)
            &&& files.contains(p) ==> proper_path(root, p)
        }),
{
    let named = paths_named(root, gate_commands(content));
    lemma_first_present(named, present, p);
    lemma_paths_named(root, gate_commands(content));
    if named.contains(p) {
        let i = choose|i: int| 0 <= i < named.len() && named[i] == p;
        assert(proper_path(root, named[i]));
    }
}

proof fn lemma_pieces_of_both(a: Seq<char>, sep: char, b: Seq<char>)
    ensures
        text::pieces(a.push(sep) + b, CharSet::One(sep)) == text::pieces(a, CharSet::One(sep))
            + text::pieces(b, CharSet::One(sep)),
    decreases b.len(),
{
    let set = CharSet::One(sep);
    let whole = a.push(sep) + b;
    let front = text::pieces(a, set);
    if b.len() == 0 {
        assert(whole =~= a.push(sep));
        assert(whole.drop_last() =~= a);
        assert(front.push(Seq::<char>::empty()) =~= front + seq![Seq::<char>::empty()]);
    } else {
        lemma_pieces_of_both(a, sep, b.drop_last());
        text::lemma_pieces_nonempty(b.drop_last(), set);
        assert(whole.drop_last() =~= a.push(sep) + b.drop_last());
        assert(whole.last() == b.last());
        let back = text::pieces(b.drop_last(), set);
        if set.has(b.last()) {
            assert((front + back).push(Seq::<char>::empty()) =~= front + back.push(
                Seq::<char>::empty(),
            ));
        } else {
            let l = back.last().push(b.last());
            assert((front + back).last() == back.last());
            assert((front + back).drop_last().push(l) =~= front + back.drop_last().push(l));
        }
    }
}

proof fn lemma_places_below(a: Seq<Seq<char>>, b: Seq<Seq<char>>)
    requires
        depth_below(b) is Some,
    ensures
        places(a).is_prefix_of(places(a + b)),
        places(a + b).len() == places(a).len() + depth_below(b)->Some_0,
    decreases b.len(),
{
    if b.len() == 0 {
        assert(a + b =~= a);
        assert(places(a).subrange(0, places(a).len() as int) =~= places(a));
    } else {
        lemma_places_below(a, b.drop_last());
        assert((a + b).drop_last() =~= a + b.drop_last());
        assert((a + b).last() == b.last());
        let x = places(a);
        let was = places(a + b.drop_last());
        let now = places(a + b);
        let n = x.len() as int;
        assert forall|i: int| 0 <= i < n implies #[trigger] now[i] == x[i] by {
            assert(was.subrange(0, n)[i] == was[i]);
        }
        assert(now.subrange(0, n) =~= x);
    }
}

/// A path that stays below the root of the repository leads into the
/// repository, and so does the absolute path of the same place.
pub proof fn law_paths_below_the_root_are_inside(root: Seq<char>, p: Seq<char>)
    requires
        !text::begins(p, "/"@),
        depth_below(text::pieces(p, CharSet::One('/'))) is Some,
    ensures
        inside(root, p),
        text::begins(root, "/"@) ==> inside(root, root + "/"@ + p),
{
    reveal_strlit("/");
    if text::begins(root, "/"@) {
        let full = root + "/"@ + p;
        assert(full =~= root.push('/') + p);
        lemma_pieces_of_both(root, '/', p);
        lemma_places_below(
            text::pieces(root, CharSet::One('/')),
            text::pieces(p, CharSet::One('/')),
        );
        assert(full.subrange(0, 1) =~= root.subrange(0, 1));
    }
}

// ---------------------------------------------------------------------
// Limits of time
// ---------------------------------------------------------------------

/// What the settings say of a number of seconds. `T` is the type of texts.
#[derive(Debug)]
pub enum Seconds<T> {
    /// Nothing, or the settings cannot be read.
    Unset,
    /// This many.
    Given(u64),
    /// A number below the least that makes sense.
    TooSmall,
    /// Something that is not an integer.
    NotInteger { found: T },
}

impl View for Seconds<String> {
    type V = Seconds<Seq<char>>;

    open spec fn view(&self) -> Seconds<Seq<char>> {
        match *self {
            Seconds::Unset => Seconds::Unset,
            Seconds::Given(n) => Seconds::Given(n),
            Seconds::TooSmall => Seconds::TooSmall,
            Seconds::NotInteger { found } => Seconds::NotInteger { found: found@ },
        }
    }
}

/// What a document says of the number of seconds under `key`, which is at least
/// `least`.
pub open spec fn seconds_under(doc: TomlView, key: Seq<char>, least: int) -> Seconds<Seq<char>> {
    match doc.member(key) {
        None => Seconds::Unset,
        Some(TomlView::Integer(n)) => if n >= least {
            Seconds::Given(n as u64)
        } else {
            Seconds::TooSmall
        },
        Some(v) => Seconds::NotInteger { found: v.kind_name() },
    }
}

/// What the settings say of the number of seconds under `key`, which is at
/// least `least`.
pub open spec fn seconds_in(content: Option<Seq<char>>, key: Seq<char>, least: int) -> Seconds<
    Seq<char>,
> {
    match content {
        None => Seconds::Unset,
        Some(t) => match config::toml_document(t) {
            Err(_) => Seconds::Unset,
            Ok(doc) => seconds_under(doc, key, least),
        },
    }
}

/// The number, where there is one.
pub open spec fn number_of(s: Seconds<Seq<char>>) -> Option<u64> {
    match s {
        Seconds::Given(n) => Some(n),
        _ => None,
    }
}

/// Reads the number of seconds under `key` in the settings file.
pub fn read_seconds(content: Option<&str>, key: &str, least: i64) -> (r: Seconds<String>)
    requires
        0 <= least,
    ensures
        r@ == seconds_in(text::opt_str(content), key@, least as int),
{
    match content {
        None => Seconds::Unset,
        Some(t) => match config::parse_toml(t) {
            Err(_) => Seconds::Unset,
            Ok(doc) => seconds_in_document(&doc, key, least),
        },
    }
}

/// Reads the number of seconds under `key` in a document.
pub fn seconds_in_document(doc: &toml::Value, key: &str, least: i64) -> (r: Seconds<String>)
    requires
        0 <= least,
    ensures
        r@ == seconds_under(config::toml_view(*doc), key@, least as int),
{
    match config::get(doc, key) {
        None => Seconds::Unset,
        Some(v) => match config::as_integer(v) {
            Some(n) => if n >= least {
                Seconds::Given(n as u64)
            } else {
                Seconds::TooSmall
            },
            None => Seconds::NotInteger { found: config::kind_name(v) },
        },
    }
}

/// The wall-clock limit in the settings, `verify_timeout_secs`: a positive
/// number; nothing otherwise, which means no limit.
pub fn load_timeout_from_config(content: Option<&str>) -> (r: Option<u64>)
    ensures
        r == number_of(seconds_in(text::opt_str(content), "verify_timeout_secs"@, 1)),
{
    match read_seconds(content, "verify_timeout_secs", 1) {
        Seconds::Given(n) => Some(n),
        _ => None,
    }
}

/// The idle limit in the settings, `verify_stall_secs`: zero switches it off;
/// nothing where the key is absent or not valid.
pub fn load_stall_from_config(content: Option<&str>) -> (r: Option<u64>)
    ensures
        r == number_of(seconds_in(text::opt_str(content), "verify_stall_secs"@, 0)),
{
    match read_seconds(content, "verify_stall_secs", 0) {
        Seconds::Given(n) => Some(n),
        _ => None,
    }
}

/// The number of seconds that a text stands for.
pub open spec fn seconds_text(raw: Seq<char>) -> Option<nat> {
    number::parsed(text::trimmed(raw), u64::MAX as nat)
}

/// The number of seconds that a text stands for.
pub fn parse_seconds(raw: &str) -> (r: Option<u64>)
    ensures
        match r {
            Some(n) => seconds_text(raw@) == Some(n as nat),
            None => seconds_text(raw@) is None,
        },
{
    parse_unsigned(trim(raw), u64::MAX)
}

/// The wall-clock limit: the environment wins over the settings where it holds
/// a number, of which zero means no limit.
pub open spec fn timeout_of(env: Option<Seq<char>>, configured: Option<u64>) -> Option<u64> {
    let fallback = match configured {
        Some(n) => Some(if n < 1 {
            1u64
        } else {
            n
        }),
        None => None,
    };
    match env {
        None => fallback,
        Some(raw) => match seconds_text(raw) {
            None => fallback,
            Some(n) => if n == 0 {
                None
            } else {
                Some(n as u64)
            },
        },
    }
}

/// The wall-clock limit in seconds; nothing means no limit.
pub fn resolve_verify_timeout(env: Option<&str>, configured: Option<u64>) -> (r: Option<u64>)
    ensures
        r == timeout_of(text::opt_str(env), configured),
{
    if let Some(raw) = env {
        match parse_seconds(raw) {
            Some(n) => {
                if n >= 1 {
                    return Some(n);
                }
                return None;
            },
            None => {},
        }
    }
    match configured {
        Some(n) => if n < 1 {
            Some(1)
        } else {
            Some(n)
        },
        None => None,
    }
}

/// The idle time, in seconds, after which a silent process tree counts as hung.
pub const DEFAULT_STALL: u64 = 900;

/// The idle limit: the environment wins over the settings where it holds a
/// number, and zero switches the limit off in either.
pub open spec fn stall_of(env: Option<Seq<char>>, configured: Option<u64>) -> Option<u64> {
    let fallback = match configured {
        Some(n) => if n == 0 {
            None
        } else {
            Some(n)
        },
        None => Some(DEFAULT_STALL),
    };
    match env {
        None => fallback,
        Some(raw) => match seconds_text(raw) {
            None => fallback,
            Some(n) => if n == 0 {
                None
            } else {
                Some(n as u64)
            },
        },
    }
}

/// The idle limit in seconds; nothing means no limit.
pub fn resolve_verify_stall(env: Option<&str>, configured: Option<u64>) -> (r: Option<u64>)
    ensures
        r == stall_of(text::opt_str(env), configured),
{
    if let Some(raw) = env {
        match parse_seconds(raw) {
            Some(n) => {
                if n == 0 {
                    return None;
                }
                return Some(n);
            },
            None => {},
        }
    }
    match configured {
        Some(n) => if n == 0 {
            None
        } else {
            Some(n)
        },
        None => Some(DEFAULT_STALL),
    }
}

// ---------------------------------------------------------------------
// Watching one command
// ---------------------------------------------------------------------

/// Why a command that was still running was killed.
#[derive(Debug, Clone, Copy, PartialEq, Eq, Structural)]
pub enum VerifyKill {
    /// No output and no processor time for this many seconds.
    Stall { idle: u64 },
    /// The wall-clock limit of this many seconds has passed.
    Timeout { after: u64 },
}

impl VerifyKill {
    /// Whether the command had stalled.
    pub fn is_stall(&self) -> (r: bool)
        ensures
            r == (*self is Stall),
    {
        matches!(self, VerifyKill::Stall { .. })
    }
}

/// Nanoseconds in a second.
pub const SECOND: u128 = 1000000000;

/// Nanoseconds between two samples of processor time.
pub const SAMPLE_EVERY: u128 = 250000000;

/// What is known of a running command. Times are in nanoseconds since it was
/// started.
#[derive(Debug)]
pub struct Watch {
    pub timeout: Option<u64>,
    pub stall: Option<u64>,
    pub last_progress: u128,
    pub last_io: u64,
    pub last_cpu: Option<u64>,
    pub last_sample: u128,
}

/// What to do after a look at the clock and the output.
#[derive(Debug, Clone, Copy, PartialEq, Eq, Structural)]
pub enum Look {
    /// Kill the command.
    Kill(VerifyKill),
    /// Sample the processor time, then settle.
    Sample,
    /// Settle.
    Settle,
}

/// The time from `b` to `a`, none where `a` is not later.
pub open spec fn since(a: u128, b: u128) -> int {
    if a > b {
        a - b
    } else {
        0
    }
}

impl Watch {
    /// A command that was just started.
    pub fn start(timeout: Option<u64>, stall: Option<u64>) -> (r: Watch)
        ensures
            r == (Watch {
                timeout,
                stall,
                last_progress: 0,
                last_io: 0,
                last_cpu: None,
                last_sample: 0,
            }),
    {
        Watch { timeout, stall, last_progress: 0, last_io: 0, last_cpu: None, last_sample: 0 }
    }

    /// The wall-clock limit has passed.
    pub open spec fn expired(self, now: u128) -> bool {
        self.timeout is Some && now >= self.timeout->Some_0 * SECOND
    }

    /// The command was idle for as long as it may be.
    pub open spec fn idle(self, now: u128) -> bool {
        self.stall is Some && since(now, self.last_progress) >= self.stall->Some_0 * SECOND
    }

    /// Processor time is sampled at the first look, and then every so often.
    pub open spec fn due(self, now: u128) -> bool {
        self.last_cpu is None || since(now, self.last_sample) >= SAMPLE_EVERY
    }

    /// After more output was seen.
    pub open spec fn heard(self, now: u128, io: u64) -> Watch {
        if io > self.last_io {
            Watch { last_progress: now, last_io: io, ..self }
        } else {
            self
        }
    }

    /// After a sample of the processor time, which may have failed.
    pub open spec fn sampled(self, now: u128, cpu: Option<u64>) -> Watch {
        match cpu {
            None => Watch { last_sample: now, ..self },
            Some(c) => Watch {
                last_progress: if self.last_cpu is Some && c > self.last_cpu->Some_0 {
                    now
                } else {
                    self.last_progress
                },
                last_cpu: Some(c),
                last_sample: now,
                ..self
            },
        }
    }

    /// Looks at the clock and at how many bytes the command has written.
    pub fn look(&mut self, now: u128, io: u64) -> (r: Look)
        ensures
            old(self).expired(now) ==> r == Look::Kill(
                VerifyKill::Timeout { after: old(self).timeout->Some_0 },
            ) && *final(self) == *old(self),
            !old(self).expired(now) ==> *final(self) == old(self).heard(now, io) && r == (if old(
                self).due(now) {
                Look::Sample
            } else {
                Look::Settle
            }),
    {
        if let Some(t) = self.timeout {
            assert(t * SECOND <= u64::MAX * SECOND);
            if now >= t as u128 * SECOND {
                return Look::Kill(VerifyKill::Timeout { after: t });
            }
        }
        if io > self.last_io {
            self.last_progress = now;
            self.last_io = io;
        }
        let waited: u128 = if now > self.last_sample {
            now - self.last_sample
        } else {
            0
        };
        if self.last_cpu.is_none() || waited >= SAMPLE_EVERY {
            Look::Sample
        } else {
            Look::Settle
        }
    }

    /// Takes in a sample of the processor time.
    pub fn take_sample(&mut self, now: u128, cpu: Option<u64>)
        ensures
            *final(self) == old(self).sampled(now, cpu),
    {
        if let Some(c) = cpu {
            if let Some(before) = self.last_cpu {
                if c > before {
                    self.last_progress = now;
                }
            }
            self.last_cpu = Some(c);
        }
        self.last_sample = now;
    }

    /// Whether the command has been idle for too long.
    pub fn settle(&self, now: u128) -> (r: Option<VerifyKill>)
        ensures
            r == (if self.idle(now) {
                Some(VerifyKill::Stall { idle: self.stall->Some_0 })
            } else {
                None
            }),
    {
        if let Some(s) = self.stall {
            assert(s * SECOND <= u64::MAX * SECOND);
            let waited: u128 = if now > self.last_progress {
                now - self.last_progress
            } else {
                0
            };
            if waited >= s as u128 * SECOND {
                return Some(VerifyKill::Stall { idle: s });
            }
        }
        None
    }
}

/// A command that shows progress is not killed as hung: neither at a look at
/// which it has written more, nor at one at which it has used more processor
/// time.
pub proof fn law_progress_prevents_stall(w: Watch, now: u128, io: u64, cpu: u64)
    requires
        w.stall is Some ==> w.stall->Some_0 > 0,
    ensures
        io > w.last_io ==> !w.heard(now, io).idle(now) && !w.heard(now, io).sampled(
            now,
            Some(cpu),
        ).idle(now),
        w.last_cpu is Some && cpu > w.last_cpu->Some_0 ==> !w.heard(now, io).sampled(
            now,
            Some(cpu),
        ).idle(now),
{
}

/// A command without output and without processor time is killed once the idle
/// limit has passed since its last progress, and not before.
pub proof fn law_silence_is_a_stall(w: Watch, now: u128, io: u64, cpu: Option<u64>)
    requires
        w.stall is Some,
        io <= w.last_io,
        cpu is Some && w.last_cpu is Some ==> cpu->Some_0 <= w.last_cpu->Some_0,
        now >= w.last_progress,
    ensures
        w.heard(now, io).sampled(now, cpu).idle(now) <==> now - w.last_progress >= w.stall->Some_0
            * SECOND,
{
}

/// Without limits no command is ever killed.
pub proof fn law_no_limit_waits(w: Watch, now: u128)
    requires
        w.timeout is None,
        w.stall is None,
    ensures
        !w.expired(now),
        !w.idle(now),
{
}

/// How many bytes of each stream of a command are kept.
pub const VERIFY_OUTPUT_CAP: usize = 10485760;

/// What is kept of a stream after one more chunk: all of the chunk until the
/// cap is reached, and nothing from then on.
pub open spec fn absorbed(kept: Seq<u8>, chunk: Seq<u8>) -> Seq<u8> {
    if kept.len() >= VERIFY_OUTPUT_CAP {
        kept
    } else {
        kept + chunk
    }
}

/// Takes in a chunk of a stream.
pub fn absorb(kept: &mut Vec<u8>, chunk: &[u8])
    ensures
        final(kept)@ == absorbed(old(kept)@, chunk@),
{
    if kept.len() < VERIFY_OUTPUT_CAP {
        kept.extend_from_slice(chunk);
    }
}

/// What is kept of a stream stays below the cap and one chunk.
pub proof fn law_kept_output_is_bounded(kept: Seq<u8>, chunk: Seq<u8>, size: nat)
    requires
        chunk.len() <= size,
        kept.len() < VERIFY_OUTPUT_CAP + size,
    ensures
        absorbed(kept, chunk).len() < VERIFY_OUTPUT_CAP + size,
{
}

// ---------------------------------------------------------------------
// Processor time
// ---------------------------------------------------------------------

/// The largest number that fits.
pub open spec fn capped(n: nat) -> nat {
    if n > u64::MAX {
        u64::MAX as nat
    } else {
        n
    }
}

/// The milliseconds in the digits behind the point: what is not a digit is cut
/// off at the end, and from the fourth character on nothing counts.
pub open spec fn fraction_millis(frac: Seq<char>) -> Option<nat> {
    let d = text::trim_right(frac, CharSet::NonDigit);
    if d.len() == 0 {
        Some(0)
    } else if d.len() == 1 {
        match number::parsed(d, u64::MAX as nat) {
            Some(n) => Some(n * 100),
            None => None,
        }
    } else if d.len() == 2 {
        match number::parsed(d, u64::MAX as nat) {
            Some(n) => Some(n * 10),
            None => None,
        }
    } else {
        number::parsed(d.take(3), u64::MAX as nat)
    }
}

/// The milliseconds of `ss` or `ss.ff`.
pub open spec fn seconds_millis(raw: Seq<char>) -> Option<nat> {
    match text::cut_at(raw, "."@) {
        Some((whole, frac)) => match number::parsed(whole, u64::MAX as nat) {
            None => None,
            Some(secs) => match fraction_millis(frac) {
                None => None,
                Some(ms) => Some(capped(capped(secs * 1000) + ms)),
            },
        },
        None => match number::parsed(raw, u64::MAX as nat) {
            None => None,
            Some(secs) => Some(capped(secs * 1000)),
        },
    }
}

/// The milliseconds of a time as `ps` prints it: `ss`, `mm:ss`, `mm:ss.ff` or
/// `hh:mm:ss`, at most as many as fit.
pub open spec fn ps_millis(s: Seq<char>) -> Option<nat> {
    let parts = text::pieces(text::trimmed(s), CharSet::One(':'));
    if parts.len() == 1 {
        seconds_millis(parts[0])
    } else if parts.len() == 2 {
        match (number::parsed(parts[0], u64::MAX as nat), seconds_millis(parts[1])) {
            (Some(min), Some(ms)) => Some(capped(capped(min * 60000) + ms)),
            _ => None,
        }
    } else if parts.len() == 3 {
        match (
            number::parsed(parts[0], u64::MAX as nat),
            number::parsed(parts[1], u64::MAX as nat),
            seconds_millis(parts[2]),
        ) {
            (Some(hour), Some(min), Some(ms)) => Some(
                capped(capped(capped(hour * 3600000) + capped(min * 60000)) + ms),
            ),
            _ => None,
        }
    } else {
        None
    }
}

fn times(a: u64, b: u64) -> (r: u64)
    ensures
        r == capped((a * b) as nat),
{
    let wide: u128 = a as u128;
    assert(wide * b <= u64::MAX * u64::MAX) by (nonlinear_arith)
        requires
            wide <= u64::MAX,
            b <= u64::MAX,
    ;
    let p: u128 = wide * b as u128;
    if p > u64::MAX as u128 {
        u64::MAX
    } else {
        p as u64
    }
}

fn plus(a: u64, b: u64) -> (r: u64)
    ensures
        r == capped((a + b) as nat),
{
    if a > u64::MAX - b {
        u64::MAX
    } else {
        a + b
    }
}

fn parse_fraction(frac: &str) -> (r: Option<u64>)
    ensures
        match r {
            Some(n) => fraction_millis(frac@) == Some(n as nat),
            None => fraction_millis(frac@) is None,
        },
{
    let d = trim_end(frac, CharSet::NonDigit);
    let n: usize = d.unicode_len();
    if n == 0 {
        return Some(0);
    }
    if n == 1 {
        proof {
            number::lemma_value_bound(d@);
            number::lemma_value_bound(number::unsigned_digits(d@));
        }
        return match parse_unsigned(d, u64::MAX) {
            Some(k) => Some(k * 100),
            None => None,
        };
    }
    if n == 2 {
        proof {
            number::lemma_value_bound(d@);
            number::lemma_value_bound(number::unsigned_digits(d@));
        }
        return match parse_unsigned(d, u64::MAX) {
            Some(k) => Some(k * 10),
            None => None,
        };
    }
    let head = d.substring_char(0, 3);
    assert(head@ =~= d@.take(3));
    parse_unsigned(head, u64::MAX)
}

fn parse_seconds_millis(raw: &str) -> (r: Option<u64>)
    ensures
        match r {
            Some(n) => seconds_millis(raw@) == Some(n as nat),
            None => seconds_millis(raw@) is None,
        },
{
    match split_once(raw, ".") {
        Some((whole, frac)) => match parse_unsigned(whole, u64::MAX) {
            None => None,
            Some(secs) => match parse_fraction(frac) {
                None => None,
                Some(ms) => Some(plus(times(secs, 1000), ms)),
            },
        },
        None => match parse_unsigned(raw, u64::MAX) {
            None => None,
            Some(secs) => Some(times(secs, 1000)),
        },
    }
}

/// The milliseconds of a time as `ps` prints it.
pub fn parse_ps_time(s: &str) -> (r: Option<u64>)
    ensures
        match r {
            Some(n) => ps_millis(s@) == Some(n as nat),
            None => ps_millis(s@) is None,
        },
{
    let parts = split(trim(s), CharSet::One(':'));
    let ghost all = text::texts(parts@);
    assert(all.len() == parts@.len());
    assert forall|i: int| 0 <= i < parts@.len() implies #[trigger] all[i] == parts@[i]@ by {}
    if parts.len() == 1 {
        assert(all[0] == parts@[0]@);
        parse_seconds_millis(parts[0].as_str())
    } else if parts.len() == 2 {
        assert(all[0] == parts@[0]@ && all[1] == parts@[1]@);
        match (parse_unsigned(parts[0].as_str(), u64::MAX), parse_seconds_millis(
            parts[1].as_str(),
        )) {
            (Some(min), Some(ms)) => Some(plus(times(min, 60000), ms)),
            _ => None,
        }
    } else if parts.len() == 3 {
        assert(all[0] == parts@[0]@ && all[1] == parts@[1]@ && all[2] == parts@[2]@);
        match (
            parse_unsigned(parts[0].as_str(), u64::MAX),
            parse_unsigned(parts[1].as_str(), u64::MAX),
            parse_seconds_millis(parts[2].as_str()),
        ) {
            (Some(hour), Some(min), Some(ms)) => Some(
                plus(plus(times(hour, 3600000), times(min, 60000)), ms),
            ),
            _ => None,
        }
    } else {
        None
    }
}

/// The milliseconds that a line of `ps` adds for the process group: the line
/// holds the number of the group and the time.
pub open spec fn line_millis(line: Seq<char>, group: u32) -> Option<nat> {
    let words = text::filled(text::pieces(line, CharSet::Space));
    if words.len() >= 2 && number::parsed(words[0], u32::MAX as nat) == Some(group as nat) {
        ps_millis(words[1])
    } else {
        None
    }
}

/// The milliseconds of all lines of the process group; nothing where no line
/// is of the group.
pub open spec fn group_millis(ls: Seq<Seq<char>>, group: u32) -> Option<nat>
    decreases ls.len(),
{
    if ls.len() == 0 {
        None
    } else {
        let before = group_millis(ls.drop_last(), group);
        match line_millis(ls.last(), group) {
            None => before,
            Some(ms) => match before {
                None => Some(capped(ms)),
                Some(sum) => Some(capped(sum + ms)),
            },
        }
    }
}

fn parse_line_millis(line: &str, group: u32) -> (r: Option<u64>)
    ensures
        match r {
            Some(n) => line_millis(line@, group) == Some(n as nat),
            None => line_millis(line@, group) is None,
        },
{
    let words = drop_empty(split(line, CharSet::Space));
    let ghost all = text::texts(words@);
    assert(all.len() == words@.len());
    if words.len() < 2 {
        return None;
    }
    assert(all[0] == words@[0]@ && all[1] == words@[1]@);
    match parse_unsigned(words[0].as_str(), u32::MAX as u64) {
        Some(g) => if g == group as u64 {
            parse_ps_time(words[1].as_str())
        } else {
            None
        },
        None => None,
    }
}

/// The processor time of a process group in milliseconds, from what `ps`
/// printed of all processes.
pub fn group_cpu(listing: &str, group: u32) -> (r: Option<u64>)
    ensures
        match r {
            Some(n) => group_millis(text::lines(listing@), group) == Some(n as nat),
            None => group_millis(text::lines(listing@), group) is None,
        },
{
    let ls = lines_of(listing);
    let ghost all = text::texts(ls@);
    let mut total: Option<u64> = None;
    let mut i: usize = 0;
    assert(all.take(0) =~= Seq::empty());
    while i < ls.len()
        invariant
            i <= ls.len(),
            all == text::texts(ls@),
            match total {
                Some(n) => group_millis(all.take(i as int), group) == Some(n as nat),
                None => group_millis(all.take(i as int), group) is None,
            },
        decreases ls.len() - i,
    {
        assert(all.take(i + 1).drop_last() =~= all.take(i as int));
        assert(all[i as int] == ls@[i as int]@);
        if let Some(ms) = parse_line_millis(ls[i].as_str(), group) {
            total = match total {
                None => Some(ms),
                Some(sum) => Some(plus(sum, ms)),
            };
        }
        i = i + 1;
    }
    assert(all.take(all.len() as int) =~= all);
    total
}

// ---------------------------------------------------------------------
// Running a list of commands
// ---------------------------------------------------------------------

/// How one command ended.
#[derive(Debug)]
pub struct ShellOutcome {
    pub success: bool,
    /// Set where the command was killed.
    pub kill: Option<VerifyKill>,
    pub stdout: Vec<u8>,
    pub stderr: Vec<u8>,
    /// Nanoseconds from the start of the command until it ended or the decision
    /// to kill it.
    pub ran_for: u128,
}

/// The contents of a [`ShellOutcome`].
pub struct OutcomeView {
    pub success: bool,
    pub kill: Option<VerifyKill>,
    pub stdout: Seq<u8>,
    pub stderr: Seq<u8>,
    pub ran_for: u128,
}

impl View for ShellOutcome {
    type V = OutcomeView;

    open spec fn view(&self) -> OutcomeView {
        OutcomeView {
            success: self.success,
            kill: self.kill,
            stdout: self.stdout@,
            stderr: self.stderr@,
            ran_for: self.ran_for,
        }
    }
}

/// How a list of commands ended.
#[derive(Debug)]
pub struct RunResult {
    pub passed: bool,
    pub failed_command: Option<String>,
    pub output: String,
    /// Set where the command that failed was killed.
    pub kill: Option<VerifyKill>,
}

/// The contents of a [`RunResult`].
pub struct RunView {
    pub passed: bool,
    pub failed_command: Option<Seq<char>>,
    pub output: Seq<char>,
    pub kill: Option<VerifyKill>,
}

impl View for RunResult {
    type V = RunView;

    open spec fn view(&self) -> RunView {
        RunView {
            passed: self.passed,
            failed_command: text::opt(self.failed_command),
            output: self.output@,
            kill: self.kill,
        }
    }
}

/// A text with a line feed at its end, unless it is empty.
pub open spec fn ended_line(s: Seq<char>) -> Seq<char> {
    if s.len() == 0 || s.last() == '\n' {
        s
    } else {
        s.push('\n')
    }
}

/// The output so far and both streams of one more command.
pub open spec fn appended(out: Seq<char>, stdout: Seq<u8>, stderr: Seq<u8>) -> Seq<char> {
    out + ended_line(text::lossy(stdout)) + ended_line(text::lossy(stderr))
}

fn put_stream(out: &mut String, bytes: &Vec<u8>)
    ensures
        final(out)@ == old(out)@ + ended_line(text::lossy(bytes@)),
{
    let ghost start = out@;
    let s: String = from_lossy(bytes.as_slice());
    let n: usize = s.as_str().unicode_len();
    if n > 0 {
        out.append(s.as_str());
        if s.as_str().get_char(n - 1) != '\n' {
            out.push('\n');
        }
    }
    assert(out@ =~= start + ended_line(text::lossy(bytes@)));
}

fn append_output(out: &mut String, stdout: &Vec<u8>, stderr: &Vec<u8>)
    ensures
        final(out)@ == appended(old(out)@, stdout@, stderr@),
{
    put_stream(out, stdout);
    put_stream(out, stderr);
}

/// The last of the lines that, trimmed, is neither empty nor a remark of the
/// harness itself.
pub open spec fn last_telling(ls: Seq<Seq<char>>) -> Option<Seq<char>>
    decreases ls.len(),
{
    if ls.len() == 0 {
        None
    } else {
        let l = text::trimmed(ls.last());
        if l.len() > 0 && !text::begins(l, "[gaggle]"@) {
            Some(l)
        } else {
            last_telling(ls.drop_last())
        }
    }
}

/// The last line of an output that says something.
pub fn last_nonempty_line(s: &str) -> (r: Option<String>)
    ensures
        match r {
            Some(l) => last_telling(text::lines(s@)) == Some(l@),
            None => last_telling(text::lines(s@)) is None,
        },
{
    let ls = lines_of(s);
    let ghost all = text::texts(ls@);
    let mut i: usize = ls.len();
    assert(all.take(all.len() as int) =~= all);
    while i > 0
        invariant
            i <= ls.len(),
            all == text::texts(ls@),
            all == text::lines(s@),
            last_telling(all) == last_telling(all.take(i as int)),
        decreases i,
    {
        assert(all.take(i as int).drop_last() =~= all.take(i - 1));
        assert(all.take(i as int).last() == ls@[i - 1]@);
        let l = trim(ls[i - 1].as_str());
        if !l.is_empty() && !starts_with(l, "[gaggle]") {
            return Some(owned(l));
        }
        i = i - 1;
    }
    None
}

/// The remark that a command was killed.
pub open spec fn kill_note(cmd: Seq<char>, kill: VerifyKill, last: Option<Seq<char>>) -> Seq<char> {
    let tail = match last {
        Some(l) => "; last output: "@ + l,
        None => Seq::empty(),
    };
    match kill {
        VerifyKill::Stall { idle } => "[gaggle] verify stalled after "@ + number::decimal(
            idle as nat,
        ) + "s with no output and no CPU (killed)"@ + tail + ": "@ + cmd + "\n"@,
        VerifyKill::Timeout { after } => "[gaggle] verify command timed out after "@
            + number::decimal(after as nat) + "s and was killed"@ + tail + ": "@ + cmd + "\n"@,
    }
}

/// The remark that a command is tried again.
pub open spec fn retry_note() -> Seq<char> {
    "[gaggle] verify stalled early — retrying once\n"@
}

fn note_kill(cmd: &str, kill: VerifyKill, last: Option<String>) -> (r: String)
    ensures
        r@ == kill_note(cmd@, kill, text::opt(last)),
{
    let tail: String = match last {
        Some(l) => Draft::of("; last output: ").put(l.as_str()).text,
        None => String::new(),
    };
    assert(last is None ==> tail@ =~= Seq::empty());
    match kill {
        VerifyKill::Stall { idle } => Draft::of("[gaggle] verify stalled after ").put(
            to_decimal(idle).as_str(),
        ).put("s with no output and no CPU (killed)").put(tail.as_str()).put(": ").put(cmd).put(
            "\n",
        ).text,
        VerifyKill::Timeout { after } => Draft::of(
            "[gaggle] verify command timed out after ",
        ).put(to_decimal(after).as_str()).put("s and was killed").put(tail.as_str()).put(": ").put(
            cmd,
        ).put("\n").text,
    }
}

/// A stall that came within twice the idle limit is often a lock or a start
/// that went wrong; one after real work is not.
pub open spec fn early_stall(kill: VerifyKill, stall: Option<u64>, ran_for: u128) -> bool {
    kill is Stall && stall is Some && ran_for <= 2 * stall->Some_0 * SECOND
}

/// How far a list of commands has been run.
pub struct Progress {
    pub cmds: Seq<Seq<char>>,
    pub stall: Option<u64>,
    /// The number of commands that have succeeded.
    pub at: nat,
    /// Whether the current command has been tried before.
    pub retried: bool,
    pub output: Seq<char>,
    pub ended: Option<RunView>,
}

impl Progress {
    pub open spec fn wf(self) -> bool {
        &&& self.at <= self.cmds.len()
        &&& self.ended is None ==> self.at < self.cmds.len()
    }

    /// Before the first command.
    pub open spec fn start(cmds: Seq<Seq<char>>, stall: Option<u64>) -> Progress {
        Progress {
            cmds,
            stall,
            at: 0,
            retried: false,
            output: Seq::empty(),
            ended: if cmds.len() == 0 {
                Some(
                    RunView {
                        passed: true,
                        failed_command: None,
                        output: Seq::empty(),
                        kill: None,
                    },
                )
            } else {
                None
            },
        }
    }

    pub open spec fn fail(self, output: Seq<char>, kill: Option<VerifyKill>) -> Progress {
        Progress {
            output,
            ended: Some(
                RunView {
                    passed: false,
                    failed_command: Some(self.cmds[self.at as int]),
                    output,
                    kill,
                },
            ),
            ..self
        }
    }

    /// After the current command has ended. The list stops at the first command
    /// that fails; a command that stalls early is tried once more.
    pub open spec fn after(self, o: OutcomeView) -> Progress {
        let out = appended(self.output, o.stdout, o.stderr);
        let cmd = self.cmds[self.at as int];
        if self.ended is Some {
            self
        } else {
            match o.kill {
                Some(kill) => {
                    let noted = out + kill_note(cmd, kill, last_telling(text::lines(out)));
                    if !self.retried && early_stall(kill, self.stall, o.ran_for) {
                        Progress { output: noted + retry_note(), retried: true, ..self }
                    } else {
                        self.fail(noted, Some(kill))
                    }
                },
                None => if !o.success {
                    self.fail(out, None)
                } else {
                    Progress {
                        at: self.at + 1,
                        retried: false,
                        output: out,
                        ended: if self.at + 1 == self.cmds.len() {
                            Some(
                                RunView {
                                    passed: true,
                                    failed_command: None,
                                    output: out,
                                    kill: None,
                                },
                            )
                        } else {
                            None
                        },
                        ..self
                    }
                },
            }
        }
    }

    /// After several commands have ended.
    pub open spec fn play(self, os: Seq<OutcomeView>) -> Progress
        decreases os.len(),
    {
        if os.len() == 0 {
            self
        } else {
            self.play(os.drop_last()).after(os.last())
        }
    }
}

/// A list of commands that is being run: [`Runner::command`] is to be run next,
/// [`Runner::observe`] takes in how it ended.
#[derive(Debug)]
pub struct Runner {
    cmds: Vec<String>,
    stall: Option<u64>,
    at: usize,
    retried: bool,
    output: String,
    ended: Option<RunResult>,
}

impl View for Runner {
    type V = Progress;

    closed spec fn view(&self) -> Progress {
        Progress {
            cmds: text::texts(self.cmds@),
            stall: self.stall,
            at: self.at as nat,
            retried: self.retried,
            output: self.output@,
            ended: match self.ended {
                Some(r) => Some(r@),
                None => None,
            },
        }
    }
}

impl Runner {
    /// Before the first command; `stall` is the idle limit in seconds.
    pub fn start(cmds: &Vec<String>, stall: Option<u64>) -> (r: Runner)
        ensures
            r@ == Progress::start(text::texts(cmds@), stall),
            r@.wf(),
    {
        let list = text::copied(cmds);
        let output: String = String::new();
        assert(output@ =~= Seq::empty());
        assert(text::texts(cmds@).len() == cmds@.len());
        if list.len() == 0 {
            let done: String = String::new();
            assert(done@ =~= Seq::empty());
            let result = RunResult { passed: true, failed_command: None, output: done, kill: None };
            return Runner {
                cmds: list,
                stall,
                at: 0,
                retried: false,
                output,
                ended: Some(result),
            };
        }
        Runner { cmds: list, stall, at: 0, retried: false, output, ended: None }
    }

    /// The command to be run next; none once the list has ended.
    pub fn command(&self) -> (r: Option<&str>)
        requires
            self@.wf(),
        ensures
            match r {
                Some(c) => self@.ended is None && c@ == self@.cmds[self@.at as int],
                None => self@.ended is Some,
            },
    {
        if self.ended.is_some() {
            return None;
        }
        assert(text::texts(self.cmds@).len() == self.cmds@.len());
        assert(text::texts(self.cmds@)[self.at as int] == self.cmds@[self.at as int]@);
        Some(self.cmds[self.at].as_str())
    }

    /// Whether the current command is being tried again.
    pub fn retrying(&self) -> (r: bool)
        ensures
            r == self@.retried,
    {
        self.retried
    }

    /// How the list ended, once it has.
    pub fn result(&self) -> (r: Option<&RunResult>)
        ensures
            match r {
                Some(x) => self@.ended == Some(x@),
                None => self@.ended is None,
            },
    {
        match &self.ended {
            Some(x) => Some(x),
            None => None,
        }
    }

    /// How the list ended, once it has.
    pub fn into_result(self) -> (r: Option<RunResult>)
        ensures
            match r {
                Some(x) => self@.ended == Some(x@),
                None => self@.ended is None,
            },
    {
        self.ended
    }

    fn stop(&mut self, kill: Option<VerifyKill>)
        requires
            old(self)@.wf(),
            old(self)@.ended is None,
        ensures
            final(self)@ == old(self)@.fail(old(self)@.output, kill),
    {
        assert(text::texts(self.cmds@).len() == self.cmds@.len());
        assert(text::texts(self.cmds@)[self.at as int] == self.cmds@[self.at as int]@);
        let result = RunResult {
            passed: false,
            failed_command: Some(self.cmds[self.at].clone()),
            output: self.output.clone(),
            kill,
        };
        self.ended = Some(result);
    }

    /// Takes in how the current command ended.
    pub fn observe(&mut self, o: &ShellOutcome)
        requires
            old(self)@.wf(),
        ensures
            final(self)@ == old(self)@.after(o@),
            final(self)@.wf(),
    {
        if self.ended.is_some() {
            return ;
        }
        assert(text::texts(self.cmds@).len() == self.cmds@.len());
        assert(text::texts(self.cmds@)[self.at as int] == self.cmds@[self.at as int]@);
        append_output(&mut self.output, &o.stdout, &o.stderr);
        match o.kill {
            Some(kill) => {
                let last = last_nonempty_line(self.output.as_str());
                let note = note_kill(self.cmds[self.at].as_str(), kill, last);
                self.output.append(note.as_str());
                let early: bool = match (kill, self.stall) {
                    (VerifyKill::Stall { .. }, Some(window)) => {
                        assert(2 * window * SECOND <= 2 * u64::MAX * SECOND);
                        o.ran_for <= 2 * (window as u128) * SECOND
                    },
                    _ => false,
                };
                if !self.retried && early {
                    self.output.append("[gaggle] verify stalled early — retrying once\n");
                    self.retried = true;
                } else {
                    self.stop(Some(kill));
                }
            },
            None => {
                if !o.success {
                    self.stop(None);
                } else {
                    assert(self.at < self.cmds.len());
                    self.at = self.at + 1;
                    self.retried = false;
                    if self.at == self.cmds.len() {
                        let result = RunResult {
                            passed: true,
                            failed_command: None,
                            output: self.output.clone(),
                            kill: None,
                        };
                        self.ended = Some(result);
                    }
                }
            },
        }
    }
}

/// The contract of a function that starts a list of commands.
pub open spec fn starts(
    r: Result<Runner, ConfigError<String>>,
    expected: Result<Seq<Seq<char>>, ConfigError<Seq<char>>>,
    stall: Option<u64>,
) -> bool {
    match r {
        Ok(x) => expected is Ok && x@ == Progress::start(expected->Ok_0, stall) && x@.wf(),
        Err(e) => expected == Err::<Seq<Seq<char>>, ConfigError<Seq<char>>>(e@),
    }
}

/// Starts the commands that check a change.
pub fn run(content: Option<&str>, stall: Option<u64>) -> (r: Result<Runner, ConfigError<String>>)
    ensures
        starts(r, verify_commands(text::opt_str(content)), stall),
{
    match load_commands(content) {
        Ok(cmds) => Ok(Runner::start(&cmds, stall)),
        Err(e) => Err(e),
    }
}

/// Starts the final gate of a run.
pub fn run_final(content: Option<&str>, stall: Option<u64>) -> (r: Result<
    Runner,
    ConfigError<String>,
>)
    ensures
        starts(r, final_commands(text::opt_str(content)), stall),
{
    match load_final_commands(content) {
        Ok(cmds) => Ok(Runner::start(&cmds, stall)),
        Err(e) => Err(e),
    }
}

/// Starts a list of commands, such as that of one component.
pub fn run_list(cmds: &Vec<String>, stall: Option<u64>) -> (r: Runner)
    ensures
        r@ == Progress::start(text::texts(cmds@), stall),
        r@.wf(),
{
    Runner::start(cmds, stall)
}

/// A command ended well.
pub open spec fn fine(o: OutcomeView) -> bool {
    o.kill is None && o.success
}

/// How many of the commands ended well.
pub open spec fn successes(os: Seq<OutcomeView>) -> nat
    decreases os.len(),
{
    if os.len() == 0 {
        0
    } else {
        successes(os.drop_last()) + (if fine(os.last()) {
            1nat
        } else {
            0
        })
    }
}

proof fn lemma_play(p: Progress, os: Seq<OutcomeView>)
    requires
        p.wf(),
        p.at == 0,
        !p.retried,
        os.len() > 0 ==> p.play(os.drop_last()).ended is None,
    ensures
        p.play(os).wf(),
        p.play(os).cmds == p.cmds,
        p.play(os).stall == p.stall,
        p.play(os).at == successes(os),
        os.len() <= 2 * p.play(os).at + (if p.play(os).retried {
            1nat
        } else {
            0
        }) + (if p.play(os).ended is Some && !(p.play(os).ended->Some_0.passed) {
            1nat
        } else {
            0
        }),
        p.play(os).ended is Some && os.len() > 0 ==> (p.play(os).ended->Some_0.passed
            <==> p.play(os).at == p.cmds.len()),
        p.play(os).ended is Some && os.len() > 0 && !(p.play(os).ended->Some_0.passed) ==> p.play(
            os,
        ).at < p.cmds.len() && !fine(os.last()) && p.play(os).ended->Some_0.failed_command
            == Some(p.cmds[p.play(os).at as int]) && p.play(os).ended->Some_0.kill
            == os.last().kill,
    decreases os.len(),
{
    if os.len() > 0 {
        let front = os.drop_last();
        if front.len() > 0 && p.play(front.drop_last()).ended is Some {
            assert(p.play(front) == p.play(front.drop_last()));
        }
        lemma_play(p, front);
    }
}

/// A gate passes only after each of its commands has ended well, and it names
/// the command that failed: all before it ended well and it did not.
pub proof fn law_gate_verdict(cmds: Seq<Seq<char>>, stall: Option<u64>, os: Seq<OutcomeView>)
    requires
        cmds.len() > 0,
        os.len() > 0,
        Progress::start(cmds, stall).play(os.drop_last()).ended is None,
        Progress::start(cmds, stall).play(os).ended is Some,
    ensures
        ({
            let r = Progress::start(cmds, stall).play(os).ended->Some_0;
            &&& r.passed <==> successes(os) == cmds.len()
            &&& r.passed ==> r.failed_command is None && r.kill is None
            &&& !r.passed ==> {
                &&& successes(os) < cmds.len()
                &&& r.failed_command == Some(cmds[successes(os) as int])
                &&& r.kill == os.last().kill
                &&& !fine(os.last())
            }
        }),
{
    lemma_play(Progress::start(cmds, stall), os);
}

/// The run of a gate comes to an end: no command is tried more than twice.
pub proof fn law_gate_ends(cmds: Seq<Seq<char>>, stall: Option<u64>, os: Seq<OutcomeView>)
    requires
        cmds.len() > 0,
        Progress::start(cmds, stall).play(os).ended is None,
    ensures
        os.len() < 2 * cmds.len(),
{
    let p = Progress::start(cmds, stall);
    if os.len() > 0 && p.play(os.drop_last()).ended is Some {
        assert(p.play(os) == p.play(os.drop_last()));
    }
    lemma_play(p, os);
}

/// A command that ran into the wall-clock limit, or stalled late, is not tried
/// again; nor is one that was tried again already.
pub proof fn law_no_second_retry(p: Progress, o: OutcomeView)
    requires
        p.wf(),
        p.ended is None,
        o.kill is Some,
        p.retried || o.kill->Some_0 is Timeout || p.stall is None || o.ran_for > 2
            * p.stall->Some_0 * SECOND,
    ensures
        p.after(o).ended is Some,
        !(p.after(o).ended->Some_0.passed),
{
}

// ---------------------------------------------------------------------
// The tail of an output
// ---------------------------------------------------------------------

/// From `k` on the text takes at most `max` bytes, and from no earlier place.
pub open spec fn tail_from(s: Seq<char>, max: nat, k: int) -> bool {
    &&& 0 <= k <= s.len()
    &&& text::byte_count(s.skip(k)) <= max
    &&& forall|j: int| 0 <= j < k ==> text::byte_count(#[trigger] s.skip(j)) > max
}

proof fn lemma_byte_count_grows(s: Seq<char>, j: int, k: int)
    requires
        0 <= j <= k <= s.len(),
    ensures
        text::byte_count(s.skip(j)) >= text::byte_count(s.skip(k)),
    decreases k - j,
{
    if j < k {
        text::lemma_byte_count_step(s, j);
        lemma_byte_count_grows(s, j + 1, k);
    }
}

/// The longest tail of a text that takes at most `max` bytes.
pub open spec fn tail_of(s: Seq<char>, max: nat) -> Seq<char>
    decreases s.len(),
{
    if s.len() == 0 || text::byte_count(s) <= max {
        s
    } else {
        tail_of(s.skip(1), max)
    }
}

proof fn lemma_tail_of(s: Seq<char>, max: nat, k: int)
    requires
        tail_from(s, max, k),
    ensures
        tail_of(s, max) == s.skip(k),
    decreases s.len(),
{
    assert(s.skip(0) =~= s);
    if k > 0 {
        assert(text::byte_count(s.skip(0)) > max);
        let rest = s.skip(1);
        assert(rest.skip(k - 1) =~= s.skip(k));
        assert forall|j: int| 0 <= j < k - 1 implies text::byte_count(#[trigger] rest.skip(j))
            > max by {
            assert(rest.skip(j) =~= s.skip(j + 1));
        }
        lemma_tail_of(rest, max, k - 1);
    }
}

/// The longest tail of a text that takes at most `max` bytes and starts between
/// two characters.
pub fn tail_bytes(s: &str, max: usize) -> (r: &str)
    ensures
        r@ == tail_of(s@, max as nat),
{
    let x: Vec<char> = text::chars_of(s);
    let mut k: usize = x.len();
    let mut size: usize = 0;
    assert(s@.skip(k as int) =~= Seq::empty());
    while k > 0
        invariant_except_break
            k <= x.len(),
            x@ == s@,
            size <= max,
            size == text::byte_count(s@.skip(k as int)),
        ensures
            k <= x.len(),
            tail_from(s@, max as nat, k as int),
        decreases k,
    {
        let w: usize = text::width(x[k - 1]);
        proof {
            text::lemma_byte_count_step(s@, k - 1);
        }
        if w > max - size {
            proof {
                assert forall|j: int| 0 <= j < k implies text::byte_count(#[trigger] s@.skip(j)) > max by {
                    lemma_byte_count_grows(s@, j, k - 1);
                }
            }
            break ;
        }
        size = size + w;
        k = k - 1;
    }
    let r = s.substring_char(k, x.len());
    assert(r@ =~= s@.skip(k as int));
    proof {
        lemma_tail_of(s@, max as nat, k as int);
    }
    r
}

/// The tail fits, and it is a tail.
pub proof fn law_tail_fits(s: Seq<char>, max: nat)
    ensures
        text::byte_count(tail_of(s, max)) <= max,
        tail_of(s, max).len() <= s.len(),
        tail_of(s, max) == s.skip(s.len() - tail_of(s, max).len()),
    decreases s.len(),
{
    assert(s.skip(0) =~= s);
    if s.len() > 0 && text::byte_count(s) > max {
        let rest = s.skip(1);
        law_tail_fits(rest, max);
        let n = tail_of(rest, max).len() as int;
        assert(rest.skip(rest.len() - n) =~= s.skip(s.len() - n));
    }
}

// ---------------------------------------------------------------------
// Laws of the lists of commands
// ---------------------------------------------------------------------

/// Every command that is listed is run, and no other: where a list is read
/// without a fault it has as many commands as the array has entries, and each
/// is the trimmed text of the entry in its place. A list is read without a
/// fault exactly where every entry is a text that says something.
pub proof fn law_every_listed_command_is_run(key: Seq<char>, l: Seq<TomlView>)
    ensures
        entries(key, l) is Ok <==> forall|i: int|
            0 <= i < l.len() ==> (#[trigger] l[i]) is Text && text::trimmed(l[i]->Text_0).len() > 0,
        entries(key, l) matches Ok(c) ==> c.len() == l.len() && forall|i: int|
            0 <= i < l.len() ==> #[trigger] c[i] == text::trimmed(l[i]->Text_0),
    decreases l.len(),
{
    if l.len() > 0 {
        let front = l.drop_last();
        law_every_listed_command_is_run(key, front);
        assert(l[l.len() - 1] == l.last());
        if entries(key, l) is Ok {
            assert forall|i: int| 0 <= i < l.len() implies (#[trigger] l[i]) is Text
                && text::trimmed(l[i]->Text_0).len() > 0 by {
                if i < front.len() {
                    assert(front[i] == l[i]);
                }
            }
            let c = entries(key, l)->Ok_0;
            assert forall|i: int| 0 <= i < l.len() implies #[trigger] c[i] == text::trimmed(
                l[i]->Text_0,
            ) by {
                if i < front.len() {
                    assert(front[i] == l[i]);
                    assert(entries(key, front)->Ok_0[i] == c[i]);
                }
            }
        }
        if forall|i: int|
            0 <= i < l.len() ==> (#[trigger] l[i]) is Text && text::trimmed(l[i]->Text_0).len()
                > 0 {
            assert forall|i: int| 0 <= i < front.len() implies (#[trigger] front[i]) is Text
                && text::trimmed(front[i]->Text_0).len() > 0 by {
                assert(front[i] == l[i]);
            }
        }
    }
}

/// The first entry that is no command is the one that is reported, with its
/// place in the list.
pub proof fn law_first_faulty_entry_is_told(key: Seq<char>, l: Seq<TomlView>, i: int)
    requires
        0 <= i < l.len(),
        forall|j: int|
            0 <= j < i ==> (#[trigger] l[j]) is Text && text::trimmed(l[j]->Text_0).len() > 0,
        !(l[i] is Text && text::trimmed(l[i]->Text_0).len() > 0),
    ensures
        l[i] is Text ==> entries(key, l) == Err::<Seq<Seq<char>>, ConfigError<Seq<char>>>(
            ConfigError::EntryBlank { key, index: i as usize },
        ),
        !(l[i] is Text) ==> entries(key, l) == Err::<Seq<Seq<char>>, ConfigError<Seq<char>>>(
            ConfigError::EntryNotText { key, index: i as usize, found: l[i].kind_name() },
        ),
{
    let head = l.take(i + 1);
    let good = head.drop_last();
    assert forall|j: int| 0 <= j < good.len() implies (#[trigger] good[j]) is Text
        && text::trimmed(good[j]->Text_0).len() > 0 by {
        assert(good[j] == l[j]);
    }
    law_every_listed_command_is_run(key, good);
    assert(head.last() == l[i]);
    assert(head.len() - 1 == i);
    lemma_entries_stop(key, l, i + 1);
}

/// A list that must be there is refused where it is missing, no array, or
/// empty; one that need not be there may be missing or empty. Any other list
/// is read entry by entry.
pub proof fn law_lists_are_there(doc: TomlView, key: Seq<char>, required: bool)
    ensures
        command_list(doc, key, required) matches Ok(c) ==> !required || c.len() > 0,
        doc.member(key) is None ==> (command_list(doc, key, required) is Ok <==> !required),
        doc.member(key) is None && !required ==> command_list(doc, key, required)->Ok_0.len() == 0,
        doc.member(key) matches Some(v) ==> !(v is List) ==> command_list(doc, key, required) is Err,
        doc.member(key) matches Some(TomlView::List(l)) ==> entries(key, l) is Err ==> command_list(
            doc,
            key,
            required,
        ) == entries(key, l),
        doc.member(key) matches Some(TomlView::List(l)) ==> entries(key, l) is Ok && (l.len() > 0
            || !required) ==> command_list(doc, key, required) == entries(key, l),
        doc.member(key) matches Some(TomlView::List(l)) ==> l.len() == 0 && required
            ==> command_list(doc, key, required) is Err,
{
    if let Some(TomlView::List(l)) = doc.member(key) {
        law_every_listed_command_is_run(key, l);
    }
}

/// The lists of the two gates come from their own keys of the settings: the
/// check of a change from `verify`, which must be there, and the final gate
/// from `final_verify`, or from `verify` where that has no command.
pub proof fn law_gates_come_from_their_keys(t: Seq<char>, doc: TomlView)
    requires
        config::toml_document(t) == Ok::<TomlView, Seq<char>>(doc),
    ensures
        verify_commands(Some(t)) == command_list(doc, "verify"@, true),
        doc.member("final_verify"@) is None ==> final_commands(Some(t)) == command_list(
            doc,
            "verify"@,
            true,
        ),
        doc.member("final_verify"@) matches Some(TomlView::List(l)) ==> l.len() == 0
            ==> final_commands(Some(t)) == command_list(doc, "verify"@, true),
        doc.member("final_verify"@) matches Some(TomlView::List(l)) ==> l.len() > 0
            ==> final_commands(Some(t)) == entries("final_verify"@, l),
        doc.member("final_verify"@) matches Some(v) ==> !(v is List) ==> final_commands(
            Some(t),
        ) is Err,
{
    law_lists_are_there(doc, "final_verify"@, false);
    if let Some(TomlView::List(l)) = doc.member("final_verify"@) {
        law_every_listed_command_is_run("final_verify"@, l);
    }
}

/// Settings that are missing or that cannot be read give no commands.
pub proof fn law_unreadable_settings_give_no_commands(content: Option<Seq<char>>)
    requires
        content matches Some(t) ==> config::toml_document(t) is Err,
    ensures
        verify_commands(content) is Err,
        final_commands(content) is Err,
{
}

/// A key that belongs to the top of the settings is found in each section that
/// holds it by mistake, and it is only looked for where the top lacks it.
pub proof fn law_misplaced_keys_are_found(doc: TomlView, key: Seq<char>, section: Seq<char>)
    ensures
        doc.member(key) is Some ==> nested_in(doc, key).len() == 0,
        doc.member(key) is None ==> (nested_in(doc, key).contains(section) <==> (section
            == "commit"@ || section == "model"@ || section == "branch"@) && (doc.member(
            section,
        ) matches Some(s) && s.member(key) is Some)),
        nested_in(doc, key).no_duplicates(),
{
    reveal_strlit("commit");
    reveal_strlit("model");
    reveal_strlit("branch");
    let a = if_nested(doc, "commit"@, key);
    let b = if_nested(doc, "model"@, key);
    let c = if_nested(doc, "branch"@, key);
    assert("commit"@.len() == 6 && "model"@.len() == 5 && "branch"@.len() == 6);
    assert("commit"@[0] != "branch"@[0]);
    if doc.member(key) is None {
        let l = a + b + c;
        if a.len() > 0 {
            assert(l[0] == "commit"@);
        }
        if b.len() > 0 {
            assert(l[a.len() as int] == "model"@);
        }
        if c.len() > 0 {
            assert(l[(a.len() + b.len()) as int] == "branch"@);
        }
    }
}

// ---------------------------------------------------------------------
// Laws of the files of a gate
// ---------------------------------------------------------------------

proof fn lemma_words_complete(root: Seq<char>, words: Seq<Seq<char>>, p: Seq<char>)
    ensures
        path_words(root, words).contains(p) <==> exists|i: int|
            0 <= i < words.len() && path_word(root, #[trigger] words[i]) == Some(p),
    decreases words.len(),
{
    if words.len() > 0 {
        let front = words.drop_last();
        lemma_words_complete(root, front, p);
        let before = path_words(root, front);
        let all = path_words(root, words);
        if before.contains(p) {
            let k = choose|k: int| 0 <= k < before.len() && before[k] == p;
            assert(all[k] == p);
            let i = choose|i: int|
                0 <= i < front.len() && path_word(root, #[trigger] front[i]) == Some(p);
            assert(path_word(root, words[i]) == Some(p));
        }
        if path_word(root, words.last()) == Some(p) {
            assert(all[all.len() - 1] == p);
            assert(path_word(root, words[words.len() - 1]) == Some(p));
        }
        if all.contains(p) && !before.contains(p) {
            let k = choose|k: int| 0 <= k < all.len() && all[k] == p;
            if k < before.len() {
                assert(before[k] == p);
            }
        }
        if exists|i: int| 0 <= i < words.len() && path_word(root, #[trigger] words[i]) == Some(p) {
            let i = choose|i: int|
                0 <= i < words.len() && path_word(root, #[trigger] words[i]) == Some(p);
            if i < front.len() {
                assert(path_word(root, front[i]) == Some(p));
            }
        }
    }
}

/// A word of the command names the path.
pub open spec fn names(root: Seq<char>, cmd: Seq<char>, p: Seq<char>) -> bool {
    exists|i: int|
        0 <= i < text::pieces(cmd, CharSet::ShellBreak).len() && path_word(
            root,
            #[trigger] text::pieces(cmd, CharSet::ShellBreak)[i],
        ) == Some(p)
}

proof fn lemma_named_complete(root: Seq<char>, cmds: Seq<Seq<char>>, p: Seq<char>)
    ensures
        paths_named(root, cmds).contains(p) <==> exists|i: int|
            0 <= i < cmds.len() && names(root, #[trigger] cmds[i], p),
    decreases cmds.len(),
{
    if cmds.len() > 0 {
        let front = cmds.drop_last();
        let words = text::pieces(cmds.last(), CharSet::ShellBreak);
        lemma_named_complete(root, front, p);
        lemma_words_complete(root, words, p);
        let a = paths_named(root, front);
        let b = path_words(root, words);
        let all = a + b;
        assert(paths_named(root, cmds) == all);
        if a.contains(p) {
            let k = choose|k: int| 0 <= k < a.len() && a[k] == p;
            assert(all[k] == p);
            let i = choose|i: int| 0 <= i < front.len() && names(root, #[trigger] front[i], p);
            assert(names(root, cmds[i], p));
        }
        if b.contains(p) {
            let k = choose|k: int| 0 <= k < b.len() && b[k] == p;
            assert(all[a.len() + k] == p);
            let i = choose|i: int|
                0 <= i < words.len() && path_word(root, #[trigger] words[i]) == Some(p);
            assert(names(root, cmds[cmds.len() - 1], p));
        }
        if all.contains(p) {
            let k = choose|k: int| 0 <= k < all.len() && all[k] == p;
            if k < a.len() {
                assert(a[k] == p);
            } else {
                assert(b[k - a.len()] == p);
            }
        }
        if exists|i: int| 0 <= i < cmds.len() && names(root, #[trigger] cmds[i], p) {
            let i = choose|i: int| 0 <= i < cmds.len() && names(root, #[trigger] cmds[i], p);
            if i < front.len() {
                assert(names(root, front[i], p));
            } else {
                let k = choose|k: int|
                    0 <= k < words.len() && path_word(root, #[trigger] words[k]) == Some(p);
                assert(path_word(root, words[k]) == Some(p));
            }
        }
    }
}

/// No file of a gate goes unguarded: a path that any word of any command of
/// `verify` or of `final_verify` names is looked for, and where it exists it is
/// among the files that the checks depend on.
pub proof fn law_every_file_of_a_gate_is_guarded(
    content: Option<Seq<char>>,
    root: Seq<char>,
    present: Seq<Seq<char>>,
    cmd: Seq<char>,
    word: Seq<char>,
    p: Seq<char>,
)
    requires
        (verify_commands(content) matches Ok(l) && l.contains(cmd)) || (final_commands(
            content,
        ) matches Ok(l) && l.contains(cmd)),
        text::pieces(cmd, CharSet::ShellBreak).contains(word),
        path_word(root, word) == Some(p),
    ensures
        paths_named(root, gate_commands(content)).contains(p),
        present.contains(p) ==> first_present(
            paths_named(root, gate_commands(content)),
            present,
        ).contains(p),
{
    let words = text::pieces(cmd, CharSet::ShellBreak);
    let k = choose|k: int| 0 <= k < words.len() && words[k] == word;
    assert(path_word(root, words[k]) == Some(p));
    assert(names(root, cmd, p));
    let all = gate_commands(content);
    let a = or_empty(verify_commands(content));
    let b = or_empty(final_commands(content));
    if a.contains(cmd) {
        let i = choose|i: int| 0 <= i < a.len() && a[i] == cmd;
        assert(all[i] == cmd);
        assert(names(root, all[i], p));
    } else {
        let i = choose|i: int| 0 <= i < b.len() && b[i] == cmd;
        assert(all[a.len() + i] == cmd);
        assert(names(root, all[a.len() + i], p));
    }
    lemma_named_complete(root, all, p);
    lemma_first_present(paths_named(root, all), present, p);
}

/// Nothing is guarded that no command names.
pub proof fn law_guarded_files_are_named(
    content: Option<Seq<char>>,
    root: Seq<char>,
    present: Seq<Seq<char>>,
    p: Seq<char>,
)
    requires
        first_present(paths_named(root, gate_commands(content)), present).contains(p),
    ensures
        present.contains(p),
        exists|cmd: Seq<char>| #[trigger]
            names(root, cmd, p) && ((verify_commands(content) matches Ok(l) && l.contains(cmd)) || (
            final_commands(content) matches Ok(l) && l.contains(cmd))),
{
    let all = gate_commands(content);
    let a = or_empty(verify_commands(content));
    let b = or_empty(final_commands(content));
    lemma_first_present(paths_named(root, all), present, p);
    lemma_named_complete(root, all, p);
    let i = choose|i: int| 0 <= i < all.len() && names(root, #[trigger] all[i], p);
    if i < a.len() {
        assert(a[i] == all[i]);
        assert(a.contains(all[i]));
    } else {
        assert(b[i - a.len()] == all[i]);
        assert(b.contains(all[i]));
    }
    assert(names(root, all[i], p));
}

/// A path with a slash in it that leads into the repository is taken as it
/// stands in a command, in quotes, or behind `./`.
pub proof fn law_paths_are_recognised(root: Seq<char>, p: Seq<char>)
    requires
        text::has_char(p, CharSet::One('/')),
        !text::has_char(p, CharSet::One('*')),
        !text::has_char(p, CharSet::Quote),
        !text::begins(p, "http"@),
        !text::begins(p, "./"@),
        exists|i: int| 0 <= i < p.len() && #[trigger] p[i] != '.',
        inside(root, p),
    ensures
        path_word(root, p) == Some(p),
        path_word(root, "./"@ + p) == Some(p),
        path_word(root, "'"@ + p + "'"@) == Some(p),
        path_word(root, "\""@ + p + "\""@) == Some(p),
        text::has_char(p, CharSet::One('/')) ==> path_word(root, "http"@ + p) is None,
{
    reveal_strlit("./");
    reveal_strlit("'");
    reveal_strlit("\"");
    reveal_strlit("http");
    assert(p.len() > 0);
    assert(!CharSet::Quote.has(p[0]) && !CharSet::Quote.has(p[p.len() - 1]));
    assert(text::trim_set(p, CharSet::Quote) == p);
    assert(text::without_prefixes(p, "./"@) == p);
    assert(!(forall|i: int| 0 <= i < p.len() ==> #[trigger] p[i] == '.'));
    let d = "./"@ + p;
    assert(d[0] == '.' && d.last() == p[p.len() - 1]);
    assert(text::trim_set(d, CharSet::Quote) == d);
    assert(d.skip(2) =~= p);
    assert(d.subrange(0, 2) =~= "./"@);
    assert(d[1] == '/');
    assert(text::without_prefixes(d, "./"@) == text::without_prefixes(p, "./"@));
    assert(d.len() >= 4 ==> d.subrange(0, 4)[0] == '.');
    lemma_unquoted(p, '\'');
    assert("'"@ + p + "'"@ =~= seq!['\''] + p + seq!['\'']);
    lemma_unquoted(p, '"');
    assert("\""@ + p + "\""@ =~= seq!['"'] + p + seq!['"']);
    let h = "http"@ + p;
    assert(h[0] == 'h' && h.last() == p[p.len() - 1]);
    assert(text::trim_set(h, CharSet::Quote) == h);
    assert(h.subrange(0, 4) =~= "http"@);
}

proof fn lemma_unquoted(p: Seq<char>, q: char)
    requires
        q == '\'' || q == '"',
        p.len() > 0,
        !CharSet::Quote.has(p[0]),
        !CharSet::Quote.has(p.last()),
    ensures
        text::trim_set(seq![q] + p + seq![q], CharSet::Quote) == p,
{
    let s = seq![q] + p + seq![q];
    assert(s.skip(1) =~= p.push(q));
    assert(text::trim_left(p.push(q), CharSet::Quote) == p.push(q));
    assert(text::trim_left(s, CharSet::Quote) == p.push(q));
    assert(p.push(q).drop_last() =~= p);
    assert(text::trim_right(p, CharSet::Quote) == p);
    assert(text::trim_right(p.push(q), CharSet::Quote) == p);
}

/// The guarded files stand in the order in which they are first named.
pub proof fn law_guarded_files_in_order(all: Seq<Seq<char>>, present: Seq<Seq<char>>, i: int, j: int)
    requires
        0 <= i < j < first_present(all, present).len(),
    ensures
        exists|a: int|
            0 <= a < all.len() && #[trigger] all[a] == first_present(all, present)[i] && forall|
                b: int,
            |
                0 <= b < all.len() && #[trigger] all[b] == first_present(all, present)[j] ==> a < b,
    decreases all.len(),
{
    let out = first_present(all, present);
    let front = all.drop_last();
    let before = first_present(front, present);
    if j < before.len() {
        law_guarded_files_in_order(front, present, i, j);
        let a = choose|a: int|
            0 <= a < front.len() && #[trigger] front[a] == before[i] && forall|b: int|
                0 <= b < front.len() && #[trigger] front[b] == before[j] ==> a < b;
        assert(all[a] == out[i]);
        assert forall|b: int| 0 <= b < all.len() && #[trigger] all[b] == out[j] implies a < b by {
            if b < front.len() {
                assert(front[b] == before[j]);
            }
        }
    } else {
        lemma_first_present(front, present, out[j]);
        lemma_first_present(front, present, before[i]);
        assert(before.contains(before[i]));
        let a = choose|a: int| 0 <= a < front.len() && front[a] == before[i];
        assert(all[a] == out[i]);
        assert forall|b: int| 0 <= b < all.len() && #[trigger] all[b] == out[j] implies a < b by {
            if b < front.len() {
                assert(front[b] == out[j]);
                assert(front.contains(out[j]));
            }
        }
    }
}

// ---------------------------------------------------------------------
// Laws of the limits
// ---------------------------------------------------------------------

/// A number of seconds in the environment is the wall-clock limit, zero meaning
/// none; any other text there is as good as nothing, and then the settings
/// decide.
pub proof fn law_wall_clock_limit(env: Option<Seq<char>>, configured: Option<u64>, n: u64)
    ensures
        timeout_of(Some(number::decimal(n as nat)), configured) == (if n == 0 {
            None
        } else {
            Some(n)
        }),
        env is None || number::parsed(text::trimmed(env->Some_0), u64::MAX as nat) is None ==> (
        configured is None ==> timeout_of(env, configured) is None) && (configured is Some
            && configured->Some_0 > 0 ==> timeout_of(env, configured) == configured),
{
    number::lemma_decimal(n as nat);
    number::law_decimals_read_back(n as nat, u64::MAX as nat);
    let d = number::decimal(n as nat);
    assert(text::is_digit(d[0]) && text::is_digit(d[d.len() - 1]));
    text::law_trimmed_stays(d);
}

/// A number of seconds in the environment is the idle limit, zero meaning none;
/// otherwise the settings decide, and without them it is fifteen minutes.
pub proof fn law_idle_limit(env: Option<Seq<char>>, configured: Option<u64>, n: u64)
    ensures
        stall_of(Some(number::decimal(n as nat)), configured) == (if n == 0 {
            None
        } else {
            Some(n)
        }),
        env is None || number::parsed(text::trimmed(env->Some_0), u64::MAX as nat) is None ==> (
        configured is None ==> stall_of(env, configured) == Some(900u64)) && (configured == Some(
            0u64,
        ) ==> stall_of(env, configured) is None) && (configured is Some && configured->Some_0 > 0
            ==> stall_of(env, configured) == configured),
{
    number::lemma_decimal(n as nat);
    number::law_decimals_read_back(n as nat, u64::MAX as nat);
    let d = number::decimal(n as nat);
    assert(text::is_digit(d[0]) && text::is_digit(d[d.len() - 1]));
    text::law_trimmed_stays(d);
}

/// A number in the settings counts where it is large enough, and nothing but a
/// number does.
pub proof fn law_seconds_in_the_settings(doc: TomlView, key: Seq<char>, least: int)
    requires
        0 <= least,
    ensures
        number_of(seconds_under(doc, key, least)) is Some <==> (doc.member(key) matches Some(
            TomlView::Integer(n),
        ) && n >= least),
        doc.member(key) matches Some(TomlView::Integer(n)) ==> n >= least ==> number_of(
            seconds_under(doc, key, least),
        ) == Some(n as u64),
        doc.member(key) is None <==> seconds_under(doc, key, least) is Unset,
        doc.member(key) matches Some(TomlView::Integer(n)) ==> n < least ==> seconds_under(
            doc,
            key,
            least,
        ) is TooSmall,
{
}

/// A running command is killed at its wall-clock limit and not a moment before,
/// whatever it prints; its idle time runs from the last sign of progress, and
/// its processor time is looked at first at once and then four times a second.
pub proof fn law_watching(w: Watch, now: u128, io: u64, cpu: Option<u64>)
    ensures
        w.expired(now) <==> (w.timeout matches Some(t) && now >= t * 1000000000),
        w.idle(now) <==> (w.stall matches Some(t) && (now >= w.last_progress + t * 1000000000 || t
            == 0)),
        w.due(now) <==> w.last_cpu is None || now >= w.last_sample + 250000000,
        ({
            let h = w.heard(now, io);
            &&& h.last_progress == (if io > w.last_io {
                now
            } else {
                w.last_progress
            })
            &&& h.last_io >= w.last_io && h.last_io >= io && (h.last_io == io || h.last_io
                == w.last_io)
            &&& h.timeout == w.timeout && h.stall == w.stall && h.last_cpu == w.last_cpu
                && h.last_sample == w.last_sample
        }),
        ({
            let h = w.sampled(now, cpu);
            &&& h.last_progress == now || h.last_progress == w.last_progress
            &&& h.last_progress != w.last_progress ==> (cpu matches Some(c) && w.last_cpu matches Some(
                b,
            ) && c > b)
            &&& cpu is Some ==> h.last_cpu == cpu
            &&& cpu is None ==> h.last_cpu == w.last_cpu
            &&& h.last_sample == now
            &&& h.timeout == w.timeout && h.stall == w.stall && h.last_io == w.last_io
        }),
{
}

/// Output is kept whole until ten mebibytes are there, and nothing that was
/// kept is lost.
pub proof fn law_output_is_kept_whole(kept: Seq<u8>, chunk: Seq<u8>)
    ensures
        kept.is_prefix_of(absorbed(kept, chunk)),
        kept.len() < 10 * 1024 * 1024 ==> absorbed(kept, chunk) == kept + chunk,
        kept.len() >= 10 * 1024 * 1024 ==> absorbed(kept, chunk) == kept,
{
    assert((kept + chunk).subrange(0, kept.len() as int) =~= kept);
    assert(kept.subrange(0, kept.len() as int) =~= kept);
}

// ---------------------------------------------------------------------
// Laws of the processor time
// ---------------------------------------------------------------------

proof fn lemma_digits(n: nat)
    ensures
        number::decimal(n).len() > 0,
        forall|i: int|
            0 <= i < number::decimal(n).len() ==> '0' <= #[trigger] number::decimal(n)[i] <= '9',
{
    number::lemma_decimal(n);
    assert forall|i: int| 0 <= i < number::decimal(n).len() implies '0' <= #[trigger] number::decimal(
        n,
    )[i] <= '9' by {
        assert(text::is_digit(number::decimal(n)[i]));
    }
}

/// The digits behind the point count as tenths, hundredths and thousandths of a
/// second, and further ones not at all.
pub proof fn law_fractions(f: Seq<char>)
    requires
        number::all_digits(f),
    ensures
        f.len() == 0 ==> fraction_millis(f) == Some(0nat),
        f.len() == 1 ==> fraction_millis(f) == Some(number::value(f) * 100),
        f.len() == 2 ==> fraction_millis(f) == Some(number::value(f) * 10),
        f.len() == 3 ==> fraction_millis(f) == Some(number::value(f)),
        f.len() > 3 ==> fraction_millis(f) == Some(number::value(f.take(3))),
{
    if f.len() > 0 {
        assert(text::is_digit(f[f.len() - 1]));
        assert(text::is_digit(f[0]));
        assert(text::trim_right(f, CharSet::NonDigit) == f);
        number::lemma_value_bound(f);
        if f.len() >= 3 {
            let h = f.take(3);
            assert forall|i: int| 0 <= i < 3 implies text::is_digit(#[trigger] h[i]) by {
                assert(text::is_digit(f[i]));
            }
            assert(h[0] == f[0]);
            let g = h.drop_last();
            assert(number::all_digits(g));
            number::lemma_value_bound(g);
            assert(number::digit_value(h.last()) < 10);
            assert(number::value(h) < 1000);
            if f.len() == 3 {
                assert(h =~= f);
            }
        }
    } else {
        assert(text::trim_right(f, CharSet::NonDigit).len() == 0);
    }
}

proof fn lemma_whole_seconds(s: nat, f: Seq<char>)
    requires
        s <= u64::MAX,
        number::all_digits(f),
    ensures
        seconds_millis(number::decimal(s)) == Some(capped(s * 1000)),
        fraction_millis(f) is Some ==> seconds_millis(number::decimal(s) + "."@ + f) == Some(
            capped(capped(s * 1000) + fraction_millis(f)->Some_0),
        ),
{
    reveal_strlit(".");
    lemma_digits(s);
    number::law_decimals_read_back(s, u64::MAX as nat);
    let d = number::decimal(s);
    text::law_cutting(d, "."@);
    match text::cut_at(d, "."@) {
        Some((x, y)) => {
            assert(d[x.len() as int] == '.');
            assert(false);
        },
        None => {},
    }
    let w = d + "."@ + f;
    text::law_cutting(w, "."@);
    assert(w.subrange(d.len() as int, (d.len() + 1) as int) =~= "."@);
    assert(text::occurs_at(w, "."@, d.len() as int));
    match text::cut_at(w, "."@) {
        Some((x, y)) => {
            assert(w[x.len() as int] == '.');
            if x.len() < d.len() {
                assert(w[x.len() as int] == d[x.len() as int]);
            }
            assert(x.len() == d.len());
            assert forall|k: int| 0 <= k < d.len() implies x[k] == d[k] by {
                assert(w[k] == (x + "."@ + y)[k]);
            }
            assert(x =~= d);
            assert forall|k: int| 0 <= k < f.len() implies y[k] == f[k] by {
                assert(w[d.len() + 1 + k] == (x + "."@ + y)[d.len() + 1 + k]);
            }
            assert(w.len() == x.len() + 1 + y.len());
            assert(y =~= f);
        },
        None => {},
    }
}

/// A time reads as its parts say: seconds, minutes and seconds, or hours,
/// minutes and seconds, in milliseconds, as long as the number fits.
pub proof fn law_processor_times(h: nat, m: nat, s: nat)
    requires
        h <= u64::MAX,
        m <= u64::MAX,
        s <= u64::MAX,
        h * 3600000 + m * 60000 + s * 1000 <= u64::MAX,
    ensures
        ps_millis(number::decimal(s)) == Some(s * 1000),
        ps_millis(number::decimal(m) + ":"@ + number::decimal(s)) == Some(m * 60000 + s * 1000),
        ps_millis(number::decimal(h) + ":"@ + number::decimal(m) + ":"@ + number::decimal(s))
            == Some(h * 3600000 + m * 60000 + s * 1000),
{
    reveal_strlit(":");
    let a = number::decimal(s);
    let b = number::decimal(m);
    let c = number::decimal(h);
    lemma_digits(s);
    lemma_digits(m);
    lemma_digits(h);
    lemma_whole_seconds(s, Seq::empty());
    number::law_decimals_read_back(m, u64::MAX as nat);
    number::law_decimals_read_back(h, u64::MAX as nat);
    let set = CharSet::One(':');
    let e = Seq::<char>::empty();
    lemma_one_piece(a);
    lemma_one_piece(b);
    lemma_one_piece(c);
    text::law_trimmed_stays(a);
    let two = b + ":"@ + a;
    assert(two =~= b.push(':') + a);
    crate::roundtrip::lemma_pieces_cut(b, ':', a);
    assert(two[0] == b[0] && two.last() == a.last());
    text::law_trimmed_stays(two);
    assert(text::pieces(two, set) =~= seq![b, a]);
    let cb = c + ":"@ + b;
    assert(cb =~= c.push(':') + b);
    crate::roundtrip::lemma_pieces_cut(c, ':', b);
    let three = c + ":"@ + b + ":"@ + a;
    assert(three =~= cb.push(':') + a);
    crate::roundtrip::lemma_pieces_cut(cb, ':', a);
    assert(three[0] == c[0] && three.last() == a.last());
    text::law_trimmed_stays(three);
    assert(text::pieces(three, set) =~= seq![c, b, a]);
}

proof fn lemma_one_piece(d: Seq<char>)
    requires
        forall|i: int| 0 <= i < d.len() ==> '0' <= #[trigger] d[i] <= '9',
    ensures
        text::pieces(d, CharSet::One(':')) == seq![d],
        !text::has_char(d, CharSet::One(':')),
{
    let set = CharSet::One(':');
    let e = Seq::<char>::empty();
    assert forall|i: int| 0 <= i < d.len() implies !set.has(#[trigger] d[i]) by {
        assert('0' <= d[i] <= '9');
    }
    crate::roundtrip::lemma_pieces_extend(e, d, set);
    assert(e + d =~= d);
    assert(text::pieces(e, set) =~= seq![e]);
    assert(seq![e].drop_last().push(e + d) =~= seq![d]);
}

/// The milliseconds that a line adds, none where it is of another group.
pub open spec fn share(line: Seq<char>, group: u32) -> nat {
    match line_millis(line, group) {
        Some(ms) => ms,
        None => 0,
    }
}

/// The processor time of a group is the sum over all of its lines, at most as
/// large as fits; there is none only where no line is of the group.
pub proof fn law_group_time_is_the_sum(ls: Seq<Seq<char>>, group: u32)
    ensures
        group_millis(ls, group) is None <==> forall|i: int|
            0 <= i < ls.len() ==> line_millis(#[trigger] ls[i], group) is None,
        group_millis(ls, group) matches Some(n) ==> n == capped(
            ls.fold_left(0nat, |sum: nat, l: Seq<char>| sum + share(l, group)),
        ),
    decreases ls.len(),
{
    reveal(Seq::fold_left);
    let f = |sum: nat, l: Seq<char>| sum + share(l, group);
    if ls.len() > 0 {
        let front = ls.drop_last();
        law_group_time_is_the_sum(front, group);
        assert(ls[ls.len() - 1] == ls.last());
        if group_millis(front, group) is None {
            lemma_no_share(front, group);
        }
        if group_millis(ls, group) is None {
            assert forall|i: int| 0 <= i < ls.len() implies line_millis(
                #[trigger] ls[i],
                group,
            ) is None by {
                if i < front.len() {
                    assert(line_millis(front[i], group) is None);
                }
            }
        } else if line_millis(ls.last(), group) is None {
            let i = choose|i: int|
                0 <= i < front.len() && !(line_millis(#[trigger] front[i], group) is None);
            assert(!(line_millis(ls[i], group) is None));
        }
    }
}

proof fn lemma_no_share(ls: Seq<Seq<char>>, group: u32)
    requires
        forall|i: int| 0 <= i < ls.len() ==> line_millis(#[trigger] ls[i], group) is None,
    ensures
        ls.fold_left(0nat, |sum: nat, l: Seq<char>| sum + share(l, group)) == 0,
    decreases ls.len(),
{
    reveal(Seq::fold_left);
    if ls.len() > 0 {
        let front = ls.drop_last();
        assert(line_millis(ls[ls.len() - 1], group) is None);
        assert forall|i: int| 0 <= i < front.len() implies line_millis(
            #[trigger] front[i],
            group,
        ) is None by {
            assert(line_millis(ls[i], group) is None);
        }
        lemma_no_share(front, group);
    }
}

// ---------------------------------------------------------------------
// Laws of the run of a gate
// ---------------------------------------------------------------------

/// One command of a gate at a time: success leads to the next command or, after
/// the last, to a green gate; any other end is a red gate that names this
/// command, except for a first stall within twice the idle limit, after which
/// the same command is run again. Nothing of the output is lost.
pub proof fn law_steps_of_a_gate(p: Progress, o: OutcomeView)
    requires
        p.wf(),
        p.ended is None,
    ensures
        ({
            let q = p.after(o);
            &&& q.cmds == p.cmds && q.stall == p.stall
            &&& q.at == (if o.kill is None && o.success {
                p.at + 1
            } else {
                p.at
            })
            &&& o.kill is None && o.success ==> (q.ended is Some <==> p.at + 1 == p.cmds.len())
                && (q.ended matches Some(r) ==> r.passed)
            &&& o.kill is None && !o.success ==> (q.ended matches Some(r) && !r.passed
                && r.failed_command == Some(p.cmds[p.at as int]) && r.kill is None)
            &&& o.kill matches Some(k) ==> {
                let again = !p.retried && k is Stall && (p.stall matches Some(t) && o.ran_for <= t
                    * 2000000000);
                &&& again ==> q.ended is None && q.retried
                &&& !again ==> (q.ended matches Some(r) && !r.passed && r.kill == o.kill
                    && r.failed_command == Some(p.cmds[p.at as int]))
            }
            &&& q.ended matches Some(r) ==> r.output == q.output
            &&& (p.output + text::lossy(o.stdout)).is_prefix_of(q.output)
            &&& o.kill is None ==> q.output == appended(p.output, o.stdout, o.stderr)
        }),
{
    let q = p.after(o);
    let x = p.output + text::lossy(o.stdout);
    let out = appended(p.output, o.stdout, o.stderr);
    assert(out.subrange(0, x.len() as int) =~= x);
    assert(q.output.subrange(0, out.len() as int) =~= out);
    assert(q.output.subrange(0, x.len() as int) =~= x);
}

/// A gate that has ended stays as it ended.
pub proof fn law_ended_gates_stay(p: Progress, o: OutcomeView)
    requires
        p.ended is Some,
    ensures
        p.after(o) == p,
{
}

/// A gate starts with its first command and nothing printed; without commands
/// it is green at once.
pub proof fn law_start_of_a_gate(cmds: Seq<Seq<char>>, stall: Option<u64>)
    ensures
        ({
            let p = Progress::start(cmds, stall);
            &&& p.cmds == cmds && p.stall == stall && p.at == 0 && !p.retried
            &&& p.output.len() == 0
            &&& p.ended is Some <==> cmds.len() == 0
            &&& p.ended matches Some(r) ==> r.passed && r.failed_command is None
        }),
{
}

/// What a command printed is added as it was, its errors behind its output,
/// each ended by a line feed where it lacked one.
pub proof fn law_printed_output(out: Seq<char>, stdout: Seq<u8>, stderr: Seq<u8>)
    ensures
        ({
            let a = text::lossy(stdout);
            let b = text::lossy(stderr);
            let all = appended(out, stdout, stderr);
            &&& a.len() == 0 && b.len() == 0 ==> all == out
            &&& a.len() > 0 && a.last() == '\n' && b.len() == 0 ==> all == out + a
            &&& a.len() > 0 && a.last() != '\n' && b.len() == 0 ==> all == out + a.push('\n')
            &&& a.len() == 0 && b.len() > 0 && b.last() == '\n' ==> all == out + b
            &&& a.len() == 0 && b.len() > 0 && b.last() != '\n' ==> all == out + b.push('\n')
            &&& a.len() > 0 && a.last() == '\n' && b.len() > 0 && b.last() == '\n' ==> all == out + a
                + b
            &&& a.len() > 0 && a.last() != '\n' && b.len() > 0 && b.last() == '\n' ==> all == out
                + a.push('\n') + b
            &&& a.len() > 0 && b.len() > 0 && b.last() != '\n' ==> all.len() > 0 && all.last()
                == '\n' && (out + a).is_prefix_of(all) && all.len() <= out.len() + a.len() + b.len()
                + 2
        }),
{
    let a = text::lossy(stdout);
    let b = text::lossy(stderr);
    let all = appended(out, stdout, stderr);
    assert(out + a + b =~= out + a + b);
    assert(a.len() == 0 ==> out + a =~= out);
    assert(b.len() == 0 ==> out + a + b =~= out + a);
    assert(b.len() == 0 ==> out + a.push('\n') + b =~= out + a.push('\n'));
    assert(a.len() == 0 ==> out + a + b.push('\n') =~= out + b.push('\n'));
    assert(all.subrange(0, (out + a).len() as int) =~= out + a);
}

/// The last line that says something is the one that is quoted: lines behind it
/// are blank or are remarks of the harness.
pub proof fn law_last_telling_line(ls: Seq<Seq<char>>, i: int)
    requires
        0 <= i < ls.len(),
        text::trimmed(ls[i]).len() > 0,
        !text::begins(text::trimmed(ls[i]), "[gaggle]"@),
        forall|j: int|
            i < j < ls.len() ==> text::trimmed(#[trigger] ls[j]).len() == 0 || text::begins(
                text::trimmed(ls[j]),
                "[gaggle]"@,
            ),
    ensures
        last_telling(ls) == Some(text::trimmed(ls[i])),
    decreases ls.len(),
{
    assert(ls[ls.len() - 1] == ls.last());
    if i < ls.len() - 1 {
        let front = ls.drop_last();
        assert forall|j: int| i < j < front.len() implies text::trimmed(#[trigger] front[j]).len()
            == 0 || text::begins(text::trimmed(front[j]), "[gaggle]"@) by {
            assert(front[j] == ls[j]);
        }
        law_last_telling_line(front, i);
    }
}

/// The tail is as long as it may be: one character more would not fit.
pub proof fn law_tail_is_the_longest(s: Seq<char>, max: nat, k: int)
    requires
        0 <= k <= s.len(),
        text::byte_count(s.skip(k)) <= max,
    ensures
        tail_of(s, max).len() >= s.len() - k,
    decreases s.len(),
{
    assert(s.skip(0) =~= s);
    if s.len() > 0 && text::byte_count(s) > max {
        assert(k > 0);
        assert(s.skip(1).skip(k - 1) =~= s.skip(k));
        law_tail_is_the_longest(s.skip(1), max, k - 1);
    }
}

/// What was read of a list is the list itself, or the fault itself.
pub proof fn law_lists_are_handed_on(
    l: Vec<String>,
    e: ConfigError<String>,
    want: Seq<Seq<char>>,
    fault: ConfigError<Seq<char>>,
)
    ensures
        reads_list(Ok(l), Ok(want)) <==> text::texts(l@) == want,
        reads_list(Err(e), Err(fault)) <==> e@ == fault,
        !reads_list(Ok(l), Err(fault)) && !reads_list(Err(e), Ok(want)),
{
}

/// A gate that is started has the commands that were read, all of them still to
/// be run; where they cannot be read, the fault is told and none is run.
pub proof fn law_gates_start_with_their_commands(
    x: Runner,
    e: ConfigError<String>,
    want: Seq<Seq<char>>,
    fault: ConfigError<Seq<char>>,
    stall: Option<u64>,
)
    ensures
        starts(Ok(x), Ok(want), stall) ==> x@.cmds == want && x@.at == 0 && x@.stall == stall,
        starts(Err(e), Err(fault), stall) <==> e@ == fault,
        !starts(Ok(x), Err(fault), stall) && !starts(Err(e), Ok(want), stall),
{
}

/// Limits and misplaced keys are looked for in the document that the settings
/// are, and without one there are none.
pub proof fn law_documents_are_looked_into(t: Seq<char>, key: Seq<char>, least: int)
    ensures
        seconds_in(None, key, least) is Unset,
        misplaced_in(None, key).len() == 0,
        config::toml_document(t) is Err ==> seconds_in(Some(t), key, least) is Unset && misplaced_in(
            Some(t),
            key,
        ).len() == 0,
        config::toml_document(t) matches Ok(doc) ==> seconds_in(Some(t), key, least) == seconds_under(
            doc,
            key,
            least,
        ) && misplaced_in(Some(t), key) == nested_in(doc, key),
{
}

/// Hundredths of seconds count: a time of seconds, or of minutes and seconds,
/// with two digits behind the point is so many milliseconds more.
pub proof fn law_hundredths_of_seconds(m: nat, s: nat, f: Seq<char>)
    requires
        m <= u64::MAX,
        s <= u64::MAX,
        m * 60000 + s * 1000 + 1000 <= u64::MAX,
        number::all_digits(f),
        f.len() == 2,
    ensures
        ps_millis(number::decimal(s) + "."@ + f) == Some(s * 1000 + number::value(f) * 10),
        ps_millis(number::decimal(m) + ":"@ + (number::decimal(s) + "."@ + f)) == Some(
            m * 60000 + s * 1000 + number::value(f) * 10,
        ),
{
    reveal_strlit(":");
    reveal_strlit(".");
    let d = number::decimal(s);
    let b = number::decimal(m);
    lemma_digits(s);
    lemma_digits(m);
    lemma_whole_seconds(s, f);
    law_fractions(f);
    number::lemma_value_bound(f);
    assert(number::value(f) < 100) by {
        let g = f.drop_last();
        assert(g.drop_last() =~= Seq::empty());
        assert(f.last() == f[1] && g.last() == f[0]);
        assert(text::is_digit(f[0]) && text::is_digit(f[1]));
        reveal_with_fuel(number::value, 3);
    }
    number::law_decimals_read_back(m, u64::MAX as nat);
    let a = d + "."@ + f;
    let set = CharSet::One(':');
    let e = Seq::<char>::empty();
    assert forall|i: int| 0 <= i < a.len() implies !set.has(#[trigger] a[i]) by {
        if i < d.len() {
            assert(a[i] == d[i]);
        } else if i > d.len() {
            assert(a[i] == f[i - d.len() - 1]);
            assert(text::is_digit(f[i - d.len() - 1]));
        }
    }
    crate::roundtrip::lemma_pieces_extend(e, a, set);
    assert(e + a =~= a);
    assert(text::pieces(e, set) =~= seq![e]);
    assert(text::pieces(a, set) =~= seq![a]);
    assert(text::is_digit(f[1]));
    assert(a[0] == d[0] && a.last() == f[1]);
    text::law_trimmed_stays(a);
    lemma_one_piece(b);
    let two = b + ":"@ + a;
    assert(two =~= b.push(':') + a);
    crate::roundtrip::lemma_pieces_cut(b, ':', a);
    assert(two[0] == b[0] && two.last() == a.last());
    text::law_trimmed_stays(two);
    assert(text::pieces(two, set) =~= seq![b, a]);
}

/// A kill is told with its cause and its limit, the last line that says
/// something, and the command; a second try is told too.
pub proof fn law_kills_in_words(cmd: Seq<char>, n: u64, line: Seq<char>)
    ensures
        kill_note(cmd, VerifyKill::Stall { idle: n }, Some(line)) == "[gaggle] verify stalled after "@
            + number::decimal(n as nat) + "s with no output and no CPU (killed)"@
            + ("; last output: "@ + line) + ": "@ + cmd + "\n"@,
        kill_note(cmd, VerifyKill::Timeout { after: n }, Some(line))
            == "[gaggle] verify command timed out after "@ + number::decimal(n as nat)
            + "s and was killed"@ + ("; last output: "@ + line) + ": "@ + cmd + "\n"@,
        kill_note(cmd, VerifyKill::Stall { idle: n }, None) == "[gaggle] verify stalled after "@
            + number::decimal(n as nat) + "s with no output and no CPU (killed)"@ + ": "@ + cmd
            + "\n"@,
        kill_note(cmd, VerifyKill::Timeout { after: n }, None)
            == "[gaggle] verify command timed out after "@ + number::decimal(n as nat)
            + "s and was killed"@ + ": "@ + cmd + "\n"@,
        retry_note() == "[gaggle] verify stalled early — retrying once\n"@,
{
    let a = "[gaggle] verify stalled after "@ + number::decimal(n as nat)
        + "s with no output and no CPU (killed)"@;
    let b = "[gaggle] verify command timed out after "@ + number::decimal(n as nat)
        + "s and was killed"@;
    assert(a + Seq::<char>::empty() =~= a);
    assert(b + Seq::<char>::empty() =~= b);
}

/// Only a stall is early, and only within twice the idle limit.
pub proof fn law_early_stalls(idle: u64, after: u64, limit: u64, ran_for: u128)
    ensures
        early_stall(VerifyKill::Stall { idle }, Some(limit), ran_for) <==> ran_for <= limit
            * 2000000000,
        !early_stall(VerifyKill::Timeout { after }, Some(limit), ran_for),
        !early_stall(VerifyKill::Stall { idle }, None, ran_for),
{
}

} // verus!
