//! What a checklist that was written gives back when it is read.

use vstd::prelude::*;
use crate::checklist;
use crate::checklist::{ComponentView, FaultView, Line, Reading};
use crate::discover;
use crate::text;
use crate::text::CharSet;

verus! {

// ---------------------------------------------------------------------
// Texts
// ---------------------------------------------------------------------

pub(crate) proof fn lemma_pieces_extend(a: Seq<char>, b: Seq<char>, set: CharSet)
    requires
        forall|i: int| 0 <= i < b.len() ==> !set.has(#[trigger] b[i]),
    ensures
        text::pieces(a + b, set) == text::pieces(a, set).drop_last().push(
            text::pieces(a, set).last() + b,
        ),
    decreases b.len(),
{
    text::lemma_pieces_nonempty(a, set);
    let p = text::pieces(a, set);
    if b.len() == 0 {
        assert(a + b =~= a);
        assert(p.last() + b =~= p.last());
        assert(p.drop_last().push(p.last()) =~= p);
    } else {
        lemma_pieces_extend(a, b.drop_last(), set);
        assert((a + b).drop_last() =~= a + b.drop_last());
        assert(!set.has(b[b.len() - 1]));
        let q = text::pieces(a + b.drop_last(), set);
        assert(q.drop_last() =~= p.drop_last());
        assert((p.last() + b.drop_last()).push(b.last()) =~= p.last() + b);
    }
}

pub(crate) proof fn lemma_pieces_cut(a: Seq<char>, sep: char, b: Seq<char>)
    requires
        !text::has_char(b, CharSet::One(sep)),
    ensures
        text::pieces(a.push(sep) + b, CharSet::One(sep)) == text::pieces(
            a,
            CharSet::One(sep),
        ).push(b),
{
    let set = CharSet::One(sep);
    assert(a.push(sep).drop_last() =~= a);
    let p = text::pieces(a, set).push(Seq::<char>::empty());
    assert(text::pieces(a.push(sep), set) == p);
    lemma_pieces_extend(a.push(sep), b, set);
    assert(p.drop_last() =~= text::pieces(a, set));
    assert(Seq::<char>::empty() + b =~= b);
}

/// A text without line breaks.
pub open spec fn plain(s: Seq<char>) -> bool {
    !checklist::has_line_break(s)
}

proof fn lemma_plain_add(a: Seq<char>, b: Seq<char>)
    requires
        plain(a),
        plain(b),
    ensures
        plain(a + b),
{
    let set = CharSet::LineEnd;
    assert forall|i: int| 0 <= i < (a + b).len() implies !set.has(#[trigger] (a + b)[i]) by {
        if i < a.len() {
            assert(!set.has(a[i]));
        } else {
            assert(!set.has(b[i - a.len()]));
        }
    }
}

proof fn lemma_unlines_pieces(ls: Seq<Seq<char>>)
    requires
        forall|i: int| 0 <= i < ls.len() ==> plain(#[trigger] ls[i]),
    ensures
        text::pieces(text::unlines(ls), CharSet::One('\n')) == ls.push(Seq::<char>::empty()),
    decreases ls.len(),
{
    let nl = CharSet::One('\n');
    if ls.len() == 0 {
        assert(text::pieces(text::unlines(ls), nl) =~= ls.push(Seq::<char>::empty()));
    } else {
        lemma_unlines_pieces(ls.drop_last());
        let front = text::unlines(ls.drop_last());
        let last = ls.last();
        assert(plain(ls[ls.len() - 1]));
        assert forall|i: int| 0 <= i < last.len() implies !nl.has(#[trigger] last[i]) by {
            assert(!CharSet::LineEnd.has(last[i]));
        }
        lemma_pieces_extend(front, last, nl);
        assert(front + last.push('\n') =~= (front + last).push('\n'));
        assert((front + last).push('\n').drop_last() =~= front + last);
        let p = text::pieces(front, nl);
        assert(p.drop_last() =~= ls.drop_last());
        assert(Seq::<char>::empty() + last =~= last);
        assert(p.drop_last().push(p.last() + last) =~= ls);
    }
}

/// Lines that were written one after another are read back as they were.
pub proof fn lemma_lines_of_unlines(ls: Seq<Seq<char>>)
    requires
        forall|i: int| 0 <= i < ls.len() ==> plain(#[trigger] ls[i]),
    ensures
        text::lines(text::unlines(ls)) == ls,
{
    lemma_unlines_pieces(ls);
    let all = text::pieces(text::unlines(ls), CharSet::One('\n'));
    assert(all.drop_last() =~= ls);
    assert forall|i: int| 0 <= i < ls.len() implies text::without_cr(#[trigger] ls[i]) == ls[i] by {
        assert(plain(ls[i]));
        if ls[i].len() > 0 {
            assert(!CharSet::LineEnd.has(ls[i][ls[i].len() - 1]));
        }
    }
    assert(all.drop_last().map_values(|l: Seq<char>| text::without_cr(l)) =~= ls);
}

/// Neither end of the text is white space.
pub open spec fn tight(s: Seq<char>) -> bool {
    s.len() > 0 && !text::is_space(s[0]) && !text::is_space(s.last())
}

proof fn lemma_trim_right_length(s: Seq<char>, set: CharSet)
    ensures
        text::trim_right(s, set).len() <= s.len(),
        text::trim_right(s, set) == s.take(text::trim_right(s, set).len() as int),
        text::trim_right(s, set).len() > 0 ==> !set.has(text::trim_right(s, set).last()),
    decreases s.len(),
{
    if s.len() > 0 && set.has(s.last()) {
        lemma_trim_right_length(s.drop_last(), set);
        let n = text::trim_right(s, set).len() as int;
        assert(s.drop_last().take(n) =~= s.take(n));
    } else {
        assert(s.take(s.len() as int) =~= s);
    }
}

proof fn lemma_trim_left_length(s: Seq<char>, set: CharSet)
    ensures
        text::trim_left(s, set).len() <= s.len(),
        text::trim_left(s, set) == s.skip(s.len() - text::trim_left(s, set).len()),
        text::trim_left(s, set).len() > 0 ==> !set.has(text::trim_left(s, set)[0]),
    decreases s.len(),
{
    if s.len() > 0 && set.has(s[0]) {
        lemma_trim_left_length(s.skip(1), set);
        let n = text::trim_left(s, set).len() as int;
        assert(s.skip(1).skip(s.len() - 1 - n) =~= s.skip(s.len() - n));
    } else {
        assert(s.skip(0) =~= s);
    }
}

/// A text that trimming leaves as it is has no white space at its ends, and
/// the other way round.
pub proof fn lemma_tight(s: Seq<char>)
    ensures
        tight(s) ==> text::trimmed(s) == s,
        s.len() > 0 && text::trimmed(s) == s ==> tight(s),
{
    let set = CharSet::Space;
    let l = text::trim_left(s, set);
    lemma_trim_left_length(s, set);
    lemma_trim_right_length(l, set);
    if s.len() > 0 && text::trimmed(s) == s {
        assert(l.len() == s.len());
        assert(s.skip(0) =~= s);
    }
}

proof fn lemma_trim_leading_blank(s: Seq<char>)
    requires
        tight(s),
    ensures
        text::trimmed(" "@ + s) == s,
        text::trimmed("  "@ + s) == s,
{
    reveal_strlit(" ");
    reveal_strlit("  ");
    let set = CharSet::Space;
    lemma_tight(s);
    let one = " "@ + s;
    let two = "  "@ + s;
    assert(one.skip(1) =~= s);
    assert(two.skip(1) =~= one);
    assert(one[0] == ' ');
    assert(two[0] == ' ');
    assert(text::trim_left(one, set) == text::trim_left(s, set));
    assert(text::trim_left(two, set) == text::trim_left(one, set));
}

proof fn lemma_begins_not(s: Seq<char>, pat: Seq<char>)
    requires
        s.len() > 0,
        pat.len() > 0,
        s[0] != pat[0],
    ensures
        !text::begins(s, pat),
{
    if text::begins(s, pat) {
        assert(s.subrange(0, pat.len() as int)[0] == pat[0]);
    }
}

proof fn lemma_begins_add(pat: Seq<char>, rest: Seq<char>)
    ensures
        text::begins(pat + rest, pat),
        (pat + rest).skip(pat.len() as int) == rest,
{
    assert((pat + rest).subrange(0, pat.len() as int) =~= pat);
    assert((pat + rest).skip(pat.len() as int) =~= rest);
}

proof fn lemma_joined_plain(parts: Seq<Seq<char>>)
    requires
        forall|i: int| 0 <= i < parts.len() ==> plain(#[trigger] parts[i]),
    ensures
        plain(text::joined(parts, ", "@)),
    decreases parts.len(),
{
    reveal_strlit(", ");
    assert(plain(", "@)) by {
        assert forall|i: int| 0 <= i < ", "@.len() implies !CharSet::LineEnd.has(
            #[trigger] ", "@[i],
        ) by {}
    }
    if parts.len() == 1 {
        assert(plain(parts[0]));
    } else if parts.len() > 1 {
        lemma_joined_plain(parts.drop_last());
        assert(plain(parts[parts.len() - 1]));
        lemma_plain_add(text::joined(parts.drop_last(), ", "@), ", "@);
        lemma_plain_add(text::joined(parts.drop_last(), ", "@) + ", "@, parts.last());
    }
}

// ---------------------------------------------------------------------
// Lines
// ---------------------------------------------------------------------

/// A component that the checklist format carries without loss: a valid slug,
/// a trimmed name, a trimmed tier in lower case, and trimmed paths and
/// commands that are not empty; no line breaks, and no commas in paths.
pub open spec fn canonical(c: ComponentView) -> bool {
    &&& discover::slug_ok(c.slug)
    &&& c.name.len() > 0 ==> tight(c.name)
    &&& plain(c.name)
    &&& tight(c.tier)
    &&& plain(c.tier)
    &&& text::lowercase(c.tier) == c.tier
    &&& forall|i: int| 0 <= i < c.paths.len() ==> good_path(#[trigger] c.paths[i])
    &&& forall|i: int| 0 <= i < c.verify.len() ==> good_command(#[trigger] c.verify[i])
}

pub open spec fn good_path(p: Seq<char>) -> bool {
    tight(p) && plain(p) && !text::has_char(p, CharSet::One(','))
}

pub open spec fn good_command(v: Seq<char>) -> bool {
    tight(v) && plain(v)
}

proof fn lemma_slug_plain(s: Seq<char>)
    requires
        discover::slug_ok(s),
    ensures
        plain(s),
        tight(s),
        forall|i: int| 0 <= i < s.len() ==> #[trigger] s[i] != ' ',
        !text::has_text(s, " — "@),
        !text::has_text(s, " - "@),
{
    assert forall|i: int| 0 <= i < s.len() implies !CharSet::LineEnd.has(#[trigger] s[i]) && s[i]
        != ' ' by {
        assert(discover::slug_char(s[i]));
    }
    assert(discover::slug_char(s[0]));
    assert(discover::slug_char(s[s.len() - 1]));
    reveal_strlit(" — ");
    reveal_strlit(" - ");
    assert forall|i: int| !text::occurs_at(s, " — "@, i) by {
        if text::occurs_at(s, " — "@, i) {
            assert(s.subrange(i, i + " — "@.len())[0] == ' ');
            assert(s[i] == ' ');
        }
    }
    assert forall|i: int| !text::occurs_at(s, " - "@, i) by {
        if text::occurs_at(s, " - "@, i) {
            assert(s.subrange(i, i + " - "@.len())[0] == ' ');
            assert(s[i] == ' ');
        }
    }
}

proof fn lemma_slug_and_name(slug: Seq<char>, name: Seq<char>)
    requires
        discover::slug_ok(slug),
        tight(name),
    ensures
        checklist::slug_and_name(slug) == (slug, Seq::<char>::empty()),
        checklist::slug_and_name(slug + " — "@ + name) == (slug, name),
{
    lemma_slug_plain(slug);
    text::lemma_find_from(slug, " — "@, 0);
    text::lemma_find_from(slug, " - "@, 0);
    reveal_strlit(" — ");
    let sep = " — "@;
    let body = slug + sep + name;
    text::lemma_find_from(body, sep, 0);
    assert(body.subrange(slug.len() as int, slug.len() as int + sep.len()) =~= sep);
    assert(text::occurs_at(body, sep, slug.len() as int));
    assert forall|j: int| 0 <= j < slug.len() implies !text::occurs_at(body, sep, j) by {
        if text::occurs_at(body, sep, j) {
            assert(body.subrange(j, j + sep.len())[0] == sep[0]);
            assert(body[j] == ' ');
            assert(slug[j] == ' ');
        }
    }
    assert(text::find_from(body, sep, 0) == Some(slug.len() as int));
    assert(body.take(slug.len() as int) =~= slug);
    assert(body.skip(slug.len() as int + sep.len()) =~= name);
    lemma_tight(slug);
    lemma_tight(name);
}

proof fn lemma_read_head(c: ComponentView)
    requires
        canonical(c),
    ensures
        plain(checklist::item_head(c)),
        checklist::read_line(checklist::item_head(c)) == (Line::<Seq<char>, Seq<Seq<char>>>::Item {
            done: c.done,
            slug: c.slug,
            name: c.name,
        }),
{
    lemma_slug_plain(c.slug);
    reveal_strlit("- [x] ");
    reveal_strlit("- [ ] ");
    reveal_strlit("- [");
    reveal_strlit(" — ");
    reveal_strlit("## ");
    reveal_strlit("paths:");
    reveal_strlit("verify:");
    reveal_strlit(" ");
    let mark = if c.done {
        "- [x] "@
    } else {
        "- [ ] "@
    };
    let body = if c.name.len() == 0 {
        c.slug
    } else {
        c.slug + " — "@ + c.name
    };
    let head = checklist::item_head(c);
    assert(head =~= mark + body);
    assert(plain(mark)) by {
        assert forall|i: int| 0 <= i < mark.len() implies !CharSet::LineEnd.has(
            #[trigger] mark[i],
        ) by {}
    }
    assert(plain(" — "@)) by {
        assert forall|i: int| 0 <= i < " — "@.len() implies !CharSet::LineEnd.has(
            #[trigger] " — "@[i],
        ) by {}
    }
    if c.name.len() > 0 {
        lemma_plain_add(c.slug, " — "@);
        lemma_plain_add(c.slug + " — "@, c.name);
        lemma_slug_and_name(c.slug, c.name);
        assert(body.last() == c.name.last());
    } else {
        assert(c.name =~= Seq::<char>::empty());
        lemma_slug_and_name(c.slug, c.slug);
    }
    lemma_plain_add(mark, body);
    assert(tight(body));
    assert(tight(head));
    lemma_tight(head);
    lemma_begins_not(head, "## "@);
    lemma_begins_not(head, "paths:"@);
    lemma_begins_not(head, "verify:"@);
    assert(head.subrange(0, 3) =~= "- ["@);
    let rest = head.skip(3);
    assert(rest.skip(2) =~= " "@ + body);
    lemma_trim_leading_blank(body);
    assert(rest[0] == mark[3]);
    assert(rest[1] == mark[4]);
}

proof fn lemma_path_list(paths: Seq<Seq<char>>)
    requires
        paths.len() > 0,
        forall|i: int| 0 <= i < paths.len() ==> good_path(#[trigger] paths[i]),
    ensures
        text::pieces(" "@ + text::joined(paths, ", "@), CharSet::One(',')) == paths.map_values(
            |p: Seq<char>| " "@ + p,
        ),
        tight(text::joined(paths, ", "@)),
    decreases paths.len(),
{
    let comma = CharSet::One(',');
    reveal_strlit(", ");
    reveal_strlit(" ");
    let last = paths.last();
    assert(good_path(paths[paths.len() - 1]));
    let b = " "@ + last;
    assert forall|i: int| 0 <= i < b.len() implies !comma.has(#[trigger] b[i]) by {
        if i > 0 {
            assert(b[i] == last[i - 1]);
            assert(!comma.has(last[i - 1]));
        }
    }
    if paths.len() == 1 {
        let e = Seq::<char>::empty();
        lemma_pieces_extend(e, b, comma);
        assert(e + b =~= b);
        assert(text::pieces(e, comma) =~= seq![e]);
        assert(seq![e].drop_last().push(e + b) =~= seq![b]);
        assert(paths.map_values(|p: Seq<char>| " "@ + p) =~= seq![b]);
    } else {
        let front = paths.drop_last();
        assert forall|i: int| 0 <= i < front.len() implies good_path(#[trigger] front[i]) by {
            assert(good_path(paths[i]));
        }
        lemma_path_list(front);
        let a = " "@ + text::joined(front, ", "@);
        lemma_pieces_cut(a, ',', b);
        let whole = " "@ + text::joined(paths, ", "@);
        assert(whole =~= a.push(',') + b);
        assert(front.map_values(|p: Seq<char>| " "@ + p).push(b) =~= paths.map_values(
            |p: Seq<char>| " "@ + p,
        ));
        let j = text::joined(paths, ", "@);
        assert(j[0] == text::joined(front, ", "@)[0]);
        assert(j.last() == last.last());
    }
}

proof fn lemma_all_filled(parts: Seq<Seq<char>>)
    requires
        forall|i: int| 0 <= i < parts.len() ==> (#[trigger] parts[i]).len() > 0,
    ensures
        text::filled(parts) == parts,
    decreases parts.len(),
{
    reveal(Seq::filter);
    if parts.len() > 0 {
        lemma_all_filled(parts.drop_last());
        assert(parts[parts.len() - 1].len() > 0);
        assert(parts.drop_last().push(parts.last()) =~= parts);
    } else {
        assert(text::filled(parts) =~= parts);
    }
}

proof fn lemma_read_paths(paths: Seq<Seq<char>>)
    requires
        paths.len() > 0,
        forall|i: int| 0 <= i < paths.len() ==> good_path(#[trigger] paths[i]),
    ensures
        plain("  paths: "@ + text::joined(paths, ", "@)),
        checklist::read_line("  paths: "@ + text::joined(paths, ", "@)) == (Line::<
            Seq<char>,
            Seq<Seq<char>>,
        >::Paths { list: paths }),
{
    reveal_strlit("  paths: ");
    reveal_strlit("paths:");
    reveal_strlit("## ");
    reveal_strlit(" ");
    reveal_strlit("  ");
    let j = text::joined(paths, ", "@);
    lemma_path_list(paths);
    assert forall|i: int| 0 <= i < paths.len() implies plain(#[trigger] paths[i]) by {
        assert(good_path(paths[i]));
    }
    lemma_joined_plain(paths);
    assert(plain("  paths: "@)) by {
        assert forall|i: int| 0 <= i < "  paths: "@.len() implies !CharSet::LineEnd.has(
            #[trigger] "  paths: "@[i],
        ) by {}
    }
    lemma_plain_add("  paths: "@, j);
    let t = "paths:"@ + (" "@ + j);
    assert("  paths: "@ + j =~= "  "@ + t);
    assert(t[0] == 'p');
    assert(t.last() == j.last());
    lemma_trim_leading_blank(t);
    lemma_begins_not(t, "## "@);
    lemma_begins_add("paths:"@, " "@ + j);
    let cut = text::pieces(" "@ + j, CharSet::One(','));
    let trimmed = cut.map_values(|p: Seq<char>| text::trimmed(p));
    assert forall|i: int| 0 <= i < paths.len() implies #[trigger] trimmed[i] == paths[i] by {
        assert(good_path(paths[i]));
        assert(cut[i] == " "@ + paths[i]);
        lemma_trim_leading_blank(paths[i]);
    }
    assert(trimmed =~= paths);
    assert forall|i: int| 0 <= i < paths.len() implies (#[trigger] paths[i]).len() > 0 by {
        assert(good_path(paths[i]));
    }
    lemma_all_filled(paths);
}

proof fn lemma_read_verify(v: Seq<char>)
    requires
        good_command(v),
    ensures
        plain("  verify: "@ + v),
        checklist::read_line("  verify: "@ + v) == (Line::<Seq<char>, Seq<Seq<char>>>::Verify {
            command: v,
        }),
{
    reveal_strlit("  verify: ");
    reveal_strlit("verify:");
    reveal_strlit("paths:");
    reveal_strlit("## ");
    reveal_strlit(" ");
    reveal_strlit("  ");
    assert(plain("  verify: "@)) by {
        assert forall|i: int| 0 <= i < "  verify: "@.len() implies !CharSet::LineEnd.has(
            #[trigger] "  verify: "@[i],
        ) by {}
    }
    lemma_plain_add("  verify: "@, v);
    let t = "verify:"@ + (" "@ + v);
    assert("  verify: "@ + v =~= "  "@ + t);
    assert(t[0] == 'v');
    assert(t.last() == v.last());
    lemma_trim_leading_blank(t);
    lemma_begins_not(t, "## "@);
    lemma_begins_not(t, "paths:"@);
    lemma_begins_add("verify:"@, " "@ + v);
    lemma_trim_leading_blank(v);
}

proof fn lemma_read_heading(tier: Seq<char>)
    requires
        tight(tier),
        plain(tier),
        text::lowercase(tier) == tier,
    ensures
        plain("## "@ + tier),
        checklist::read_line("## "@ + tier) == (Line::<Seq<char>, Seq<Seq<char>>>::Heading { tier }),
        plain(Seq::<char>::empty()),
        checklist::read_line(Seq::<char>::empty()) == Line::<Seq<char>, Seq<Seq<char>>>::Blank,
        plain("# Checklist"@),
        checklist::read_line("# Checklist"@) == Line::<Seq<char>, Seq<Seq<char>>>::Other,
{
    reveal_strlit("## ");
    reveal_strlit("# Checklist");
    reveal_strlit("paths:");
    reveal_strlit("verify:");
    reveal_strlit("- [");
    assert(plain("## "@)) by {
        assert forall|i: int| 0 <= i < "## "@.len() implies !CharSet::LineEnd.has(
            #[trigger] "## "@[i],
        ) by {}
    }
    assert(plain("# Checklist"@)) by {
        assert forall|i: int| 0 <= i < "# Checklist"@.len() implies !CharSet::LineEnd.has(
            #[trigger] "# Checklist"@[i],
        ) by {}
    }
    lemma_plain_add("## "@, tier);
    let t = "## "@ + tier;
    assert(tight(t));
    lemma_tight(t);
    lemma_tight(tier);
    lemma_begins_add("## "@, tier);
    let h = "# Checklist"@;
    assert(tight(h));
    lemma_tight(h);
    if text::begins(h, "## "@) {
        assert(h.subrange(0, 3)[1] == "## "@[1]);
    }
    lemma_begins_not(h, "paths:"@);
    lemma_begins_not(h, "verify:"@);
    lemma_begins_not(h, "- ["@);
}

// ---------------------------------------------------------------------
// The whole checklist
// ---------------------------------------------------------------------

/// The components of one tier, in order.
pub open spec fn of_tier(cs: Seq<ComponentView>, tier: Seq<char>) -> Seq<ComponentView>
    decreases cs.len(),
{
    if cs.len() == 0 {
        Seq::empty()
    } else if cs.last().tier == tier {
        of_tier(cs.drop_last(), tier).push(cs.last())
    } else {
        of_tier(cs.drop_last(), tier)
    }
}

/// The components tier by tier.
pub open spec fn grouped(cs: Seq<ComponentView>, ts: Seq<Seq<char>>) -> Seq<ComponentView>
    decreases ts.len(),
{
    if ts.len() == 0 {
        Seq::empty()
    } else {
        grouped(cs, ts.drop_last()) + of_tier(cs, ts.last())
    }
}

/// The components in the order in which a checklist lists them.
pub open spec fn listed(cs: Seq<ComponentView>) -> Seq<ComponentView> {
    grouped(cs, checklist::by_rank(checklist::tiers_seen(cs)))
}

pub open spec fn all_canonical(cs: Seq<ComponentView>) -> bool {
    forall|i: int| 0 <= i < cs.len() ==> canonical(#[trigger] cs[i])
}

pub open spec fn good_tier(t: Seq<char>) -> bool {
    tight(t) && plain(t) && text::lowercase(t) == t
}

pub open spec fn all_plain(ls: Seq<Seq<char>>) -> bool {
    forall|i: int| 0 <= i < ls.len() ==> plain(#[trigger] ls[i])
}

proof fn lemma_all_plain_add(a: Seq<Seq<char>>, b: Seq<Seq<char>>)
    requires
        all_plain(a),
        all_plain(b),
    ensures
        all_plain(a + b),
{
    assert forall|i: int| 0 <= i < (a + b).len() implies plain(#[trigger] (a + b)[i]) by {
        if i < a.len() {
            assert(plain(a[i]));
        } else {
            assert(plain(b[i - a.len()]));
        }
    }
}

proof fn lemma_read_concat(st: Reading, a: Seq<Seq<char>>, b: Seq<Seq<char>>)
    ensures
        checklist::read_from(st, a + b) == (match checklist::read_from(st, a) {
            Ok(mid) => checklist::read_from(mid, b),
            Err(slug) => Err(slug),
        }),
    decreases b.len(),
{
    if b.len() == 0 {
        assert(a + b =~= a);
    } else {
        lemma_read_concat(st, a, b.drop_last());
        assert((a + b).drop_last() =~= a + b.drop_last());
    }
}

proof fn lemma_read_one(st: Reading, l: Seq<char>)
    ensures
        checklist::read_from(st, seq![l]) == checklist::advance(st, checklist::read_line(l)),
{
    assert(seq![l].drop_last() =~= Seq::<Seq<char>>::empty());
    assert(checklist::read_from(st, Seq::<Seq<char>>::empty()) == Ok::<Reading, Seq<char>>(st));
}

spec fn with_verify(st: Reading, vs: Seq<Seq<char>>) -> Reading {
    Reading {
        items: st.items.drop_last().push(
            ComponentView { verify: st.items.last().verify + vs, ..st.items.last() },
        ),
        ..st
    }
}

spec fn verify_lines(vs: Seq<Seq<char>>) -> Seq<Seq<char>> {
    vs.map_values(|v: Seq<char>| "  verify: "@ + v)
}

proof fn lemma_read_verify_lines(st: Reading, vs: Seq<Seq<char>>)
    requires
        st.bound,
        st.items.len() > 0,
        forall|i: int| 0 <= i < vs.len() ==> good_command(#[trigger] vs[i]),
    ensures
        all_plain(verify_lines(vs)),
        checklist::read_from(st, verify_lines(vs)) == Ok::<Reading, Seq<char>>(
            with_verify(st, vs),
        ),
    decreases vs.len(),
{
    let ls = verify_lines(vs);
    if vs.len() == 0 {
        assert(st.items.last().verify + vs =~= st.items.last().verify);
        assert(st.items.drop_last().push(st.items.last()) =~= st.items);
        assert(with_verify(st, vs) == st);
    } else {
        let front = vs.drop_last();
        assert forall|i: int| 0 <= i < front.len() implies good_command(#[trigger] front[i]) by {
            assert(good_command(vs[i]));
        }
        lemma_read_verify_lines(st, front);
        assert(ls.drop_last() =~= verify_lines(front));
        assert(good_command(vs[vs.len() - 1]));
        lemma_read_verify(vs.last());
        let mid = with_verify(st, front);
        assert(mid.items.last().verify == st.items.last().verify + front);
        assert(mid.items.drop_last() =~= st.items.drop_last());
        assert((st.items.last().verify + front).push(vs.last()) =~= st.items.last().verify + vs);
        lemma_all_plain_add(verify_lines(front), seq!["  verify: "@ + vs.last()]);
        assert(verify_lines(front) + seq!["  verify: "@ + vs.last()] =~= ls);
    }
}

proof fn lemma_read_component(st: Reading, c: ComponentView)
    requires
        canonical(c),
        st.tier == c.tier,
    ensures
        all_plain(checklist::item_lines(c)),
        checklist::read_from(st, checklist::item_lines(c)) == Ok::<Reading, Seq<char>>(
            Reading { items: st.items.push(c), tier: st.tier, bound: true },
        ),
{
    let head = seq![checklist::item_head(c)];
    let paths = if c.paths.len() == 0 {
        Seq::<Seq<char>>::empty()
    } else {
        seq!["  paths: "@ + text::joined(c.paths, ", "@)]
    };
    let vs = verify_lines(c.verify);
    lemma_read_head(c);
    lemma_read_one(st, checklist::item_head(c));
    let bare = ComponentView { paths: Seq::empty(), verify: Seq::empty(), ..c };
    let one = Reading { items: st.items.push(bare), tier: st.tier, bound: true };
    assert(checklist::read_from(st, head) == Ok::<Reading, Seq<char>>(one));
    let placed = ComponentView { verify: Seq::empty(), ..c };
    let two = Reading { items: st.items.push(placed), tier: st.tier, bound: true };
    assert(checklist::read_from(one, paths) == Ok::<Reading, Seq<char>>(two)) by {
        if c.paths.len() == 0 {
            assert(c.paths =~= Seq::<Seq<char>>::empty());
        } else {
            lemma_read_paths(c.paths);
            lemma_read_one(one, paths[0]);
            assert(one.items.drop_last() =~= st.items);
        }
    }
    lemma_read_verify_lines(two, c.verify);
    assert(two.items.drop_last() =~= st.items);
    assert(placed.verify + c.verify =~= c.verify);
    assert(with_verify(two, c.verify) == (Reading {
        items: st.items.push(c),
        tier: st.tier,
        bound: true,
    }));
    lemma_read_concat(st, head, paths);
    lemma_read_concat(st, head + paths, vs);
    assert(checklist::item_lines(c) =~= head + paths + vs);
    if c.paths.len() > 0 {
        lemma_read_paths(c.paths);
    }
    lemma_all_plain_add(head, paths);
    lemma_all_plain_add(head + paths, vs);
}

proof fn lemma_read_tier_items(st: Reading, cs: Seq<ComponentView>, tier: Seq<char>)
    requires
        all_canonical(cs),
        st.tier == tier,
    ensures
        all_plain(checklist::tier_items(cs, tier)),
        checklist::read_from(st, checklist::tier_items(cs, tier)) is Ok,
        (checklist::read_from(st, checklist::tier_items(cs, tier))->Ok_0).tier == tier,
        (checklist::read_from(st, checklist::tier_items(cs, tier))->Ok_0).items == st.items
            + of_tier(cs, tier),
    decreases cs.len(),
{
    if cs.len() == 0 {
        assert(st.items + of_tier(cs, tier) =~= st.items);
    } else {
        let front = cs.drop_last();
        assert forall|i: int| 0 <= i < front.len() implies canonical(#[trigger] front[i]) by {
            assert(canonical(cs[i]));
        }
        lemma_read_tier_items(st, front, tier);
        if cs.last().tier == tier {
            assert(canonical(cs[cs.len() - 1]));
            let mid = checklist::read_from(st, checklist::tier_items(front, tier))->Ok_0;
            lemma_read_component(mid, cs.last());
            let own = checklist::item_lines(cs.last());
            lemma_read_concat(st, checklist::tier_items(front, tier), own);
            lemma_all_plain_add(checklist::tier_items(front, tier), own);
            assert(mid.items.push(cs.last()) =~= st.items + of_tier(cs, tier));
        }
    }
}

proof fn lemma_read_tier_lines(st: Reading, cs: Seq<ComponentView>, ts: Seq<Seq<char>>)
    requires
        all_canonical(cs),
        forall|i: int| 0 <= i < ts.len() ==> good_tier(#[trigger] ts[i]),
    ensures
        all_plain(checklist::tier_lines(cs, ts)),
        checklist::read_from(st, checklist::tier_lines(cs, ts)) is Ok,
        (checklist::read_from(st, checklist::tier_lines(cs, ts))->Ok_0).items == st.items
            + grouped(cs, ts),
    decreases ts.len(),
{
    if ts.len() == 0 {
        assert(st.items + grouped(cs, ts) =~= st.items);
    } else {
        let front = ts.drop_last();
        let t = ts.last();
        assert forall|i: int| 0 <= i < front.len() implies good_tier(#[trigger] front[i]) by {
            assert(good_tier(ts[i]));
        }
        assert(good_tier(ts[ts.len() - 1]));
        lemma_read_tier_lines(st, cs, front);
        lemma_read_heading(t);
        let before = checklist::tier_lines(cs, front);
        let title = seq![Seq::<char>::empty(), "## "@ + t];
        let own = checklist::tier_items(cs, t);
        let mid = checklist::read_from(st, before)->Ok_0;
        lemma_read_one(mid, Seq::<char>::empty());
        lemma_read_one(mid, "## "@ + t);
        lemma_read_concat(mid, seq![Seq::<char>::empty()], seq!["## "@ + t]);
        assert(seq![Seq::<char>::empty()] + seq!["## "@ + t] =~= title);
        let headed = Reading { tier: t, bound: false, ..mid };
        assert(checklist::read_from(mid, title) == Ok::<Reading, Seq<char>>(headed));
        lemma_read_tier_items(headed, cs, t);
        lemma_read_concat(st, before, title);
        lemma_read_concat(st, before + title, own);
        assert(mid.items + of_tier(cs, t) =~= st.items + grouped(cs, ts));
        lemma_all_plain_add(before, title);
        lemma_all_plain_add(before + title, own);
    }
}

proof fn lemma_tiers_seen_good(cs: Seq<ComponentView>)
    requires
        all_canonical(cs),
    ensures
        forall|i: int|
            0 <= i < checklist::tiers_seen(cs).len() ==> good_tier(
                #[trigger] checklist::tiers_seen(cs)[i],
            ),
    decreases cs.len(),
{
    if cs.len() > 0 {
        let front = cs.drop_last();
        assert forall|i: int| 0 <= i < front.len() implies canonical(#[trigger] front[i]) by {
            assert(canonical(cs[i]));
        }
        lemma_tiers_seen_good(front);
        assert(canonical(cs[cs.len() - 1]));
        let seen = checklist::tiers_seen(front);
        let all = checklist::tiers_seen(cs);
        assert forall|i: int| 0 <= i < all.len() implies good_tier(#[trigger] all[i]) by {
            if i < seen.len() {
                assert(good_tier(seen[i]));
            }
        }
    }
}

proof fn lemma_of_rank_good(ts: Seq<Seq<char>>, k: nat)
    requires
        forall|i: int| 0 <= i < ts.len() ==> good_tier(#[trigger] ts[i]),
    ensures
        forall|i: int|
            0 <= i < checklist::of_rank(ts, k).len() ==> good_tier(
                #[trigger] checklist::of_rank(ts, k)[i],
            ),
    decreases ts.len(),
{
    reveal(Seq::filter);
    if ts.len() > 0 {
        let front = ts.drop_last();
        assert forall|i: int| 0 <= i < front.len() implies good_tier(#[trigger] front[i]) by {
            assert(good_tier(ts[i]));
        }
        lemma_of_rank_good(front, k);
        assert(good_tier(ts[ts.len() - 1]));
        let some = checklist::of_rank(front, k);
        let all = checklist::of_rank(ts, k);
        assert forall|i: int| 0 <= i < all.len() implies good_tier(#[trigger] all[i]) by {
            if i < some.len() {
                assert(good_tier(some[i]));
            }
        }
    }
}

proof fn lemma_no_path_fault(slug: Seq<char>, paths: Seq<Seq<char>>)
    requires
        forall|i: int| 0 <= i < paths.len() ==> good_path(#[trigger] paths[i]),
    ensures
        checklist::path_fault(slug, paths) is None,
    decreases paths.len(),
{
    if paths.len() > 0 {
        let front = paths.drop_last();
        assert forall|i: int| 0 <= i < front.len() implies good_path(#[trigger] front[i]) by {
            assert(good_path(paths[i]));
        }
        lemma_no_path_fault(slug, front);
        assert(good_path(paths[paths.len() - 1]));
    }
}

proof fn lemma_no_verify_fault(slug: Seq<char>, vs: Seq<Seq<char>>)
    requires
        forall|i: int| 0 <= i < vs.len() ==> good_command(#[trigger] vs[i]),
    ensures
        checklist::verify_fault(slug, vs) is None,
    decreases vs.len(),
{
    if vs.len() > 0 {
        let front = vs.drop_last();
        assert forall|i: int| 0 <= i < front.len() implies good_command(#[trigger] front[i]) by {
            assert(good_command(vs[i]));
        }
        lemma_no_verify_fault(slug, front);
        assert(good_command(vs[vs.len() - 1]));
    }
}

proof fn lemma_no_fault(cs: Seq<ComponentView>)
    requires
        all_canonical(cs),
    ensures
        checklist::first_fault(cs) is None,
    decreases cs.len(),
{
    if cs.len() > 0 {
        let front = cs.drop_last();
        assert forall|i: int| 0 <= i < front.len() implies canonical(#[trigger] front[i]) by {
            assert(canonical(cs[i]));
        }
        lemma_no_fault(front);
        let c = cs[cs.len() - 1];
        assert(canonical(c));
        lemma_slug_plain(c.slug);
        lemma_tight(c.tier);
        lemma_no_path_fault(c.slug, c.paths);
        lemma_no_verify_fault(c.slug, c.verify);
    }
}

/// A checklist that was written and read again holds the same components,
/// tier by tier in the order of the tiers.
pub proof fn law_written_checklist_reads_back(cs: Seq<ComponentView>)
    requires
        cs.len() > 0,
        all_canonical(cs),
    ensures
        checklist::rendered(cs) is Ok,
        checklist::parsed(checklist::rendered(cs)->Ok_0) == Ok::<Seq<ComponentView>, FaultView>(
            listed(cs),
        ),
{
    lemma_no_fault(cs);
    let seen = checklist::tiers_seen(cs);
    let ts = checklist::by_rank(seen);
    lemma_tiers_seen_good(cs);
    lemma_of_rank_good(seen, 0);
    lemma_of_rank_good(seen, 1);
    lemma_of_rank_good(seen, 2);
    lemma_of_rank_good(seen, 3);
    assert(canonical(cs[0]));
    lemma_read_heading(cs[0].tier);
    let start = checklist::reading_start();
    let title = seq!["# Checklist"@];
    lemma_read_one(start, "# Checklist"@);
    let rest = checklist::tier_lines(cs, ts);
    lemma_read_concat(start, title, rest);
    lemma_read_tier_lines(start, cs, ts);
    lemma_all_plain_add(title, rest);
    let ls = checklist::checklist_lines(cs);
    lemma_lines_of_unlines(ls);
    assert(start.items + grouped(cs, ts) =~= grouped(cs, ts));
}

proof fn lemma_of_tier_add(a: Seq<ComponentView>, b: Seq<ComponentView>, t: Seq<char>)
    ensures
        of_tier(a + b, t) == of_tier(a, t) + of_tier(b, t),
    decreases b.len(),
{
    if b.len() == 0 {
        assert(a + b =~= a);
        assert(of_tier(a, t) + of_tier(b, t) =~= of_tier(a, t));
    } else {
        lemma_of_tier_add(a, b.drop_last(), t);
        assert((a + b).drop_last() =~= a + b.drop_last());
        assert(of_tier(a + b, t) =~= of_tier(a, t) + of_tier(b, t));
    }
}

proof fn lemma_of_tier_twice(cs: Seq<ComponentView>, u: Seq<char>, t: Seq<char>)
    ensures
        of_tier(of_tier(cs, u), t) == (if u == t {
            of_tier(cs, t)
        } else {
            Seq::empty()
        }),
    decreases cs.len(),
{
    if cs.len() > 0 {
        lemma_of_tier_twice(cs.drop_last(), u, t);
        let front = of_tier(cs.drop_last(), u);
        if cs.last().tier == u {
            assert(front.push(cs.last()).drop_last() =~= front);
        }
    }
}

proof fn lemma_of_tier_members(cs: Seq<ComponentView>, t: Seq<char>)
    ensures
        forall|i: int|
            0 <= i < of_tier(cs, t).len() ==> (#[trigger] of_tier(cs, t)[i]).tier == t
                && cs.contains(of_tier(cs, t)[i]),
        checklist::tiers_seen(cs).contains(t) <==> of_tier(cs, t).len() > 0,
    decreases cs.len(),
{
    if cs.len() > 0 {
        let front = cs.drop_last();
        lemma_of_tier_members(front, t);
        let some = of_tier(front, t);
        let all = of_tier(cs, t);
        assert forall|i: int| 0 <= i < all.len() implies (#[trigger] all[i]).tier == t
            && cs.contains(all[i]) by {
            if i < some.len() {
                assert(front.contains(some[i]));
                let k = choose|k: int| 0 <= k < front.len() && front[k] == some[i];
                assert(cs[k] == all[i]);
            } else {
                assert(cs[cs.len() - 1] == all[i]);
            }
        }
        let seen = checklist::tiers_seen(front);
        let u = cs.last().tier;
        if !seen.contains(u) {
            assert(seen.push(u)[seen.len() as int] == u);
            if seen.contains(t) {
                let k = choose|k: int| 0 <= k < seen.len() && seen[k] == t;
                assert(seen.push(u)[k] == t);
            }
            if seen.push(u).contains(t) && t != u {
                let k = choose|k: int| 0 <= k < seen.push(u).len() && seen.push(u)[k] == t;
                assert(seen[k] == t);
            }
        }
    }
}

proof fn lemma_tiers_seen_distinct(cs: Seq<ComponentView>)
    ensures
        checklist::tiers_seen(cs).no_duplicates(),
    decreases cs.len(),
{
    if cs.len() > 0 {
        lemma_tiers_seen_distinct(cs.drop_last());
    }
}

proof fn lemma_of_rank(ts: Seq<Seq<char>>, k: nat)
    ensures
        forall|i: int|
            0 <= i < checklist::of_rank(ts, k).len() ==> checklist::rank_of(
                #[trigger] checklist::of_rank(ts, k)[i],
            ) == k && ts.contains(checklist::of_rank(ts, k)[i]),
        forall|t: Seq<char>|
            ts.contains(t) && checklist::rank_of(t) == k ==> #[trigger] checklist::of_rank(
                ts,
                k,
            ).contains(t),
        ts.no_duplicates() ==> checklist::of_rank(ts, k).no_duplicates(),
    decreases ts.len(),
{
    reveal(Seq::filter);
    if ts.len() > 0 {
        let front = ts.drop_last();
        lemma_of_rank(front, k);
        let some = checklist::of_rank(front, k);
        let all = checklist::of_rank(ts, k);
        assert forall|i: int| 0 <= i < all.len() implies checklist::rank_of(#[trigger] all[i]) == k
            && ts.contains(all[i]) by {
            if i < some.len() {
                assert(front.contains(some[i]));
                let j = choose|j: int| 0 <= j < front.len() && front[j] == some[i];
                assert(ts[j] == all[i]);
            } else {
                assert(ts[ts.len() - 1] == all[i]);
            }
        }
        assert forall|t: Seq<char>|
            ts.contains(t) && checklist::rank_of(t) == k implies #[trigger] all.contains(t) by {
            let j = choose|j: int| 0 <= j < ts.len() && ts[j] == t;
            if j < front.len() {
                assert(front[j] == t);
                assert(some.contains(t));
                let i = choose|i: int| 0 <= i < some.len() && some[i] == t;
                assert(all[i] == t);
            } else {
                assert(all[all.len() - 1] == t);
            }
        }
        if ts.no_duplicates() {
            assert forall|i: int, j: int| 0 <= i < front.len() && 0 <= j < front.len() && i
                != j implies front[i] != front[j] by {
                assert(ts[i] != ts[j]);
            }
            assert forall|i: int, j: int| 0 <= i < all.len() && 0 <= j < all.len() && i
                != j implies all[i] != all[j] by {
                if i == some.len() && all[i] == all[j] {
                    assert(front.contains(some[j]));
                    let m = choose|m: int| 0 <= m < front.len() && front[m] == some[j];
                    assert(ts[m] != ts[ts.len() - 1]);
                }
                if j == some.len() && all[i] == all[j] {
                    assert(front.contains(some[i]));
                    let m = choose|m: int| 0 <= m < front.len() && front[m] == some[i];
                    assert(ts[m] != ts[ts.len() - 1]);
                }
            }
        }
    }
}

proof fn lemma_distinct_add(a: Seq<Seq<char>>, b: Seq<Seq<char>>)
    requires
        a.no_duplicates(),
        b.no_duplicates(),
        forall|i: int, j: int| 0 <= i < a.len() && 0 <= j < b.len() ==> #[trigger] a[i] != #[trigger] b[j],
    ensures
        (a + b).no_duplicates(),
{
}

proof fn lemma_by_rank(ts: Seq<Seq<char>>)
    requires
        ts.no_duplicates(),
    ensures
        checklist::by_rank(ts).no_duplicates(),
        forall|t: Seq<char>|
            ts.contains(t) <==> #[trigger] checklist::by_rank(ts).contains(t),
{
    let r0 = checklist::of_rank(ts, 0);
    let r1 = checklist::of_rank(ts, 1);
    let r2 = checklist::of_rank(ts, 2);
    let r3 = checklist::of_rank(ts, 3);
    lemma_of_rank(ts, 0);
    lemma_of_rank(ts, 1);
    lemma_of_rank(ts, 2);
    lemma_of_rank(ts, 3);
    lemma_distinct_add(r0, r1);
    assert forall|i: int| 0 <= i < (r0 + r1).len() implies checklist::rank_of(
        #[trigger] (r0 + r1)[i],
    ) < 2 by {}
    lemma_distinct_add(r0 + r1, r2);
    assert forall|i: int| 0 <= i < (r0 + r1 + r2).len() implies checklist::rank_of(
        #[trigger] (r0 + r1 + r2)[i],
    ) < 3 by {}
    lemma_distinct_add(r0 + r1 + r2, r3);
    let all = checklist::by_rank(ts);
    assert forall|t: Seq<char>| ts.contains(t) <==> #[trigger] all.contains(t) by {
        if ts.contains(t) {
            let k = checklist::rank_of(t);
            let own = checklist::of_rank(ts, k);
            assert(own.contains(t));
            let i = choose|i: int| 0 <= i < own.len() && own[i] == t;
            if k == 0 {
                assert(all[i] == t);
            } else if k == 1 {
                assert(all[r0.len() + i] == t);
            } else if k == 2 {
                assert(all[r0.len() + r1.len() + i] == t);
            } else {
                assert(all[r0.len() + r1.len() + r2.len() + i] == t);
            }
        }
        if all.contains(t) {
            let i = choose|i: int| 0 <= i < all.len() && all[i] == t;
            let n0 = r0.len() as int;
            let n1 = n0 + r1.len();
            let n2 = n1 + r2.len();
            if i < n0 {
                assert(r0[i] == t);
            } else if i < n1 {
                assert(r1[i - n0] == t);
            } else if i < n2 {
                assert(r2[i - n1] == t);
            } else {
                assert(r3[i - n2] == t);
            }
        }
    }
}

proof fn lemma_grouped_tier(cs: Seq<ComponentView>, ts: Seq<Seq<char>>, t: Seq<char>)
    requires
        ts.no_duplicates(),
    ensures
        of_tier(grouped(cs, ts), t) == (if ts.contains(t) {
            of_tier(cs, t)
        } else {
            Seq::empty()
        }),
    decreases ts.len(),
{
    if ts.len() > 0 {
        let front = ts.drop_last();
        let u = ts.last();
        assert(front.no_duplicates());
        lemma_grouped_tier(cs, front, t);
        lemma_of_tier_add(grouped(cs, front), of_tier(cs, u), t);
        lemma_of_tier_twice(cs, u, t);
        if u == t {
            assert(ts[ts.len() - 1] == t);
            if front.contains(t) {
                let k = choose|k: int| 0 <= k < front.len() && front[k] == t;
                assert(ts[k] == ts[ts.len() - 1]);
            }
            assert(Seq::<ComponentView>::empty() + of_tier(cs, t) =~= of_tier(cs, t));
        } else {
            if front.contains(t) {
                let k = choose|k: int| 0 <= k < front.len() && front[k] == t;
                assert(ts[k] == t);
            }
            if ts.contains(t) {
                let k = choose|k: int| 0 <= k < ts.len() && ts[k] == t;
                assert(front[k] == t);
            }
            assert(of_tier(grouped(cs, front), t) + Seq::<ComponentView>::empty() =~= of_tier(
                grouped(cs, front),
                t,
            ));
        }
    } else {
        assert(grouped(cs, ts) =~= Seq::empty());
    }
}

/// Within each tier a checklist lists the components in their order, all of
/// them and no others.
pub proof fn law_listing_keeps_each_tier(cs: Seq<ComponentView>, t: Seq<char>)
    ensures
        of_tier(listed(cs), t) == of_tier(cs, t),
{
    let seen = checklist::tiers_seen(cs);
    lemma_tiers_seen_distinct(cs);
    lemma_by_rank(seen);
    lemma_of_tier_members(cs, t);
    assert(seen.contains(t) <==> checklist::by_rank(seen).contains(t));
    lemma_grouped_tier(cs, checklist::by_rank(seen), t);
    if !seen.contains(t) {
        assert(of_tier(cs, t) =~= Seq::empty());
    }
}

proof fn lemma_tiers_seen_add(a: Seq<ComponentView>, b: Seq<ComponentView>, t: Seq<char>)
    requires
        b.len() > 0,
        forall|i: int| 0 <= i < b.len() ==> (#[trigger] b[i]).tier == t,
        !checklist::tiers_seen(a).contains(t),
    ensures
        checklist::tiers_seen(a + b) == checklist::tiers_seen(a).push(t),
    decreases b.len(),
{
    let front = b.drop_last();
    assert((a + b).drop_last() =~= a + front);
    assert(b[b.len() - 1].tier == t);
    let seen = checklist::tiers_seen(a);
    if front.len() == 0 {
        assert(a + front =~= a);
    } else {
        assert forall|i: int| 0 <= i < front.len() implies (#[trigger] front[i]).tier == t by {
            assert(b[i].tier == t);
        }
        lemma_tiers_seen_add(a, front, t);
        assert(seen.push(t)[seen.len() as int] == t);
    }
}

proof fn lemma_tiers_seen_grouped(cs: Seq<ComponentView>, ts: Seq<Seq<char>>)
    requires
        ts.no_duplicates(),
        forall|i: int| 0 <= i < ts.len() ==> of_tier(cs, #[trigger] ts[i]).len() > 0,
    ensures
        checklist::tiers_seen(grouped(cs, ts)) == ts,
    decreases ts.len(),
{
    if ts.len() == 0 {
        assert(ts =~= Seq::empty());
    } else {
        let front = ts.drop_last();
        let t = ts.last();
        assert(front.no_duplicates());
        assert forall|i: int| 0 <= i < front.len() implies of_tier(cs, #[trigger] front[i]).len()
            > 0 by {
            assert(of_tier(cs, ts[i]).len() > 0);
        }
        lemma_tiers_seen_grouped(cs, front);
        lemma_of_tier_members(cs, t);
        assert(of_tier(cs, ts[ts.len() - 1]).len() > 0);
        if front.contains(t) {
            let k = choose|k: int| 0 <= k < front.len() && front[k] == t;
            assert(ts[k] == ts[ts.len() - 1]);
        }
        lemma_tiers_seen_add(grouped(cs, front), of_tier(cs, t), t);
        assert(front.push(t) =~= ts);
    }
}

proof fn lemma_of_rank_add(a: Seq<Seq<char>>, b: Seq<Seq<char>>, k: nat)
    ensures
        checklist::of_rank(a + b, k) == checklist::of_rank(a, k) + checklist::of_rank(b, k),
    decreases b.len(),
{
    reveal(Seq::filter);
    if b.len() == 0 {
        assert(a + b =~= a);
        assert(checklist::of_rank(a, k) + checklist::of_rank(b, k) =~= checklist::of_rank(a, k));
    } else {
        lemma_of_rank_add(a, b.drop_last(), k);
        assert((a + b).drop_last() =~= a + b.drop_last());
        assert(checklist::of_rank(a + b, k) =~= checklist::of_rank(a, k) + checklist::of_rank(
            b,
            k,
        ));
    }
}

proof fn lemma_of_rank_twice(ts: Seq<Seq<char>>, j: nat, k: nat)
    ensures
        checklist::of_rank(checklist::of_rank(ts, j), k) == (if j == k {
            checklist::of_rank(ts, k)
        } else {
            Seq::empty()
        }),
    decreases ts.len(),
{
    reveal(Seq::filter);
    if ts.len() > 0 {
        lemma_of_rank_twice(ts.drop_last(), j, k);
        let front = checklist::of_rank(ts.drop_last(), j);
        if checklist::rank_of(ts.last()) == j {
            assert(front.push(ts.last()).drop_last() =~= front);
        }
    }
}

proof fn lemma_of_rank_by_rank(ts: Seq<Seq<char>>, k: nat)
    requires
        k < 4,
    ensures
        checklist::of_rank(checklist::by_rank(ts), k) == checklist::of_rank(ts, k),
{
    let r0 = checklist::of_rank(ts, 0);
    let r1 = checklist::of_rank(ts, 1);
    let r2 = checklist::of_rank(ts, 2);
    let r3 = checklist::of_rank(ts, 3);
    lemma_of_rank_add(r0 + r1 + r2, r3, k);
    lemma_of_rank_add(r0 + r1, r2, k);
    lemma_of_rank_add(r0, r1, k);
    lemma_of_rank_twice(ts, 0, k);
    lemma_of_rank_twice(ts, 1, k);
    lemma_of_rank_twice(ts, 2, k);
    lemma_of_rank_twice(ts, 3, k);
    assert(checklist::of_rank(checklist::by_rank(ts), k) =~= checklist::of_rank(ts, k));
}

proof fn lemma_tier_items_own(cs: Seq<ComponentView>, t: Seq<char>)
    ensures
        checklist::tier_items(of_tier(cs, t), t) == checklist::tier_items(cs, t),
    decreases cs.len(),
{
    if cs.len() > 0 {
        lemma_tier_items_own(cs.drop_last(), t);
        let front = of_tier(cs.drop_last(), t);
        if cs.last().tier == t {
            assert(front.push(cs.last()).drop_last() =~= front);
        }
    }
}

proof fn lemma_tier_lines_listed(cs: Seq<ComponentView>, ts: Seq<Seq<char>>)
    ensures
        checklist::tier_lines(listed(cs), ts) == checklist::tier_lines(cs, ts),
    decreases ts.len(),
{
    if ts.len() > 0 {
        lemma_tier_lines_listed(cs, ts.drop_last());
        law_listing_keeps_each_tier(cs, ts.last());
        lemma_tier_items_own(cs, ts.last());
        lemma_tier_items_own(listed(cs), ts.last());
    }
}

proof fn lemma_grouped_members(cs: Seq<ComponentView>, ts: Seq<Seq<char>>)
    requires
        all_canonical(cs),
    ensures
        all_canonical(grouped(cs, ts)),
    decreases ts.len(),
{
    if ts.len() > 0 {
        lemma_grouped_members(cs, ts.drop_last());
        let a = grouped(cs, ts.drop_last());
        let b = of_tier(cs, ts.last());
        lemma_of_tier_members(cs, ts.last());
        assert forall|i: int| 0 <= i < (a + b).len() implies canonical(#[trigger] (a + b)[i]) by {
            if i < a.len() {
                assert(canonical(a[i]));
            } else {
                assert(cs.contains(b[i - a.len()]));
            }
        }
    }
}

proof fn lemma_listed_tiers(cs: Seq<ComponentView>)
    ensures
        checklist::tiers_seen(listed(cs)) == checklist::by_rank(checklist::tiers_seen(cs)),
{
    let seen = checklist::tiers_seen(cs);
    let ts = checklist::by_rank(seen);
    lemma_tiers_seen_distinct(cs);
    lemma_by_rank(seen);
    assert forall|i: int| 0 <= i < ts.len() implies of_tier(cs, #[trigger] ts[i]).len() > 0 by {
        assert(ts.contains(ts[i]));
        assert(seen.contains(ts[i]));
        lemma_of_tier_members(cs, ts[i]);
    }
    lemma_tiers_seen_grouped(cs, ts);
}

proof fn lemma_by_rank_twice(ts: Seq<Seq<char>>)
    ensures
        checklist::by_rank(checklist::by_rank(ts)) == checklist::by_rank(ts),
{
    lemma_of_rank_by_rank(ts, 0);
    lemma_of_rank_by_rank(ts, 1);
    lemma_of_rank_by_rank(ts, 2);
    lemma_of_rank_by_rank(ts, 3);
}

proof fn lemma_first_tier(cs: Seq<ComponentView>)
    requires
        cs.len() > 0,
    ensures
        of_tier(cs, cs[0].tier).len() > 0,
    decreases cs.len(),
{
    if cs.len() > 1 {
        lemma_first_tier(cs.drop_last());
    }
}

proof fn lemma_listed_length(cs: Seq<ComponentView>)
    requires
        cs.len() > 0,
    ensures
        listed(cs).len() > 0,
{
    lemma_first_tier(cs);
    law_listing_keeps_each_tier(cs, cs[0].tier);
}

/// Writing what was read gives the text that was read: a checklist does not
/// drift when it is loaded and saved again.
pub proof fn law_rewriting_is_stable(cs: Seq<ComponentView>)
    requires
        cs.len() > 0,
        all_canonical(cs),
    ensures
        checklist::rendered(listed(cs)) == checklist::rendered(cs),
{
    let ts = checklist::by_rank(checklist::tiers_seen(cs));
    assert(checklist::checklist_lines(listed(cs)) == checklist::checklist_lines(cs)) by {
        lemma_listed_tiers(cs);
        lemma_by_rank_twice(checklist::tiers_seen(cs));
        lemma_tier_lines_listed(cs, ts);
    }
    lemma_no_fault(cs);
    lemma_grouped_members(cs, ts);
    lemma_no_fault(listed(cs));
    lemma_listed_length(cs);
}

proof fn lemma_of_tier_filter(cs: Seq<ComponentView>, t: Seq<char>)
    ensures
        of_tier(cs, t) == cs.filter(|c: ComponentView| c.tier == t),
    decreases cs.len(),
{
    reveal(Seq::filter);
    if cs.len() > 0 {
        lemma_of_tier_filter(cs.drop_last(), t);
    }
}

proof fn lemma_filter_has(cs: Seq<ComponentView>, c: ComponentView)
    ensures
        cs.filter(|x: ComponentView| x.tier == c.tier).contains(c) <==> cs.contains(c),
    decreases cs.len(),
{
    reveal(Seq::filter);
    let f = |x: ComponentView| x.tier == c.tier;
    if cs.len() > 0 {
        let front = cs.drop_last();
        lemma_filter_has(front, c);
        let before = front.filter(f);
        let all = cs.filter(f);
        assert(cs[cs.len() - 1] == cs.last());
        if front.contains(c) {
            let i = choose|i: int| 0 <= i < front.len() && front[i] == c;
            assert(cs[i] == c);
            let k = choose|k: int| 0 <= k < before.len() && before[k] == c;
            assert(all[k] == c);
        }
        if cs.contains(c) && c != cs.last() {
            let i = choose|i: int| 0 <= i < cs.len() && cs[i] == c;
            assert(front[i] == c);
        }
        if c == cs.last() {
            assert(all[all.len() - 1] == c);
        }
        if all.contains(c) && !before.contains(c) {
            let k = choose|k: int| 0 <= k < all.len() && all[k] == c;
            if k < before.len() {
                assert(before[k] == c);
            }
        }
    }
}

/// A checklist lists every component and no other.
pub proof fn law_listing_keeps_every_component(cs: Seq<ComponentView>, c: ComponentView)
    ensures
        listed(cs).contains(c) <==> cs.contains(c),
        listed(cs).filter(|x: ComponentView| x.tier == c.tier) == cs.filter(
            |x: ComponentView| x.tier == c.tier,
        ),
{
    law_listing_keeps_each_tier(cs, c.tier);
    lemma_of_tier_filter(cs, c.tier);
    lemma_of_tier_filter(listed(cs), c.tier);
    lemma_filter_has(cs, c);
    lemma_filter_has(listed(cs), c);
}

} // verus!
