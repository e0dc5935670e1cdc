//! The time, as the texts that name entries of the timeline, branches and
//! archives.

use vstd::prelude::*;
use crate::text;
use crate::text::CharSet;

verus! {

/// The text may name a moment: only digits and what stands between the numbers
/// of a date and a time of day.
pub open spec fn moment(s: Seq<char>) -> bool {
    &&& s.len() > 0
    &&& forall|i: int|
        0 <= i < s.len() ==> text::is_digit(#[trigger] s[i]) || s[i] == '-' || s[i] == '+' || s[i]
            == ':' || s[i] == '.' || s[i] == 'T'
}

/// The text is a stamp: a date of at least eight digits, a hyphen, and a time of
/// day of six. A sign stands before a year of more than four digits.
pub open spec fn stamp(s: Seq<char>) -> bool {
    &&& s.len() >= 15
    &&& s[s.len() - 7] == '-'
    &&& text::is_digit(s[0]) || s[0] == '+'
    &&& forall|i: int| 0 < i < s.len() && i != s.len() - 7 ==> text::is_digit(#[trigger] s[i])
}

/// The form of a stamp, in the notation of `chrono`.
pub const STAMP_FORM: &'static str = "%Y%m%d-%H%M%S";

/// `chrono::Utc::now` and `DateTime::to_rfc3339`: the present moment as RFC 3339
/// has it. Which moment that is depends on the clock alone; of every text it
/// holds what [`moment`] says. A clock that stands before 1970 makes
/// `Utc::now` panic, which no caller can rule out.
#[verifier::external_body]
pub(crate) fn now_rfc3339() -> (r: String)
    ensures
        moment(r@),
{
    chrono::Utc::now().to_rfc3339()
}

/// `chrono::Utc::now` and `DateTime::format`: the present moment in the form of
/// a stamp. Which moment that is depends on the clock alone; of every text it
/// holds what [`stamp`] says. A clock that stands before 1970 makes `Utc::now`
/// panic, which no caller can rule out; other forms are not admitted.
#[verifier::external_body]
pub(crate) fn now_formatted(form: &str) -> (r: String)
    requires
        form@ == STAMP_FORM@,
    ensures
        stamp(r@),
{
    chrono::Utc::now().format(form).to_string()
}

/// A text that names a moment fits on a line.
pub proof fn lemma_moment_is_clean(s: Seq<char>)
    requires
        moment(s),
    ensures
        !text::has_char(s, CharSet::Control),
{
    assert forall|i: int| 0 <= i < s.len() implies !CharSet::Control.has(#[trigger] s[i]) by {}
}

/// A moment is made of digits and of the marks between them, and a stamp of two
/// groups of digits with a dash between them.
pub proof fn law_forms_of_moments(s: Seq<char>, i: int)
    requires
        0 <= i < s.len(),
    ensures
        moment(s) ==> text::is_digit(s[i]) || s[i] == '-' || s[i] == '+' || s[i] == ':' || s[i] == '.'
            || s[i] == 'T',
        stamp(s) ==> s.len() >= 15 && (text::is_digit(s[i]) || i == s.len() - 7 && s[i] == '-' || i == 0
            && s[i] == '+'),
        !moment(Seq::empty()) && !stamp(Seq::empty()),
{
}

/// Nothing but the marks and the digits makes a text a moment: any that is made
/// of them is one.
pub proof fn law_marks_of_moments(s: Seq<char>)
    ensures
        moment(s) <==> s.len() > 0 && forall|i: int|
            0 <= i < s.len() ==> text::is_digit(#[trigger] s[i]) || seq!['-', '+', ':', '.', 'T'].contains(
                s[i],
            ),
{
    let l = seq!['-', '+', ':', '.', 'T'];
    assert(l[0] == '-' && l[1] == '+' && l[2] == ':' && l[3] == '.' && l[4] == 'T');
}

} // verus!
