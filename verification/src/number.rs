//! Decimal numbers as text.

use vstd::prelude::*;
use crate::text;
use crate::text::{chars_of, string_of, Draft};

verus! {

/// The character of a decimal digit.
pub open spec fn digit(d: nat) -> char {
    ('0' as int + d) as char
}

/// The value of a decimal digit.
pub open spec fn digit_value(c: char) -> nat {
    (c as int - '0' as int) as nat
}

/// `n` in decimal, without leading zeros.
pub open spec fn decimal(n: nat) -> Seq<char>
    decreases n,
{
    if n < 10 {
        seq![digit(n)]
    } else {
        decimal(n / 10).push(digit(n % 10))
    }
}

/// The number that a sequence of digits stands for.
pub open spec fn value(s: Seq<char>) -> nat
    decreases s.len(),
{
    if s.len() == 0 {
        0
    } else {
        value(s.drop_last()) * 10 + digit_value(s.last())
    }
}

pub open spec fn all_digits(s: Seq<char>) -> bool {
    forall|i: int| 0 <= i < s.len() ==> text::is_digit(#[trigger] s[i])
}

/// The digits of an unsigned number: `s` without one leading plus sign.
pub open spec fn unsigned_digits(s: Seq<char>) -> Seq<char> {
    if s.len() > 0 && s[0] == '+' {
        s.skip(1)
    } else {
        s
    }
}

/// The unsigned number that `s` stands for: an optional plus sign and at least
/// one digit, nothing else, and a value of at most `max`.
pub open spec fn parsed(s: Seq<char>, max: nat) -> Option<nat> {
    let d = unsigned_digits(s);
    if d.len() > 0 && all_digits(d) && value(d) <= max {
        Some(value(d))
    } else {
        None
    }
}

fn digit_char(d: u64) -> (c: char)
    requires
        d < 10,
    ensures
        c == digit(d as nat),
{
    (48u8 + d as u8) as char
}

/// `n` in decimal.
pub fn to_decimal(n: u64) -> (r: String)
    ensures
        r@ == decimal(n as nat),
{
    wide_to_decimal(n as u128)
}

/// `n` in decimal.
pub fn wide_to_decimal(n: u128) -> (r: String)
    ensures
        r@ == decimal(n as nat),
{
    let mut back: Vec<char> = Vec::new();
    let mut m: u128 = n;
    let ghost mut tail: Seq<char> = Seq::empty();
    while m >= 10
        invariant
            decimal(n as nat) == decimal(m as nat) + tail,
            back@.reverse() == tail,
        decreases m,
    {
        let d: u64 = (m % 10) as u64;
        back.push(digit_char(d));
        proof {
            let was = tail;
            tail = seq![digit(d as nat)] + was;
            assert(decimal(m as nat) =~= decimal((m / 10) as nat).push(digit(d as nat)));
            assert(decimal((m / 10) as nat) + tail =~= decimal(m as nat) + was);
            assert(back@.reverse() =~= tail);
        }
        m = m / 10;
    }
    back.push(digit_char(m as u64));
    proof {
        assert(decimal(m as nat) =~= seq![digit(m as nat)]);
        assert(back@.reverse() =~= decimal(m as nat) + tail);
    }
    let mut out: Vec<char> = Vec::new();
    let mut i: usize = back.len();
    while i > 0
        invariant
            i <= back.len(),
            out@ == back@.reverse().take(back.len() - i),
        decreases i,
    {
        i = i - 1;
        out.push(back[i]);
        assert(back@.reverse().take(back.len() - i) =~= back@.reverse().take(back.len() - i - 1).push(
            back@[i as int],
        ));
    }
    assert(out@ =~= back@.reverse());
    string_of(&out)
}

proof fn lemma_value_grows(s: Seq<char>, k: int)
    requires
        0 <= k <= s.len(),
        all_digits(s),
    ensures
        value(s.take(k)) <= value(s),
    decreases s.len(),
{
    if k < s.len() {
        assert(s.drop_last().take(k) =~= s.take(k));
        lemma_value_grows(s.drop_last(), k);
    } else {
        assert(s.take(k) =~= s);
    }
}

/// The unsigned number that `s` stands for, where it is at most `max`.
pub fn parse_unsigned(s: &str, max: u64) -> (r: Option<u64>)
    ensures
        match r {
            Some(n) => parsed(s@, max as nat) == Some(n as nat),
            None => parsed(s@, max as nat) is None,
        },
{
    let x: Vec<char> = chars_of(s);
    let from: usize = if x.len() > 0 && x[0] == '+' {
        1
    } else {
        0
    };
    let ghost d = unsigned_digits(s@);
    assert(s@.skip(0) =~= s@);
    assert(d == s@.skip(from as int));
    if from == x.len() {
        return None;
    }
    let mut n: u64 = 0;
    let mut i: usize = from;
    while i < x.len()
        invariant
            from <= i <= x.len(),
            x@ == s@,
            d == unsigned_digits(s@),
            d == s@.skip(from as int),
            forall|j: int| 0 <= j < i - from ==> text::is_digit(#[trigger] d[j]),
            n == value(d.take(i - from)),
            n <= max,
        decreases x.len() - i,
    {
        let c: char = x[i];
        assert(c == d[i - from]);
        if !('0' <= c && c <= '9') {
            return None;
        }
        let v: u64 = (c as u32 - 48) as u64;
        assert(d.take(i + 1 - from).drop_last() =~= d.take(i - from));
        let next: u128 = (n as u128) * 10 + (v as u128);
        assert(next == value(d.take(i + 1 - from)));
        if next > max as u128 {
            proof {
                if all_digits(d) {
                    lemma_value_grows(d, i + 1 - from);
                }
            }
            return None;
        }
        n = next as u64;
        i = i + 1;
    }
    assert(d.take(x.len() - from) =~= d);
    Some(n)
}

/// The decimal of a number is made of digits and stands for that number.
pub proof fn lemma_decimal(n: nat)
    ensures
        decimal(n).len() > 0,
        all_digits(decimal(n)),
        value(decimal(n)) == n,
    decreases n,
{
    if n < 10 {
        let s = seq![digit(n)];
        assert(s.drop_last() =~= Seq::empty());
        assert(value(s.drop_last()) == 0);
    } else {
        lemma_decimal(n / 10);
        let s = decimal(n);
        assert(s.drop_last() =~= decimal(n / 10));
        assert forall|i: int| 0 <= i < s.len() implies text::is_digit(#[trigger] s[i]) by {
            if i < s.len() - 1 {
                assert(text::is_digit(decimal(n / 10)[i]));
            }
        }
    }
}

/// A number of `k` digits is below ten to the `k`, for small `k`.
pub proof fn lemma_value_bound(s: Seq<char>)
    ensures
        all_digits(s) && s.len() <= 0 ==> value(s) < 1,
        all_digits(s) && s.len() <= 1 ==> value(s) < 10,
        all_digits(s) && s.len() <= 2 ==> value(s) < 100,
{
    if 0 < s.len() <= 2 && all_digits(s) {
        assert(text::is_digit(s[s.len() - 1]));
        let front = s.drop_last();
        if front.len() > 0 {
            assert(text::is_digit(s[0]));
            assert(front.last() == s[0]);
            assert(front.drop_last().len() == 0);
            assert(value(front.drop_last()) == 0);
            assert(value(front) == digit_value(s[0]));
            assert(value(s) == value(front) * 10 + digit_value(s[1]));
        } else {
            assert(value(front) == 0);
        }
    }
}

/// A whole number in decimal, with a sign where it is negative.
pub open spec fn signed(n: int) -> Seq<char> {
    if n < 0 {
        "-"@ + decimal((-n) as nat)
    } else {
        decimal(n as nat)
    }
}

/// `n` in decimal.
pub fn to_signed(n: i32) -> (r: String)
    ensures
        r@ == signed(n as int),
{
    if n < 0 {
        let m: i64 = -(n as i64);
        Draft::of("-").put(to_decimal(m as u64).as_str()).text
    } else {
        to_decimal(n as u64)
    }
}

/// A number that is written in decimal reads back as itself, with a plus sign
/// in front too, unless it is too large.
pub proof fn law_decimals_read_back(n: nat, max: nat)
    ensures
        parsed(decimal(n), max) == (if n <= max {
            Some(n)
        } else {
            None
        }),
        parsed("+"@ + decimal(n), max) == parsed(decimal(n), max),
{
    reveal_strlit("+");
    lemma_decimal(n);
    let s = decimal(n);
    assert(text::is_digit(s[0]));
    assert(("+"@ + s).skip(1) =~= s);
}

/// What holds anything but digits behind an optional plus sign is no number,
/// and neither is nothing.
pub proof fn law_only_digits_are_numbers(s: Seq<char>, max: nat, i: int)
    requires
        s.len() == 0 || (0 <= i < s.len() && !('0' <= s[i] <= '9') && !(i == 0 && s[i] == '+')),
    ensures
        parsed(s, max) is None,
{
    if s.len() > 0 {
        let d = unsigned_digits(s);
        if s[0] == '+' {
            assert(d[i - 1] == s[i]);
        } else {
            assert(d[i] == s[i]);
        }
    }
}

/// The value of digits: each new digit at the end counts once, and what stood
/// before it ten times as much as before.
pub proof fn law_value_of_digits(s: Seq<char>, c: char)
    requires
        '0' <= c <= '9',
    ensures
        value(s.push(c)) == 10 * value(s) + (c as int - 48),
        value(Seq::empty()) == 0,
{
    assert(s.push(c).drop_last() =~= s);
}

/// The sign of a whole number is written where it is negative.
pub proof fn law_signed(n: int)
    ensures
        n >= 0 ==> signed(n) == decimal(n as nat),
        n < 0 ==> signed(n).len() > 0 && signed(n)[0] == '-' && signed(n).skip(1) == decimal(
            (-n) as nat,
        ),
{
    reveal_strlit("-");
    if n < 0 {
        assert(signed(n).skip(1) =~= decimal((-n) as nat));
    }
}

} // verus!
