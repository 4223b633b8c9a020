//! Dimension values: a length in pixels, a percentage, or neither.

use crate::chars::{
    all_spaces, char_is_whitespace, is_ascii_digit, is_digit, is_html_space,
    lemma_leading_spaces_unique, to_chars, trim_start,
};
use vstd::prelude::*;

verus! {

/// How many characters a number takes at the start of `s`: digits, and one
/// full stop among them unless `seen_point` says that it came before.
pub open spec fn number_run(s: Seq<char>, seen_point: bool) -> nat
    decreases s.len(),
{
    if s.len() == 0 {
        0
    } else if is_ascii_digit(s[0]) {
        1 + number_run(s.drop_first(), seen_point)
    } else if s[0] == '.' && !seen_point {
        1 + number_run(s.drop_first(), true)
    } else {
        0
    }
}

/// The length of the longest prefix of `s` that holds only digits and at
/// most one full stop.
pub open spec fn number_len(s: Seq<char>) -> nat {
    number_run(s, false)
}

/// Whether `s` is a number as a dimension holds it: it begins with a digit
/// and holds only digits and at most one full stop.
pub open spec fn is_number(s: Seq<char>) -> bool {
    s.len() > 0 && is_ascii_digit(s[0]) && number_len(s) == s.len()
}

/// A non-negative decimal number, kept as the digits it was written with,
/// so that no digit is lost. Its view is that text: digits with at most one
/// full stop, not in first place.
#[derive(Debug, PartialEq, Eq)]
pub struct Number {
    text: String,
}

impl View for Number {
    type V = Seq<char>;

    closed spec fn view(&self) -> Seq<char> {
        self.text@
    }
}

/// What a dimension value holds, over the characters of its numbers.
pub enum Dimension {
    Auto,
    Percentage(Seq<char>),
    Length(Seq<char>),
}

/// A dimension: a length in pixels, a percentage, or `Auto` where the text
/// gave neither. `Percentage` holds the number that stood before the percent
/// sign, so `Percentage` of `50` is one half: the fraction is the number over
/// one hundred.
#[derive(Debug, PartialEq, Eq)]
pub enum LengthOrPercentageOrAuto {
    Auto,
    Percentage(Number),
    Length(Number),
}

impl View for LengthOrPercentageOrAuto {
    type V = Dimension;

    open spec fn view(&self) -> Dimension {
        match self {
            LengthOrPercentageOrAuto::Auto => Dimension::Auto,
            LengthOrPercentageOrAuto::Percentage(n) => Dimension::Percentage(n@),
            LengthOrPercentageOrAuto::Length(n) => Dimension::Length(n@),
        }
    }
}

/// `s` without the `+` that it may begin with.
pub open spec fn strip_plus(s: Seq<char>) -> Seq<char> {
    if s.len() > 0 && s[0] == '+' {
        s.drop_first()
    } else {
        s
    }
}

/// The dimension that `value` stands for. Leading space characters and one
/// `+` are passed over. If a digit follows, the number runs as far as digits
/// and one full stop go; a percent sign right after it makes a percentage,
/// and whatever else follows is left unread.
pub open spec fn dimension(value: Seq<char>) -> Dimension {
    let s = strip_plus(trim_start(value));
    if s.len() == 0 || !is_ascii_digit(s[0]) {
        Dimension::Auto
    } else if number_len(s) < s.len() && s[number_len(s) as int] == '%' {
        Dimension::Percentage(s.take(number_len(s) as int))
    } else {
        Dimension::Length(s.take(number_len(s) as int))
    }
}

/// A run never passes the end of the text.
pub proof fn lemma_number_run_bound(s: Seq<char>, seen_point: bool)
    ensures
        number_run(s, seen_point) <= s.len(),
    decreases s.len(),
{
    if s.len() > 0 {
        lemma_number_run_bound(s.drop_first(), seen_point);
        lemma_number_run_bound(s.drop_first(), true);
    }
}

/// The prefix that a run takes is itself one whole run.
pub proof fn lemma_number_run_prefix(s: Seq<char>, seen_point: bool)
    ensures
        number_run(s.take(number_run(s, seen_point) as int), seen_point) == number_run(
            s,
            seen_point,
        ),
    decreases s.len(),
{
    lemma_number_run_bound(s, seen_point);
    let n = number_run(s, seen_point) as int;
    if n > 0 {
        let next = if is_ascii_digit(s[0]) {
            seen_point
        } else {
            true
        };
        lemma_number_run_prefix(s.drop_first(), next);
        assert(s.take(n).drop_first() == s.drop_first().take(n - 1));
    }
}

/// Where the number that starts at `start` ends.
fn number_end(chars: &Vec<char>, start: usize) -> (end: usize)
    requires
        start <= chars.len(),
    ensures
        start <= end <= chars.len(),
        end - start == number_len(chars@.skip(start as int)),
{
    let ghost s = chars@.skip(start as int);
    let mut end: usize = start;
    let mut seen_point = false;
    assert(s.skip(0) == s);
    while end < chars.len() && (is_digit(chars[end]) || (chars[end] == '.' && !seen_point))
        invariant
            start <= end <= chars.len(),
            s == chars@.skip(start as int),
            number_len(s) == (end - start) + number_run(s.skip(end - start), seen_point),
        decreases chars.len() - end,
    {
        proof {
            assert(s.skip(end - start).drop_first() == s.skip(end - start + 1));
        }
        if chars[end] == '.' {
            seen_point = true;
        }
        end = end + 1;
    }
    end
}

impl Number {
    #[verifier::type_invariant]
    closed spec fn well_formed(&self) -> bool {
        is_number(self.text@)
    }

    /// The number written as `text`, if `text` is one: digits with at most
    /// one full stop, not in first place.
    pub fn new(text: &str) -> (r: Option<Number>)
        ensures
            r is Some <==> is_number(text@),
            r matches Some(n) ==> n@ == text@,
    {
        let chars = to_chars(text);
        assert(chars@.skip(0) == chars@);
        if chars.len() > 0 && is_digit(chars[0]) && number_end(&chars, 0) == chars.len() {
            Some(Number { text: text.to_owned() })
        } else {
            None
        }
    }

    /// The number as it is written.
    pub fn as_str(&self) -> (r: &str)
        ensures
            r@ == self@,
            is_number(r@),
    {
        proof {
            use_type_invariant(self);
        }
        self.text.as_str()
    }
}

impl Clone for Number {
    fn clone(&self) -> (r: Self)
        ensures
            r@ == self@,
    {
        proof {
            use_type_invariant(self);
        }
        Number { text: self.text.clone() }
    }
}

impl Clone for LengthOrPercentageOrAuto {
    fn clone(&self) -> (r: Self)
        ensures
            r@ == self@,
    {
        match self {
            LengthOrPercentageOrAuto::Auto => LengthOrPercentageOrAuto::Auto,
            LengthOrPercentageOrAuto::Percentage(n) => LengthOrPercentageOrAuto::Percentage(
                n.clone(),
            ),
            LengthOrPercentageOrAuto::Length(n) => LengthOrPercentageOrAuto::Length(n.clone()),
        }
    }
}

/// Parses a dimension value. Text that holds none gives `Auto`: that is
/// text which, after leading space characters and one `+`, does not go on
/// with a digit. Otherwise the number is read as far as it goes, and what
/// follows it matters only where it is a percent sign.
pub fn parse_length(value: &str) -> (r: LengthOrPercentageOrAuto)
    ensures
        r@ == dimension(value@),
{
    let chars = to_chars(value);
    let mut start: usize = 0;
    while start < chars.len() && char_is_whitespace(chars[start])
        invariant
            start <= chars.len(),
            forall|i: int| 0 <= i < start ==> is_html_space(#[trigger] chars@[i]),
        decreases chars.len() - start,
    {
        start = start + 1;
    }
    proof {
        lemma_leading_spaces_unique(chars@, start as int);
    }
    if start < chars.len() && chars[start] == '+' {
        start = start + 1;
    }
    let ghost s = strip_plus(trim_start(value@));
    assert(s == chars@.skip(start as int));
    if start == chars.len() || !is_digit(chars[start]) {
        return LengthOrPercentageOrAuto::Auto;
    }
    let end = number_end(&chars, start);
    proof {
        lemma_number_run_prefix(s, false);
        assert(chars@.subrange(start as int, end as int) == s.take(number_len(s) as int));
        assert(s.take(number_len(s) as int)[0] == s[0]);
    }
    let number = Number { text: value.substring_char(start, end).to_owned() };
    if end < chars.len() && chars[end] == '%' {
        LengthOrPercentageOrAuto::Percentage(number)
    } else {
        LengthOrPercentageOrAuto::Length(number)
    }
}

/// A dimension that may not be zero: `Auto` in place of `d` where `zero`
/// says that `d` is zero, and `d` itself where it is not. Whether a length or
/// a percentage is zero is asked of its rounded value, a whole count of
/// units or a float, which the caller has and hands in.
pub fn nonzero_dimension(d: LengthOrPercentageOrAuto, zero: bool) -> (r: LengthOrPercentageOrAuto)
    ensures
        r@ == (if zero {
            Dimension::Auto
        } else {
            d@
        }),
{
    if zero {
        LengthOrPercentageOrAuto::Auto
    } else {
        d
    }
}

/// Text of nothing but space characters holds no dimension.
pub proof fn lemma_spaces_are_auto(value: Seq<char>)
    requires
        all_spaces(value),
    ensures
        dimension(value) == Dimension::Auto,
{
    lemma_leading_spaces_unique(value, value.len() as int);
}

/// What a dimension holds is a number: it begins with a digit and holds
/// only digits and at most one full stop.
pub proof fn lemma_dimension_holds_number(value: Seq<char>)
    ensures
        match dimension(value) {
            Dimension::Auto => true,
            Dimension::Percentage(n) => is_number(n),
            Dimension::Length(n) => is_number(n),
        },
{
    let s = strip_plus(trim_start(value));
    if s.len() > 0 && is_ascii_digit(s[0]) {
        lemma_number_run_bound(s, false);
        lemma_number_run_prefix(s, false);
        assert(s.take(number_len(s) as int)[0] == s[0]);
    }
}

/// A run that takes all of `s` ends there, if what follows can be no part
/// of a number.
proof fn lemma_number_run_stops(s: Seq<char>, t: Seq<char>, seen_point: bool)
    requires
        number_run(s, seen_point) == s.len(),
        t.len() == 0 || (!is_ascii_digit(t[0]) && t[0] != '.'),
    ensures
        number_run(s + t, seen_point) == s.len(),
    decreases s.len(),
{
    if s.len() > 0 {
        let next = if is_ascii_digit(s[0]) {
            seen_point
        } else {
            true
        };
        lemma_number_run_stops(s.drop_first(), t, next);
        assert((s + t).drop_first() == s.drop_first() + t);
    } else {
        assert(s + t == t);
    }
}

/// A number, written out and parsed again, is the same number: as a
/// length where nothing follows it, as a percentage where a percent sign
/// does.
pub proof fn lemma_dimension_of_number(n: Seq<char>)
    requires
        is_number(n),
    ensures
        dimension(n) == Dimension::Length(n),
        dimension(n + seq!['%']) == Dimension::Percentage(n),
{
    let p = n + seq!['%'];
    lemma_leading_spaces_unique(n, 0);
    lemma_leading_spaces_unique(p, 0);
    assert(n.skip(0) == n);
    assert(p.skip(0) == p);
    assert(n.take(n.len() as int) == n);
    lemma_number_run_stops(n, seq!['%'], false);
    assert(p.take(n.len() as int) == n);
}

} // verus!
