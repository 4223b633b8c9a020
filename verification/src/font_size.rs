//! Legacy font sizes: a size from 1 to 7, or a step up or down from 3,
//! named by one of seven keywords.

use crate::chars::{
    is_ascii_digit, is_html_space, leading_spaces, lemma_leading_spaces, lemma_trailing_spaces,
    lemma_trailing_spaces_unique, trailing_spaces, trim, trim_end, trim_start,
};
use crate::integer::{
    digit_run, leading_number, lemma_digit_run, lemma_digit_run_unique, read_numbers,
    skip_whitespace, stream,
};
use vstd::prelude::*;
use vstd::std_specs::iter::IteratorSpec;

verus! {

/// The size that `s` asks for, ahead of its clamping to the seven sizes:
/// the number that the trimmed text begins with, or 3 more or less that
/// number where a `+` or `-` stands before it. `None` where no digit stands
/// after the optional sign, or the digits write more than a signed 64-bit
/// integer holds.
pub open spec fn font_size_level(s: Seq<char>) -> Option<int> {
    let t = trim(s);
    if t.len() == 0 {
        None
    } else if t[0] == '+' {
        match leading_number(t.drop_first()) {
            Some(v) => Some(3 + v),
            None => None,
        }
    } else if t[0] == '-' {
        match leading_number(t.drop_first()) {
            Some(v) => Some(3 - v),
            None => None,
        }
    } else {
        leading_number(t)
    }
}

/// The keyword of a size: those of 1 to 7 from `x-small` to `xxx-large`,
/// with every smaller size as 1 and every larger one as 7.
pub open spec fn font_size_keyword(level: int) -> Seq<char> {
    if level >= 7 {
        "xxx-large"@
    } else if level == 6 {
        "xx-large"@
    } else if level == 5 {
        "x-large"@
    } else if level == 4 {
        "large"@
    } else if level == 3 {
        "medium"@
    } else if level == 2 {
        "small"@
    } else {
        "x-small"@
    }
}

/// The keyword of the legacy font size that `s` holds, if it holds one.
pub open spec fn legacy_font_size(s: Seq<char>) -> Option<Seq<char>> {
    match font_size_level(s) {
        Some(level) => Some(font_size_keyword(level)),
        None => None,
    }
}

/// Space characters at the end of a text change nothing of the number that
/// it begins with.
pub proof fn lemma_leading_number_trim_end(s: Seq<char>)
    ensures
        leading_number(trim_end(s)) == leading_number(s),
{
    let t = trim_end(s);
    let n = digit_run(s) as int;
    lemma_trailing_spaces(s);
    lemma_digit_run(s);
    if n > t.len() {
        assert(is_html_space(s[t.len() as int]));
    }
    assert forall|i: int| 0 <= i < n implies is_ascii_digit(#[trigger] t[i]) by {
        assert(t[i] == s[i]);
    }
    if n < t.len() {
        assert(t[n] == s[n]);
    }
    lemma_digit_run_unique(t, n);
    assert(t.take(n) == s.take(n));
}

/// What `trim` leaves of a text whose leading spaces are gone already: it
/// is empty only if the text is, begins as the text does, and goes on after
/// its first character as the text does, but for the spaces at the end.
proof fn lemma_trim_of_trimmed_start(s: Seq<char>)
    ensures
        trim(s).len() == 0 <==> trim_start(s).len() == 0,
        trim(s).len() > 0 ==> trim(s)[0] == trim_start(s)[0],
        trim(s).len() > 0 ==> trim(s).drop_first() == trim_end(trim_start(s).drop_first()),
{
    let t = trim_start(s);
    lemma_leading_spaces(s);
    lemma_trailing_spaces(t);
    if t.len() > 0 {
        assert(t[0] == s[leading_spaces(s) as int]);
        assert(!is_html_space(t[0]));
        let k = trailing_spaces(t) as int;
        if k == t.len() {
            assert(is_html_space(t[0]));
        }
        let u = t.drop_first();
        assert forall|i: int| u.len() - k <= i < u.len() implies is_html_space(#[trigger] u[i]) by {
            assert(u[i] == t[i + 1]);
        }
        if k < u.len() {
            assert(u[u.len() - k - 1] == t[t.len() - k - 1]);
        }
        lemma_trailing_spaces_unique(u, k);
        assert(trim(s).drop_first() == trim_end(u));
    }
}

/// The keyword of the size `level`.
fn keyword(level: i64) -> (r: &'static str)
    ensures
        r@ == font_size_keyword(level as int),
{
    if level >= 7 {
        "xxx-large"
    } else if level == 6 {
        "xx-large"
    } else if level == 5 {
        "x-large"
    } else if level == 4 {
        "large"
    } else if level == 3 {
        "medium"
    } else if level == 2 {
        "small"
    } else {
        "x-small"
    }
}

/// Parses a legacy font size: a number, or a number after `+` or `-` that
/// counts up or down from 3, between space characters. The result is the
/// keyword of the size, from `x-small` for 1 and less to `xxx-large` for 7
/// and more. `None` where no digit stands after the optional sign, and
/// where the digits write more than a signed 64-bit integer holds.
pub fn parse_legacy_font_size(input: &str) -> (r: Option<&'static str>)
    ensures
        match r {
            Some(keyword) => legacy_font_size(input@) == Some(keyword@),
            None => legacy_font_size(input@) is None,
        },
{
    let (head, rest) = skip_whitespace(input.chars());
    proof {
        lemma_trim_of_trimmed_start(input@);
        lemma_leading_number_trim_end(trim_start(input@));
    }
    let first = match head {
        Some(c) => c,
        None => {
            return None;
        },
    };
    if first == '+' || first == '-' {
        let mut digits = rest;
        let next = digits.next();
        proof {
            let after_sign = trim_start(input@).drop_first();
            assert(stream(next, digits.remaining()) == after_sign);
            lemma_leading_number_trim_end(after_sign);
        }
        match read_numbers(next, digits) {
            Some(value) => {
                if first == '-' {
                    Some(keyword(3 - value))
                } else if value >= 4 {
                    Some(keyword(7))
                } else {
                    Some(keyword(3 + value))
                }
            },
            None => None,
        }
    } else {
        match read_numbers(head, rest) {
            Some(value) => Some(keyword(value)),
            None => None,
        }
    }
}

} // verus!
