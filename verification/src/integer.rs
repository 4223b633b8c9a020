//! Integers as HTML reads them: optional space characters and sign, then
//! digits; whatever follows the digits is left unread.

use crate::chars::{
    char_is_whitespace, digit_value, is_ascii_digit, is_digit, lemma_leading_spaces, trim_start,
};
use vstd::prelude::*;
use vstd::std_specs::iter::IteratorSpec;

verus! {

/// The number of digits that `s` begins with.
pub open spec fn digit_run(s: Seq<char>) -> nat
    decreases s.len(),
{
    if s.len() > 0 && is_ascii_digit(s[0]) {
        1 + digit_run(s.drop_first())
    } else {
        0
    }
}

/// The number that the digits of `s` write in base ten; 0 for no digits.
pub open spec fn decimal_value(s: Seq<char>) -> nat
    recommends
        forall|i: int| 0 <= i < s.len() ==> is_ascii_digit(#[trigger] s[i]),
    decreases s.len(),
{
    if s.len() == 0 {
        0
    } else {
        (decimal_value(s.drop_last()) * 10 + digit_value(s.last())) as nat
    }
}

/// The number that `s` begins with: that of its leading digits. `None`
/// where `s` does not begin with a digit, and where the number is more than
/// a signed 64-bit integer holds.
pub open spec fn leading_number(s: Seq<char>) -> Option<int> {
    let n = decimal_value(s.take(digit_run(s) as int));
    if digit_run(s) == 0 || n > i64::MAX {
        None
    } else {
        Some(n as int)
    }
}

/// The integer that `s` begins with, after any leading space characters:
/// an optional `-` or `+` and the number of the digits right after it.
/// `None` where no digit stands there, and where the digits write more than
/// a signed 64-bit integer holds.
pub open spec fn signed_integer(s: Seq<char>) -> Option<int> {
    let t = trim_start(s);
    if t.len() == 0 {
        None
    } else if t[0] == '-' {
        match leading_number(t.drop_first()) {
            Some(v) => Some(-v),
            None => None,
        }
    } else if t[0] == '+' {
        leading_number(t.drop_first())
    } else {
        leading_number(t)
    }
}

/// The signed 32-bit integer that `s` begins with, if it begins with an
/// integer and that integer is one.
pub open spec fn integer(s: Seq<char>) -> Option<i32> {
    match signed_integer(s) {
        Some(v) if i32::MIN <= v <= i32::MAX => Some(v as i32),
        _ => None,
    }
}

/// The unsigned 32-bit integer that `s` begins with, if it begins with an
/// integer and that integer is one.
pub open spec fn unsigned_integer(s: Seq<char>) -> Option<u32> {
    match signed_integer(s) {
        Some(v) if 0 <= v <= u32::MAX => Some(v as u32),
        _ => None,
    }
}

/// The characters that a stream has yet to give, where `head` was taken
/// from it to look at and `rest` is what follows. No `head` means that the
/// stream has ended.
pub open spec fn stream(head: Option<char>, rest: Seq<char>) -> Seq<char> {
    match head {
        Some(c) => seq![c] + rest,
        None => Seq::empty(),
    }
}

/// `digit_run` counts exactly the digits before the first other character.
pub proof fn lemma_digit_run(s: Seq<char>)
    ensures
        digit_run(s) <= s.len(),
        forall|i: int| 0 <= i < digit_run(s) ==> is_ascii_digit(#[trigger] s[i]),
        digit_run(s) < s.len() ==> !is_ascii_digit(s[digit_run(s) as int]),
    decreases s.len(),
{
    if s.len() > 0 && is_ascii_digit(s[0]) {
        let t = s.drop_first();
        lemma_digit_run(t);
        assert forall|i: int| 0 <= i < digit_run(s) implies is_ascii_digit(#[trigger] s[i]) by {
            if i > 0 {
                assert(s[i] == t[i - 1]);
            }
        }
        if digit_run(s) < s.len() {
            assert(s[digit_run(s) as int] == t[digit_run(t) as int]);
        }
    }
}

/// Any count of leading digits that stops at another character, or at the
/// end, is `digit_run`.
pub proof fn lemma_digit_run_unique(s: Seq<char>, n: int)
    requires
        0 <= n <= s.len(),
        forall|i: int| 0 <= i < n ==> is_ascii_digit(#[trigger] s[i]),
        n < s.len() ==> !is_ascii_digit(s[n]),
    ensures
        digit_run(s) == n,
{
    lemma_digit_run(s);
    let m = digit_run(s) as int;
    if m < n {
        assert(is_ascii_digit(s[m]));
    } else if n < m {
        assert(is_ascii_digit(s[n]));
    }
}

/// More digits never write a smaller number.
pub proof fn lemma_decimal_value_grows(s: Seq<char>, n: int)
    requires
        0 <= n <= s.len(),
        forall|i: int| 0 <= i < s.len() ==> is_ascii_digit(#[trigger] s[i]),
    ensures
        decimal_value(s.take(n)) <= decimal_value(s),
    decreases s.len() - n,
{
    if n < s.len() {
        let t = s.drop_last();
        assert(t.take(n) == s.take(n));
        lemma_decimal_value_grows(t, n);
        assert(is_ascii_digit(s.last()));
    } else {
        assert(s.take(n) == s);
    }
}

/// What follows the digits is not read: the number that a text begins with
/// is that of its leading digits, whatever stands after them.
pub proof fn lemma_leading_number_ignores_rest(digits: Seq<char>, rest: Seq<char>)
    requires
        forall|i: int| 0 <= i < digits.len() ==> is_ascii_digit(#[trigger] digits[i]),
        rest.len() == 0 || !is_ascii_digit(rest[0]),
    ensures
        leading_number(digits + rest) == leading_number(digits),
{
    let all = digits + rest;
    let n = digits.len() as int;
    lemma_digit_run_unique(all, n);
    lemma_digit_run_unique(digits, n);
    assert(all.take(n) == digits);
    assert(digits.take(n) == digits);
}

/// Skips ahead to the first character that is no space. Returns that
/// character, or `None` if there is none, and the stream after it.
pub(crate) fn skip_whitespace<I: Iterator<Item = char>>(input: I) -> (r: (Option<char>, I))
    requires
        input.obeys_prophetic_iter_laws(),
        input.decrease() is Some,
    ensures
        r.1.obeys_prophetic_iter_laws(),
        r.1.decrease() is Some,
        stream(r.0, r.1.remaining()) == trim_start(input.remaining()),
{
    let mut iter = input;
    loop
        invariant
            iter.obeys_prophetic_iter_laws(),
            iter.decrease() is Some,
            trim_start(iter.remaining()) == trim_start(input.remaining()),
        decreases iter.decrease()->0,
    {
        let ghost before = iter.remaining();
        let head = iter.next();
        match head {
            Some(c) => {
                assert(before == stream(head, iter.remaining()));
                if !char_is_whitespace(c) {
                    assert(before.skip(0) == before);
                    return (head, iter);
                }
                assert(trim_start(before) == trim_start(iter.remaining())) by {
                    assert(before.drop_first() == iter.remaining());
                    lemma_leading_spaces(iter.remaining());
                }
            },
            None => {
                assert(before.skip(0) == before);
                return (head, iter);
            },
        }
    }
}

/// The digit scanner: the number that the stream begins with, where `head`
/// is the character that the stream stands at and `rest` gives those after
/// it.
pub(crate) fn read_numbers<I: Iterator<Item = char>>(head: Option<char>, rest: I) -> (r: Option<i64>)
    requires
        rest.obeys_prophetic_iter_laws(),
        rest.decrease() is Some,
    ensures
        r matches Some(v) ==> leading_number(stream(head, rest.remaining())) == Some(v as int),
        r is None ==> leading_number(stream(head, rest.remaining())) is None,
{
    let ghost all = stream(head, rest.remaining());
    let first = match head {
        Some(c) => c,
        None => {
            return None;
        },
    };
    if !is_digit(first) {
        return None;
    }
    let mut iter = rest;
    let mut acc: i64 = (first as u8 - ('0' as u8)) as i64;
    let ghost digits = seq![first];
    proof {
        reveal_with_fuel(decimal_value, 2);
        assert(digits.drop_last() == Seq::<char>::empty());
    }
    loop
        invariant
            iter.obeys_prophetic_iter_laws(),
            iter.decrease() is Some,
            all == stream(head, rest.remaining()),
            all == digits + iter.remaining(),
            forall|i: int| 0 <= i < digits.len() ==> is_ascii_digit(#[trigger] digits[i]),
            digits.len() >= 1,
            0 <= acc == decimal_value(digits),
        decreases iter.decrease()->0,
    {
        let ghost before = iter.remaining();
        match iter.next() {
            Some(c) => {
                if !is_digit(c) {
                    proof {
                        assert(all[digits.len() as int] == c);
                        lemma_digit_run_unique(all, digits.len() as int);
                        assert(all.take(digits.len() as int) == digits);
                    }
                    return Some(acc);
                }
                let ghost longer = digits.push(c);
                proof {
                    assert(longer.drop_last() == digits);
                    assert(all == longer + iter.remaining());
                    assert(all.take(longer.len() as int) == longer);
                }
                let d: i64 = (c as u8 - ('0' as u8)) as i64;
                let next = match acc.checked_mul(10) {
                    Some(m) => m.checked_add(d),
                    None => None,
                };
                match next {
                    Some(v) => {
                        acc = v;
                    },
                    None => {
                        proof {
                            lemma_digit_run(all);
                            let run = all.take(digit_run(all) as int);
                            assert(digit_run(all) >= longer.len()) by {
                                if digit_run(all) < longer.len() {
                                    assert(all[digit_run(all) as int] == longer[digit_run(all) as int]);
                                }
                            }
                            assert(run.take(longer.len() as int) == longer);
                            lemma_decimal_value_grows(run, longer.len() as int);
                        }
                        return None;
                    },
                }
                proof {
                    digits = longer;
                }
            },
            None => {
                proof {
                    assert(all == digits);
                    lemma_digit_run_unique(all, digits.len() as int);
                    assert(all.take(digits.len() as int) == digits);
                }
                return Some(acc);
            },
        }
    }
}

/// The integer that the stream begins with, ahead of its narrowing to 32
/// bits.
fn do_parse_integer<T: Iterator<Item = char>>(input: T) -> (r: Option<i64>)
    requires
        input.obeys_prophetic_iter_laws(),
        input.decrease() is Some,
    ensures
        r matches Some(v) ==> signed_integer(input.remaining()) == Some(v as int),
        r is None ==> signed_integer(input.remaining()) is None,
{
    let (head, rest) = skip_whitespace(input);
    let first = match head {
        Some(c) => c,
        None => {
            return None;
        },
    };
    let ghost from_sign = stream(head, rest.remaining());
    if first == '-' || first == '+' {
        let mut digits = rest;
        let next = digits.next();
        assert(stream(next, digits.remaining()) == from_sign.drop_first());
        let sign: i64 = if first == '-' {
            -1
        } else {
            1
        };
        match read_numbers(next, digits) {
            Some(value) => value.checked_mul(sign),
            None => None,
        }
    } else {
        read_numbers(head, rest)
    }
}

/// `num::ToPrimitive::to_i32` of a 64-bit integer. Trusted: the value
/// itself where a signed 32-bit integer holds it, else `None`.
#[verifier::external_body]
fn to_i32(value: i64) -> (r: Option<i32>)
    ensures
        r == if i32::MIN <= value <= i32::MAX {
            Some(value as i32)
        } else {
            None
        },
{
    num::ToPrimitive::to_i32(&value)
}

/// `num::ToPrimitive::to_u32` of a 64-bit integer. Trusted: the value
/// itself where an unsigned 32-bit integer holds it, else `None`.
#[verifier::external_body]
fn to_u32(value: i64) -> (r: Option<u32>)
    ensures
        r == if 0 <= value <= u32::MAX {
            Some(value as u32)
        } else {
            None
        },
{
    num::ToPrimitive::to_u32(&value)
}

/// Parses an integer by HTML's rules: leading space characters, an
/// optional sign, then digits. What follows the digits is not read. `None`
/// where no digit stands after the optional sign and where the integer is
/// not a signed 32-bit one.
///
/// The characters come from any iterator that ends; `input.remaining()` is
/// the text it gives.
pub fn parse_integer<T: Iterator<Item = char>>(input: T) -> (r: Option<i32>)
    requires
        input.obeys_prophetic_iter_laws(),
        input.decrease() is Some,
    ensures
        r == integer(input.remaining()),
{
    match do_parse_integer(input) {
        Some(value) => to_i32(value),
        None => None,
    }
}

/// Parses a non-negative integer by HTML's rules: as `parse_integer`, and
/// `None` also for a negative integer. `-0` is zero.
pub fn parse_unsigned_integer<T: Iterator<Item = char>>(input: T) -> (r: Option<u32>)
    requires
        input.obeys_prophetic_iter_laws(),
        input.decrease() is Some,
    ensures
        r == unsigned_integer(input.remaining()),
{
    match do_parse_integer(input) {
        Some(value) => to_u32(value),
        None => None,
    }
}

/// The digit that writes `d`, for `d` from 0 to 9.
pub open spec fn digit_char(d: int) -> char
    recommends
        0 <= d <= 9,
{
    ('0' as int + d) as char
}

/// The decimal string of `n`: its digits in base ten, without leading
/// zeros; `0` for zero.
pub open spec fn decimal_string(n: nat) -> Seq<char>
    decreases n,
{
    if n < 10 {
        seq![digit_char(n as int)]
    } else {
        decimal_string(n / 10).push(digit_char((n % 10) as int))
    }
}

/// The decimal string of `n` holds one digit or more, only digits, and
/// these write `n`.
pub proof fn lemma_decimal_string(n: nat)
    ensures
        decimal_string(n).len() >= 1,
        forall|i: int| 0 <= i < decimal_string(n).len() ==> is_ascii_digit(
            #[trigger] decimal_string(n)[i],
        ),
        decimal_value(decimal_string(n)) == n,
        digit_run(decimal_string(n)) == decimal_string(n).len(),
    decreases n,
{
    let s = decimal_string(n);
    if n < 10 {
        reveal_with_fuel(decimal_value, 2);
        assert(s.drop_last() == Seq::<char>::empty());
        assert(digit_value(digit_char(n as int)) == n);
    } else {
        let t = decimal_string(n / 10);
        lemma_decimal_string(n / 10);
        assert(s.drop_last() == t);
        assert(digit_value(digit_char((n % 10) as int)) == n % 10);
        assert forall|i: int| 0 <= i < s.len() implies is_ascii_digit(#[trigger] s[i]) by {
            if i < t.len() {
                assert(s[i] == t[i]);
            }
        }
    }
    lemma_digit_run_unique(s, s.len() as int);
}

/// The signed parser reads back the decimal string of every number that a
/// signed 64-bit integer holds, also after a sign.
pub proof fn lemma_signed_integer_of_decimal_string(n: nat)
    requires
        n <= i64::MAX,
    ensures
        signed_integer(decimal_string(n)) == Some(n as int),
        signed_integer(seq!['+'] + decimal_string(n)) == Some(n as int),
        signed_integer(seq!['-'] + decimal_string(n)) == Some(-(n as int)),
{
    let s = decimal_string(n);
    lemma_decimal_string(n);
    assert(s.take(s.len() as int) == s);
    assert(leading_number(s) == Some(n as int));
    let plus = seq!['+'] + s;
    let minus = seq!['-'] + s;
    assert(is_ascii_digit(s[0]));
    assert(trim_start(s) == s) by {
        assert(s.skip(0) == s);
    }
    assert(trim_start(plus) == plus) by {
        assert(plus.skip(0) == plus);
    }
    assert(trim_start(minus) == minus) by {
        assert(minus.skip(0) == minus);
    }
    assert(plus.drop_first() == s);
    assert(minus.drop_first() == s);
}

/// Parsing the decimal string of a number that a signed 32-bit integer
/// holds gives that number; a `+` before it changes nothing, and a `-`
/// before it gives the negative of the number.
pub proof fn lemma_integer_of_decimal_string(n: nat)
    requires
        n <= i32::MAX,
    ensures
        integer(decimal_string(n)) == Some(n as i32),
        integer(seq!['+'] + decimal_string(n)) == Some(n as i32),
        integer(seq!['-'] + decimal_string(n)) == Some((-(n as int)) as i32),
{
    lemma_signed_integer_of_decimal_string(n);
}

/// Parsing the decimal string of a number that an unsigned 32-bit integer
/// holds as a non-negative integer gives that number; a `+` before it
/// changes nothing, and with a `-` before it only zero is still read.
pub proof fn lemma_unsigned_integer_of_decimal_string(n: nat)
    requires
        n <= u32::MAX,
    ensures
        unsigned_integer(decimal_string(n)) == Some(n as u32),
        unsigned_integer(seq!['+'] + decimal_string(n)) == Some(n as u32),
        n > 0 ==> unsigned_integer(seq!['-'] + decimal_string(n)) is None,
        n == 0 ==> unsigned_integer(seq!['-'] + decimal_string(n)) == Some(0u32),
{
    lemma_signed_integer_of_decimal_string(n);
}

} // verus!
