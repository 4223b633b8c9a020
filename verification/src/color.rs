//! The legacy colour values of HTML: any text names a colour, and only the
//! empty text and the keyword `transparent` are refused.

use crate::chars::{to_chars, trim, trim_bounds};
use vstd::prelude::*;

verus! {

/// A colour of four channels, each counted in 255ths: 255 is full intensity
/// and, for `alpha`, fully opaque.
#[derive(Clone, Copy, Debug, PartialEq, Eq, Structural)]
pub struct Rgba {
    pub red: u8,
    pub green: u8,
    pub blue: u8,
    pub alpha: u8,
}

/// `0-9`, `a-f` or `A-F`.
pub open spec fn is_hex_digit(c: char) -> bool {
    ('0' <= c <= '9') || ('a' <= c <= 'f') || ('A' <= c <= 'F')
}

/// The number from 0 to 15 that a hexadecimal digit stands for.
pub open spec fn hex_value(c: char) -> int
    recommends
        is_hex_digit(c),
{
    if '0' <= c <= '9' {
        c as int - '0' as int
    } else if 'a' <= c <= 'f' {
        c as int - 'a' as int + 10
    } else {
        c as int - 'A' as int + 10
    }
}

/// `c`, in lower case if it is an ASCII capital.
pub open spec fn ascii_lower(c: char) -> char {
    if 'A' <= c <= 'Z' {
        ((c as int) + 32) as char
    } else {
        c
    }
}

/// Whether `a` and `b` are the same text but for the case of ASCII letters.
pub open spec fn eq_ignore_ascii_case(a: Seq<char>, b: Seq<char>) -> bool {
    &&& a.len() == b.len()
    &&& forall|i: int| 0 <= i < a.len() ==> ascii_lower(#[trigger] a[i]) == ascii_lower(b[i])
}

/// Whether `s` is the keyword `transparent`, in any mix of cases.
pub open spec fn is_transparent(s: Seq<char>) -> bool {
    eq_ignore_ascii_case(s, "transparent"@)
}

/// The colour of `#` and three hexadecimal digits, each digit doubled:
/// `#1af` is `#11aaff`. `None` for a text of any other shape.
pub open spec fn shorthand_color(s: Seq<char>) -> Option<Rgba> {
    if s.len() == 4 && s[0] == '#' && is_hex_digit(s[1]) && is_hex_digit(s[2]) && is_hex_digit(
        s[3],
    ) {
        Some(
            Rgba {
                red: (17 * hex_value(s[1])) as u8,
                green: (17 * hex_value(s[2])) as u8,
                blue: (17 * hex_value(s[3])) as u8,
                alpha: 255,
            },
        )
    } else {
        None
    }
}

/// Whether `c` lies beyond the Basic Multilingual Plane.
pub open spec fn is_astral(c: char) -> bool {
    c > '\u{ffff}'
}

/// `s` with each character beyond the Basic Multilingual Plane replaced by
/// the two characters `00`.
pub open spec fn widen_astral(s: Seq<char>) -> Seq<char>
    decreases s.len(),
{
    if s.len() == 0 {
        s
    } else if is_astral(s.last()) {
        widen_astral(s.drop_last()).push('0').push('0')
    } else {
        widen_astral(s.drop_last()).push(s.last())
    }
}

/// The first 128 characters of `s`, or all of it if it has fewer.
pub open spec fn first_128(s: Seq<char>) -> Seq<char> {
    if s.len() > 128 {
        s.take(128)
    } else {
        s
    }
}

/// `s` without the `#` that it may begin with.
pub open spec fn strip_hash(s: Seq<char>) -> Seq<char> {
    if s.len() > 0 && s[0] == '#' {
        s.drop_first()
    } else {
        s
    }
}

/// `s` with `0` in place of each character that is no hexadecimal digit.
pub open spec fn hex_or_zero(s: Seq<char>) -> Seq<char> {
    Seq::new(
        s.len(),
        |i: int|
            if is_hex_digit(s[i]) {
                s[i]
            } else {
                '0'
            },
    )
}

/// The least multiple of three that is at least `n` and at least three.
pub open spec fn padded_len(n: nat) -> nat {
    if n == 0 {
        3
    } else {
        (((n + 2) / 3) * 3) as nat
    }
}

/// `s` followed by as many `0` as bring its length to `padded_len`.
pub open spec fn pad_zeros(s: Seq<char>) -> Seq<char> {
    s + Seq::new((padded_len(s.len()) - s.len()) as nat, |i: int| '0')
}

/// The digits that the colour is read from: `s` after the widening of
/// astral characters, the cut at 128 characters, the loss of a leading `#`,
/// the zeroing of what is no hexadecimal digit, and the padding, in this
/// order.
pub open spec fn color_digits(s: Seq<char>) -> Seq<char> {
    pad_zeros(hex_or_zero(strip_hash(first_128(widen_astral(s)))))
}

/// The `k`-th of the three equal parts of `digits`.
pub open spec fn third(digits: Seq<char>, k: int) -> Seq<char>
    recommends
        digits.len() % 3 == 0,
        0 <= k < 3,
{
    let n = (digits.len() / 3) as int;
    digits.subrange(k * n, k * n + n)
}

/// The last eight characters of `s`, or all of it if it has fewer.
pub open spec fn last_8(s: Seq<char>) -> Seq<char> {
    if s.len() > 8 {
        s.skip(s.len() - 8)
    } else {
        s
    }
}

/// How many leading characters the three components lose together: one
/// for as long as more than two are left and all three begin with `0`.
pub open spec fn shared_zeros(r: Seq<char>, g: Seq<char>, b: Seq<char>) -> nat
    recommends
        r.len() == g.len() == b.len(),
    decreases r.len(),
{
    if r.len() > 2 && g.len() > 0 && b.len() > 0 && r[0] == '0' && g[0] == '0' && b[0] == '0' {
        1 + shared_zeros(r.drop_first(), g.drop_first(), b.drop_first())
    } else {
        0
    }
}

/// The byte that a component stands for: its one digit, or else its first
/// two digits.
pub open spec fn channel(s: Seq<char>) -> u8
    recommends
        s.len() >= 1,
{
    if s.len() == 1 {
        hex_value(s[0]) as u8
    } else {
        (hex_value(s[0]) * 16 + hex_value(s[1])) as u8
    }
}

/// The colour that the digits of `color_digits` stand for.
pub open spec fn digits_color(digits: Seq<char>) -> Rgba
    recommends
        digits.len() >= 3,
        digits.len() % 3 == 0,
{
    let r = last_8(third(digits, 0));
    let g = last_8(third(digits, 1));
    let b = last_8(third(digits, 2));
    let z = shared_zeros(r, g, b) as int;
    Rgba { red: channel(r.skip(z)), green: channel(g.skip(z)), blue: channel(b.skip(z)), alpha: 255 }
}

/// The colour of a text that is no keyword: that of the shorthand form
/// where the text has it, else that of its digits.
pub open spec fn legacy_color_value(s: Seq<char>) -> Rgba {
    match shorthand_color(s) {
        Some(c) => c,
        None => digits_color(color_digits(s)),
    }
}

/// Whether `c` is a hexadecimal digit, with its value.
pub fn hex(c: char) -> (r: Result<u8, ()>)
    ensures
        r is Ok <==> is_hex_digit(c),
        r matches Ok(v) ==> v == hex_value(c),
{
    if '0' <= c && c <= '9' {
        Ok((c as u8) - ('0' as u8))
    } else if 'a' <= c && c <= 'f' {
        Ok((c as u8) - ('a' as u8) + 10)
    } else if 'A' <= c && c <= 'F' {
        Ok((c as u8) - ('A' as u8) + 10)
    } else {
        Err(())
    }
}

/// `c`, in lower case if it is an ASCII capital.
fn to_ascii_lower(c: char) -> (r: char)
    ensures
        r == ascii_lower(c),
{
    if 'A' <= c && c <= 'Z' {
        ((c as u8) + 32) as char
    } else {
        c
    }
}

/// Whether the characters of `a` from `start` to `end` are those of `b`,
/// but for the case of ASCII letters.
fn range_eq_ignore_ascii_case(a: &Vec<char>, start: usize, end: usize, b: &Vec<char>) -> (r: bool)
    requires
        start <= end <= a.len(),
    ensures
        r == eq_ignore_ascii_case(a@.subrange(start as int, end as int), b@),
{
    if end - start != b.len() {
        return false;
    }
    let ghost s = a@.subrange(start as int, end as int);
    let mut i: usize = 0;
    while i < b.len()
        invariant
            start <= end <= a.len(),
            end - start == b.len(),
            i <= b.len(),
            s == a@.subrange(start as int, end as int),
            forall|j: int| 0 <= j < i ==> ascii_lower(#[trigger] s[j]) == ascii_lower(b@[j]),
        decreases b.len() - i,
    {
        if to_ascii_lower(a[start + i]) != to_ascii_lower(b[i]) {
            assert(s[i as int] == a@[start + i]);
            return false;
        }
        assert(s[i as int] == a@[start + i]);
        i = i + 1;
    }
    true
}

/// The text whose colour HTML looks up: `input` without the space
/// characters around it. `None` where `input` names no colour, which is so
/// of the empty text and of the keyword `transparent` in any mix of cases.
pub fn legacy_color_name(input: &str) -> (r: Option<&str>)
    ensures
        r is None <==> input@.len() == 0 || is_transparent(trim(input@)),
        r matches Some(name) ==> name@ == trim(input@),
{
    let chars = to_chars(input);
    if chars.len() == 0 {
        return None;
    }
    let (start, end) = trim_bounds(&chars);
    let keyword = to_chars("transparent");
    if range_eq_ignore_ascii_case(&chars, start, end, &keyword) {
        return None;
    }
    Some(input.substring_char(start, end))
}

/// The value of the hexadecimal digit `c`.
fn hex_digit(c: char) -> (r: u8)
    requires
        is_hex_digit(c),
    ensures
        r == hex_value(c),
        r <= 15,
{
    match hex(c) {
        Ok(v) => v,
        Err(_) => 0,
    }
}

/// `chars` with `00` in place of each character beyond the Basic
/// Multilingual Plane.
fn widen(chars: &Vec<char>) -> (out: Vec<char>)
    ensures
        out@ == widen_astral(chars@),
{
    let mut out: Vec<char> = Vec::new();
    let mut i: usize = 0;
    while i < chars.len()
        invariant
            i <= chars.len(),
            out@ == widen_astral(chars@.take(i as int)),
        decreases chars.len() - i,
    {
        let c = chars[i];
        proof {
            let next = chars@.take(i + 1);
            assert(next.drop_last() == chars@.take(i as int));
            assert(next.last() == c);
        }
        if c > '\u{ffff}' {
            out.push('0');
            out.push('0');
        } else {
            out.push(c);
        }
        i = i + 1;
    }
    proof {
        assert(chars@.take(chars.len() as int) == chars@);
    }
    out
}

/// The hexadecimal digits of `chars`: without a leading `#`, with `0` for
/// what is no digit, and padded with `0` to three equal parts.
fn padded_digits(chars: &Vec<char>) -> (out: Vec<char>)
    ensures
        out@ == pad_zeros(hex_or_zero(strip_hash(chars@))),
        out.len() >= 3,
        out.len() % 3 == 0,
        forall|i: int| 0 <= i < out.len() ==> is_hex_digit(#[trigger] out@[i]),
{
    let start: usize = if chars.len() > 0 && chars[0] == '#' {
        1
    } else {
        0
    };
    let ghost body = strip_hash(chars@);
    let ghost digits = hex_or_zero(body);
    assert(body == chars@.skip(start as int));
    let mut out: Vec<char> = Vec::new();
    let mut i: usize = start;
    while i < chars.len()
        invariant
            start <= i <= chars.len(),
            body == chars@.skip(start as int),
            digits == hex_or_zero(body),
            out@ == digits.take(i - start),
        decreases chars.len() - i,
    {
        let c = chars[i];
        assert(body[i - start] == c);
        if hex(c).is_ok() {
            out.push(c);
        } else {
            out.push('0');
        }
        i = i + 1;
        assert(out@ == digits.take(i - start));
    }
    assert(out@ == digits);
    while out.len() == 0 || out.len() % 3 != 0
        invariant
            out.len() <= padded_len(digits.len()),
            out@ == digits + Seq::new((out.len() - digits.len()) as nat, |i: int| '0'),
        decreases padded_len(digits.len()) - out.len(),
    {
        out.push('0');
        assert(out@ == digits + Seq::new((out.len() - digits.len()) as nat, |i: int| '0'));
    }
    out
}

/// The last eight characters of `s`, or all of it if it has fewer.
fn keep_last_8(s: &[char]) -> (r: &[char])
    ensures
        r@ == last_8(s@),
{
    if s.len() > 8 {
        let r = &s[s.len() - 8..s.len()];
        assert(r@ == s@.skip(s.len() - 8));
        r
    } else {
        s
    }
}

/// The byte that the digits of `s` from `from` on stand for.
fn channel_from(s: &[char], from: usize) -> (r: u8)
    requires
        from < s.len(),
        forall|i: int| 0 <= i < s.len() ==> is_hex_digit(#[trigger] s@[i]),
    ensures
        r == channel(s@.skip(from as int)),
{
    let ghost rest = s@.skip(from as int);
    assert(rest[0] == s@[from as int]);
    if s.len() - from == 1 {
        hex_digit(s[from])
    } else {
        assert(rest[1] == s@[from + 1]);
        hex_digit(s[from]) * 16 + hex_digit(s[from + 1])
    }
}

/// The colour that `digits` stand for.
fn color_from_digits(digits: &Vec<char>) -> (c: Rgba)
    requires
        digits.len() >= 3,
        digits.len() % 3 == 0,
        forall|i: int| 0 <= i < digits.len() ==> is_hex_digit(#[trigger] digits@[i]),
    ensures
        c == digits_color(digits@),
{
    let all = digits.as_slice();
    let part: usize = all.len() / 3;
    assert(part + part + part == all.len());
    let red = keep_last_8(&all[0..part]);
    let green = keep_last_8(&all[part..part + part]);
    let blue = keep_last_8(&all[part + part..all.len()]);
    proof {
        assert(third(digits@, 0) == digits@.subrange(0, part as int));
        assert(third(digits@, 1) == digits@.subrange(part as int, part + part));
        assert(third(digits@, 2) == digits@.subrange(part + part, digits@.len() as int));
    }
    let z = count_shared_zeros(red, green, blue);
    Rgba {
        red: channel_from(red, z),
        green: channel_from(green, z),
        blue: channel_from(blue, z),
        alpha: 255,
    }
}

/// How many leading `0` the three components lose together.
fn count_shared_zeros(r: &[char], g: &[char], b: &[char]) -> (z: usize)
    requires
        r.len() == g.len() == b.len(),
        r.len() >= 1,
    ensures
        z == shared_zeros(r@, g@, b@),
        z < r.len(),
{
    let mut z: usize = 0;
    assert(r@.skip(0) == r@ && g@.skip(0) == g@ && b@.skip(0) == b@);
    while r.len() - z > 2 && r[z] == '0' && g[z] == '0' && b[z] == '0'
        invariant
            r.len() == g.len() == b.len(),
            z < r.len(),
            shared_zeros(r@, g@, b@) == z + shared_zeros(
                r@.skip(z as int),
                g@.skip(z as int),
                b@.skip(z as int),
            ),
        decreases r.len() - z,
    {
        proof {
            assert(r@.skip(z as int).drop_first() == r@.skip(z + 1));
            assert(g@.skip(z as int).drop_first() == g@.skip(z + 1));
            assert(b@.skip(z as int).drop_first() == b@.skip(z + 1));
        }
        z = z + 1;
    }
    z
}

/// The colour of a text that is no colour keyword. Every text has one:
/// what cannot be read as a hexadecimal digit counts as `0`.
pub fn legacy_color_digits(name: &str) -> (c: Rgba)
    ensures
        c == legacy_color_value(name@),
{
    let chars = to_chars(name);
    if chars.len() == 4 && chars[0] == '#' {
        if let (Ok(r), Ok(g), Ok(b)) = (hex(chars[1]), hex(chars[2]), hex(chars[3])) {
            return Rgba { red: r * 17, green: g * 17, blue: b * 17, alpha: 255 };
        }
    }
    assert(shorthand_color(name@) is None);
    let mut wide = widen(&chars);
    wide.truncate(128);
    assert(wide@ == first_128(widen_astral(name@)));
    let digits = padded_digits(&wide);
    color_from_digits(&digits)
}

/// What `cssparser::parse_color_keyword` resolves `name` to: the red, green,
/// blue and alpha bytes of the CSS colour keyword that `name` is, and `None`
/// where it is no keyword or is `currentcolor`. The table is that crate's;
/// nothing is stated of single entries.
pub uninterp spec fn css_color_keyword(name: Seq<char>) -> Option<(u8, u8, u8, u8)>;

/// Looks `name` up with `cssparser::parse_color_keyword`. Trusted: the
/// result is a function of the characters of `name` alone, named
/// `css_color_keyword`; the lookup reads a constant table and no other
/// state.
#[verifier::external_body]
fn color_keyword(name: &str) -> (r: Option<(u8, u8, u8, u8)>)
    ensures
        r == css_color_keyword(name@),
{
    match cssparser::parse_color_keyword(name) {
        Ok(cssparser::Color::RGBA(c)) => Some((c.red, c.green, c.blue, c.alpha)),
        Ok(cssparser::Color::CurrentColor) => None,
        Err(()) => None,
    }
}

/// The colour of the trimmed text `name`, given what the keyword table
/// holds for it: the keyword's colour, else that of the digits.
pub open spec fn named_color(name: Seq<char>, keyword: Option<(u8, u8, u8, u8)>) -> Rgba {
    match keyword {
        Some((red, green, blue, alpha)) => Rgba { red, green, blue, alpha },
        None => legacy_color_value(name),
    }
}

/// The legacy colour value of `input`: an error for the empty text and for
/// `transparent`, else the colour of the text between the surrounding space
/// characters.
pub open spec fn legacy_color(input: Seq<char>) -> Result<Rgba, ()> {
    if input.len() == 0 || is_transparent(trim(input)) {
        Err(())
    } else {
        Ok(named_color(trim(input), css_color_keyword(trim(input))))
    }
}

/// The colour of the trimmed text `name`, where `keyword` is what the
/// keyword table holds for it.
pub fn legacy_color_of(name: &str, keyword: Option<(u8, u8, u8, u8)>) -> (c: Rgba)
    ensures
        c == named_color(name@, keyword),
{
    match keyword {
        Some((red, green, blue, alpha)) => Rgba { red, green, blue, alpha },
        None => legacy_color_digits(name),
    }
}

/// Parses a legacy colour value. Only the empty text and the keyword
/// `transparent` are errors; any other text is a colour keyword, a `#` with
/// three hexadecimal digits, or is read as three runs of hexadecimal digits
/// in which every other character counts as `0`.
pub fn parse_legacy_color(input: &str) -> (r: Result<Rgba, ()>)
    ensures
        r == legacy_color(input@),
{
    match legacy_color_name(input) {
        None => Err(()),
        Some(name) => Ok(legacy_color_of(name, color_keyword(name))),
    }
}

} // verus!
