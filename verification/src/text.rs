//! Helpers on text: space-separated words, joining, character ranges and
//! indices, and HTTP tokens.

use crate::chars::{char_is_whitespace, is_html_space, to_chars};
use vstd::prelude::*;
use vstd::utf8::{encode_scalar, encode_utf8};

verus! {

/// Whether `b` may stand in an HTTP token: a visible ASCII character that
/// is none of the separators `( ) < > @ , ; : \ " / [ ] ? = { }`.
pub open spec fn is_token_byte(b: u8) -> bool {
    &&& 32 < b < 127
    &&& b != 40 && b != 41 && b != 60 && b != 62 && b != 64
    &&& b != 44 && b != 59 && b != 58 && b != 92 && b != 34
    &&& b != 47 && b != 91 && b != 93 && b != 63 && b != 61
    &&& b != 123 && b != 125
}

/// Whether `s` is an HTTP token: one token byte or more, and nothing else.
pub open spec fn is_token_bytes(s: Seq<u8>) -> bool {
    s.len() > 0 && forall|i: int| 0 <= i < s.len() ==> is_token_byte(#[trigger] s[i])
}

/// Whether `b` may stand in an HTTP token.
fn byte_is_token(b: u8) -> (r: bool)
    ensures
        r == is_token_byte(b),
{
    match b {
        // Controls, the space and what lies beyond ASCII.
        0..=32 | 127..=255 => false,
        // ( ) < > @
        40 | 41 | 60 | 62 | 64 => false,
        // , ; : \ "
        44 | 59 | 58 | 92 | 34 => false,
        // / [ ] ? =
        47 | 91 | 93 | 63 | 61 => false,
        // { }
        123 | 125 => false,
        _ => true,
    }
}

/// Whether `s` is a `token` of HTTP: not empty, and made of visible ASCII
/// characters that are no separators.
pub fn is_token(s: &[u8]) -> (r: bool)
    ensures
        r == is_token_bytes(s@),
{
    if s.len() == 0 {
        return false;
    }
    let mut i: usize = 0;
    while i < s.len()
        invariant
            i <= s.len(),
            forall|j: int| 0 <= j < i ==> is_token_byte(#[trigger] s@[j]),
        decreases s.len() - i,
    {
        if !byte_is_token(s[i]) {
            return false;
        }
        i = i + 1;
    }
    true
}

/// The characters of `s` from the `begin`-th up to the `end`-th, counted
/// in characters and not in bytes.
pub fn slice_chars(s: &str, begin: usize, end: usize) -> (r: &str)
    requires
        begin <= end <= s@.len(),
    ensures
        r@ == s@.subrange(begin as int, end as int),
{
    s.substring_char(begin, end)
}

/// How many bytes the UTF-8 form of `c` takes.
pub open spec fn utf8_width(c: char) -> nat {
    if c <= '\u{7f}' {
        1
    } else if c <= '\u{7ff}' {
        2
    } else if c <= '\u{ffff}' {
        3
    } else {
        4
    }
}

/// The index, counted in characters, of the character of `s` that starts
/// at the byte offset `offset` of its UTF-8 form; the number of characters
/// of `s` where none starts there.
pub open spec fn char_index_at(s: Seq<char>, offset: nat) -> nat
    decreases s.len(),
{
    if s.len() == 0 || offset == 0 {
        0
    } else if offset < utf8_width(s[0]) {
        s.len()
    } else {
        1 + char_index_at(s.drop_first(), (offset - utf8_width(s[0])) as nat)
    }
}

/// The byte offset at which the `k`-th character of `s` starts in the
/// UTF-8 form of `s`; for `k` the length of `s`, the length of that form.
pub open spec fn byte_offset(s: Seq<char>, k: int) -> nat {
    encode_utf8(s.take(k)).len()
}

/// `utf8_width` is the length of the UTF-8 form of a single character.
pub proof fn lemma_utf8_width(c: char)
    ensures
        encode_utf8(seq![c]).len() == utf8_width(c),
{
    let s = seq![c];
    assert(s.drop_first() == Seq::<char>::empty());
    assert(encode_utf8(s.drop_first()).len() == 0);
    assert(encode_utf8(s) == encode_scalar(c as u32) + encode_utf8(s.drop_first()));
}

/// The byte offset of a character is the width of the first character more
/// than its offset in what follows the first.
proof fn lemma_byte_offset_step(s: Seq<char>, k: int)
    requires
        1 <= k <= s.len(),
    ensures
        byte_offset(s, k) == utf8_width(s[0]) + byte_offset(s.drop_first(), k - 1),
{
    let t = s.take(k);
    assert(t.drop_first() == s.drop_first().take(k - 1));
    assert(encode_utf8(t) == encode_scalar(s[0] as u32) + encode_utf8(t.drop_first()));
    lemma_utf8_width(s[0]);
    let one = seq![s[0]];
    assert(one.drop_first() == Seq::<char>::empty());
    assert(encode_utf8(one) == encode_scalar(s[0] as u32) + encode_utf8(one.drop_first()));
}

/// What `char_index_at` means in bytes: it is the index of the one
/// character that starts at `offset`, and the length of `s` where no
/// character starts there.
pub proof fn lemma_char_index_at(s: Seq<char>, offset: nat)
    ensures
        char_index_at(s, offset) <= s.len(),
        char_index_at(s, offset) < s.len() ==> byte_offset(s, char_index_at(s, offset) as int)
            == offset,
        forall|k: int|
            0 <= k < s.len() && #[trigger] byte_offset(s, k) == offset ==> k == char_index_at(
                s,
                offset,
            ),
    decreases s.len(),
{
    let r = char_index_at(s, offset);
    assert(s.take(0) == Seq::<char>::empty());
    assert(byte_offset(s, 0) == 0);
    if s.len() > 0 {
        let t = s.drop_first();
        let w = utf8_width(s[0]);
        assert forall|k: int| 1 <= k <= s.len() implies #[trigger] byte_offset(s, k) == w
            + byte_offset(t, k - 1) by {
            lemma_byte_offset_step(s, k);
        }
        if offset >= w {
            lemma_char_index_at(t, (offset - w) as nat);
            assert forall|k: int| 0 <= k < s.len() && #[trigger] byte_offset(s, k)
                == offset implies k == r by {
                if k >= 1 {
                    assert(byte_offset(t, k - 1) == offset - w);
                }
            }
        }
    }
}

/// How many bytes the UTF-8 form of `c` takes.
fn width(c: char) -> (r: usize)
    ensures
        r == utf8_width(c),
{
    if c <= '\u{7f}' {
        1
    } else if c <= '\u{7ff}' {
        2
    } else if c <= '\u{ffff}' {
        3
    } else {
        4
    }
}

/// `n` as an `isize`; the greatest `isize` where `n` is more than one
/// holds, which is more characters than any string in memory has.
pub open spec fn saturated(n: nat) -> isize {
    if n <= isize::MAX {
        n as isize
    } else {
        isize::MAX
    }
}

/// `n` as an `isize`, or the greatest `isize` if `n` is more.
fn saturate(n: usize) -> (r: isize)
    ensures
        r == saturated(n as nat),
{
    if n > isize::MAX as usize {
        isize::MAX
    } else {
        n as isize
    }
}

/// Which character of `s` starts at the byte offset `index`: its index
/// counted in characters, or the number of characters of `s` if no
/// character starts there.
pub fn search_index(index: usize, s: &str) -> (r: isize)
    ensures
        r == saturated(char_index_at(s@, index as nat)),
{
    let chars = to_chars(s);
    let mut count: usize = 0;
    let mut left: usize = index;
    assert(s@.skip(0) == s@);
    while count < chars.len()
        invariant
            count <= chars.len(),
            chars@ == s@,
            char_index_at(s@, index as nat) == count + char_index_at(
                s@.skip(count as int),
                left as nat,
            ),
        decreases chars.len() - count,
    {
        let ghost rest = s@.skip(count as int);
        assert(rest[0] == chars@[count as int]);
        assert(rest.drop_first() == s@.skip(count + 1));
        if left == 0 {
            return saturate(count);
        }
        let w = width(chars[count]);
        if left < w {
            return saturate(chars.len());
        }
        left = left - w;
        count = count + 1;
    }
    assert(s@.skip(count as int).len() == 0);
    saturate(count)
}

/// `parts` in order, with `separator` between each two of them.
pub open spec fn joined(parts: Seq<Seq<char>>, separator: Seq<char>) -> Seq<char>
    decreases parts.len(),
{
    if parts.len() == 0 {
        Seq::empty()
    } else if parts.len() == 1 {
        parts[0]
    } else {
        joined(parts.drop_last(), separator) + separator + parts.last()
    }
}

/// The texts of `strs`, in order.
pub open spec fn texts(strs: Seq<&str>) -> Seq<Seq<char>> {
    strs.map_values(|s: &str| s@)
}

/// Joins `strs` into one string, with `join` between each two of them.
pub fn str_join(strs: &[&str], join: &str) -> (r: String)
    ensures
        r@ == joined(texts(strs@), join@),
{
    let mut acc = String::new();
    let mut i: usize = 0;
    while i < strs.len()
        invariant
            i <= strs.len(),
            acc@ == joined(texts(strs@).take(i as int), join@),
        decreases strs.len() - i,
    {
        proof {
            let next = texts(strs@).take(i + 1);
            assert(next.drop_last() == texts(strs@).take(i as int));
            assert(next.last() == strs@[i as int]@);
            assert(i == 0 ==> acc@ + strs@[i as int]@ == strs@[i as int]@);
        }
        if i > 0 {
            acc.append(join);
        }
        acc.append(strs[i]);
        i = i + 1;
    }
    assert(texts(strs@).take(strs.len() as int) == texts(strs@));
    acc
}

/// The number of characters of `s` before its first space character.
pub open spec fn word_run(s: Seq<char>) -> nat
    decreases s.len(),
{
    if s.len() > 0 && !is_html_space(s[0]) {
        1 + word_run(s.drop_first())
    } else {
        0
    }
}

/// `word_run` counts exactly the characters before the first space.
pub proof fn lemma_word_run(s: Seq<char>)
    ensures
        word_run(s) <= s.len(),
        forall|i: int| 0 <= i < word_run(s) ==> !is_html_space(#[trigger] s[i]),
        word_run(s) < s.len() ==> is_html_space(s[word_run(s) as int]),
    decreases s.len(),
{
    if s.len() > 0 && !is_html_space(s[0]) {
        let t = s.drop_first();
        lemma_word_run(t);
        assert forall|i: int| 0 <= i < word_run(s) implies !is_html_space(#[trigger] s[i]) by {
            if i > 0 {
                assert(s[i] == t[i - 1]);
            }
        }
        if word_run(s) < s.len() {
            assert(s[word_run(s) as int] == t[word_run(t) as int]);
        }
    }
}

/// Any count of leading characters that are no spaces, which stops at a
/// space or at the end, is `word_run`.
pub proof fn lemma_word_run_unique(s: Seq<char>, n: int)
    requires
        0 <= n <= s.len(),
        forall|i: int| 0 <= i < n ==> !is_html_space(#[trigger] s[i]),
        n < s.len() ==> is_html_space(s[n]),
    ensures
        word_run(s) == n,
{
    lemma_word_run(s);
    let m = word_run(s) as int;
    if m < n {
        assert(!is_html_space(s[m]));
    } else if n < m {
        assert(!is_html_space(s[n]));
    }
}

/// The words of `s`: its longest runs of characters that are no space
/// characters, in order. None of them is empty.
pub open spec fn space_separated(s: Seq<char>) -> Seq<Seq<char>>
    decreases s.len(),
{
    if s.len() == 0 {
        Seq::empty()
    } else if is_html_space(s[0]) {
        space_separated(s.drop_first())
    } else {
        proof {
            lemma_word_run(s);
        }
        seq![s.take(word_run(s) as int)] + space_separated(s.skip(word_run(s) as int))
    }
}

/// Splits `s` at its HTML space characters. The result holds the words
/// between them in order; runs of spaces, and spaces at either end, give no
/// empty word.
pub fn split_html_space_chars<'a>(s: &'a str) -> (r: Vec<&'a str>)
    ensures
        texts(r@) == space_separated(s@),
{
    let chars = to_chars(s);
    let mut words: Vec<&'a str> = Vec::new();
    let mut i: usize = 0;
    assert(s@.skip(0) == s@);
    while i < chars.len()
        invariant
            i <= chars.len(),
            chars@ == s@,
            space_separated(s@) == texts(words@) + space_separated(s@.skip(i as int)),
        decreases chars.len() - i,
    {
        let ghost rest = s@.skip(i as int);
        assert(rest[0] == chars@[i as int]);
        if char_is_whitespace(chars[i]) {
            assert(rest.drop_first() == s@.skip(i + 1));
            i = i + 1;
        } else {
            let mut end: usize = i + 1;
            while end < chars.len() && !char_is_whitespace(chars[end])
                invariant
                    i < end <= chars.len(),
                    chars@ == s@,
                    forall|j: int| i <= j < end ==> !is_html_space(#[trigger] chars@[j]),
                decreases chars.len() - end,
            {
                end = end + 1;
            }
            proof {
                assert forall|j: int| 0 <= j < end - i implies !is_html_space(
                    #[trigger] rest[j],
                ) by {
                    assert(rest[j] == chars@[i + j]);
                }
                if end < chars.len() {
                    assert(rest[end - i] == chars@[end as int]);
                }
                lemma_word_run_unique(rest, end - i);
                assert(rest.take(end - i) == s@.subrange(i as int, end as int));
                assert(rest.skip(end - i) == s@.skip(end as int));
            }
            let word = s.substring_char(i, end);
            let ghost before = words@;
            words.push(word);
            assert(texts(words@) == texts(before) + seq![word@]);
            i = end;
        }
    }
    assert(space_separated(s@.skip(i as int)) == Seq::<Seq<char>>::empty());
    assert(texts(words@) + Seq::<Seq<char>>::empty() == texts(words@));
    words
}

} // verus!
