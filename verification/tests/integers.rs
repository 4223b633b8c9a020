use html_str::{parse_integer, parse_unsigned_integer};

#[test]
fn plain_digits() {
    assert_eq!(parse_integer("0".chars()), Some(0));
    assert_eq!(parse_integer("123".chars()), Some(123));
    assert_eq!(parse_unsigned_integer("123".chars()), Some(123));
}

#[test]
fn signs() {
    assert_eq!(parse_integer("+123".chars()), Some(123));
    assert_eq!(parse_integer("-123".chars()), Some(-123));
    assert_eq!(parse_unsigned_integer("+5".chars()), Some(5));
    assert_eq!(parse_unsigned_integer("-1".chars()), None);
    assert_eq!(parse_unsigned_integer("-0".chars()), Some(0));
    assert_eq!(parse_integer("-0".chars()), Some(0));
}

#[test]
fn leading_space_characters_are_skipped() {
    assert_eq!(parse_integer("  42".chars()), Some(42));
    assert_eq!(parse_integer(" \t\n\x0c\r7".chars()), Some(7));
    assert_eq!(parse_unsigned_integer("\n\n8".chars()), Some(8));
}

#[test]
fn other_white_space_is_no_space_character() {
    assert_eq!(parse_integer("\u{a0}5".chars()), None);
    assert_eq!(parse_integer("\u{b}5".chars()), None);
    assert_eq!(parse_integer("\u{2003}5".chars()), None);
}

#[test]
fn no_digits_is_no_value() {
    assert_eq!(parse_integer("".chars()), None);
    assert_eq!(parse_integer("   ".chars()), None);
    assert_eq!(parse_integer("-".chars()), None);
    assert_eq!(parse_integer("+".chars()), None);
    assert_eq!(parse_integer("+-5".chars()), None);
    assert_eq!(parse_integer("- 5".chars()), None);
    assert_eq!(parse_integer("abc".chars()), None);
    assert_eq!(parse_integer(".5".chars()), None);
    assert_eq!(parse_unsigned_integer("".chars()), None);
    assert_eq!(parse_unsigned_integer("x1".chars()), None);
}

#[test]
fn what_follows_the_digits_is_ignored() {
    assert_eq!(parse_integer("12abc".chars()), Some(12));
    assert_eq!(parse_integer("1 2".chars()), Some(1));
    assert_eq!(parse_integer("7.9".chars()), Some(7));
    assert_eq!(parse_integer("-3-4".chars()), Some(-3));
    assert_eq!(parse_unsigned_integer("30%".chars()), Some(30));
}

#[test]
fn signed_bounds() {
    assert_eq!(parse_integer("2147483647".chars()), Some(i32::MAX));
    assert_eq!(parse_integer("2147483648".chars()), None);
    assert_eq!(parse_integer("-2147483648".chars()), Some(i32::MIN));
    assert_eq!(parse_integer("-2147483649".chars()), None);
}

#[test]
fn unsigned_bounds() {
    assert_eq!(parse_unsigned_integer("4294967295".chars()), Some(u32::MAX));
    assert_eq!(parse_unsigned_integer("4294967296".chars()), None);
    assert_eq!(parse_unsigned_integer("2147483648".chars()), Some(2147483648));
}

#[test]
fn more_than_64_bits_is_no_value() {
    assert_eq!(parse_integer("99999999999999999999".chars()), None);
    assert_eq!(parse_integer("-99999999999999999999".chars()), None);
    assert_eq!(parse_unsigned_integer("99999999999999999999".chars()), None);
    assert_eq!(parse_integer("9223372036854775807".chars()), None);
    assert_eq!(parse_integer("9223372036854775808".chars()), None);
    assert_eq!(parse_unsigned_integer("18446744073709551616".chars()), None);
}

#[test]
fn leading_zeros_do_not_overflow() {
    assert_eq!(parse_integer("0000000000000000000000000000005".chars()), Some(5));
    assert_eq!(parse_unsigned_integer("00000000000000000000000004294967295".chars()), Some(u32::MAX));
}

#[test]
fn decimal_strings_are_read_back() {
    let values: [i32; 9] = [0, 1, 9, 10, 99, 100, 12345, 1000000000, i32::MAX];
    for n in values {
        let text = format!("{}", n);
        assert_eq!(parse_integer(text.chars()), Some(n));
        assert_eq!(parse_integer(format!("+{}", n).chars()), Some(n));
        assert_eq!(parse_integer(format!("-{}", n).chars()), Some(-n));
    }
}

#[test]
fn unsigned_decimal_strings_are_read_back() {
    let values: [u32; 8] = [0, 1, 9, 10, 255, 65536, 2147483648, u32::MAX];
    for n in values {
        assert_eq!(parse_unsigned_integer(format!("{}", n).chars()), Some(n));
        assert_eq!(parse_unsigned_integer(format!("+{}", n).chars()), Some(n));
        let negative = parse_unsigned_integer(format!("-{}", n).chars());
        if n > 0 {
            assert_eq!(negative, None);
        } else {
            assert_eq!(negative, Some(0));
        }
    }
}

#[test]
fn any_iterator_of_characters_is_read() {
    let characters = vec![' ', '-', '4', '2', 'x'];
    assert_eq!(parse_integer(characters.into_iter()), Some(-42));
    assert_eq!(parse_unsigned_integer("a17".chars().skip(1)), Some(17));
}
