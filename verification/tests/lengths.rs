use app_units::Au;
use html_str::{nonzero_dimension, parse_length, LengthOrPercentageOrAuto, Number};

fn number(text: &str) -> Number {
    Number::new(text).unwrap()
}

fn length(text: &str) -> LengthOrPercentageOrAuto {
    LengthOrPercentageOrAuto::Length(number(text))
}

fn percentage(text: &str) -> LengthOrPercentageOrAuto {
    LengthOrPercentageOrAuto::Percentage(number(text))
}

/// Whether the value is zero once rounded: a length to whole app units, a
/// percentage to a 32-bit float.
fn rounds_to_zero(d: &LengthOrPercentageOrAuto) -> bool {
    match d {
        LengthOrPercentageOrAuto::Length(n) => {
            Au::from_f64_px(n.as_str().parse::<f64>().unwrap()) == Au(0)
        }
        LengthOrPercentageOrAuto::Percentage(n) => {
            n.as_str().parse::<f32>().unwrap() / 100.0 == 0.0
        }
        LengthOrPercentageOrAuto::Auto => false,
    }
}

fn parse_nonzero(value: &str) -> LengthOrPercentageOrAuto {
    let parsed = parse_length(value);
    let zero = rounds_to_zero(&parsed);
    nonzero_dimension(parsed, zero)
}

#[test]
fn percentage_of_fifty_is_one_half() {
    let parsed = parse_length("50%");
    assert_eq!(parsed, percentage("50"));
    match parsed {
        LengthOrPercentageOrAuto::Percentage(n) => {
            let fraction = n.as_str().parse::<f32>().unwrap() / 100.0;
            assert_eq!(fraction, 0.5);
        }
        _ => panic!("no percentage"),
    }
}

#[test]
fn second_full_stop_ends_the_number() {
    let parsed = parse_length("10.5.5px");
    assert_eq!(parsed, length("10.5"));
    match parsed {
        LengthOrPercentageOrAuto::Length(n) => {
            assert_eq!(n.as_str().parse::<f64>().unwrap(), 10.5);
        }
        _ => panic!("no length"),
    }
}

#[test]
fn empty_and_wordy_text_is_auto() {
    assert_eq!(parse_length(""), LengthOrPercentageOrAuto::Auto);
    assert_eq!(parse_length("abc"), LengthOrPercentageOrAuto::Auto);
    assert_eq!(parse_length("px"), LengthOrPercentageOrAuto::Auto);
    assert_eq!(parse_length("%"), LengthOrPercentageOrAuto::Auto);
}

#[test]
fn space_characters_alone_are_auto() {
    assert_eq!(parse_length(" "), LengthOrPercentageOrAuto::Auto);
    assert_eq!(parse_length("    "), LengthOrPercentageOrAuto::Auto);
    assert_eq!(parse_length(" \t\n\x0c\r"), LengthOrPercentageOrAuto::Auto);
    assert_eq!(parse_nonzero("\t\t"), LengthOrPercentageOrAuto::Auto);
}

#[test]
fn leading_spaces_and_one_plus_are_passed_over() {
    assert_eq!(parse_length("  12"), length("12"));
    assert_eq!(parse_length("+5"), length("5"));
    assert_eq!(parse_length(" \t+5%"), percentage("5"));
    assert_eq!(parse_length("++5"), LengthOrPercentageOrAuto::Auto);
    assert_eq!(parse_length("+ 5"), LengthOrPercentageOrAuto::Auto);
    assert_eq!(parse_length("+"), LengthOrPercentageOrAuto::Auto);
}

#[test]
fn a_digit_must_come_first() {
    assert_eq!(parse_length("-5"), LengthOrPercentageOrAuto::Auto);
    assert_eq!(parse_length(".5"), LengthOrPercentageOrAuto::Auto);
    assert_eq!(parse_length("."), LengthOrPercentageOrAuto::Auto);
    assert_eq!(parse_length("\u{a0}5"), LengthOrPercentageOrAuto::Auto);
}

#[test]
fn the_number_ends_at_the_first_other_character() {
    assert_eq!(parse_length("12px"), length("12"));
    assert_eq!(parse_length("12 %"), length("12"));
    assert_eq!(parse_length("1e5"), length("1"));
    assert_eq!(parse_length("5 "), length("5"));
    assert_eq!(parse_length("5."), length("5."));
    assert_eq!(parse_length("5.%"), percentage("5."));
    assert_eq!(parse_length("5..%"), length("5."));
    assert_eq!(parse_length("1.5%.5"), percentage("1.5"));
    assert_eq!(parse_length("30%%"), percentage("30"));
    assert_eq!(parse_length("7\u{e9}"), length("7"));
}

#[test]
fn long_numbers_lose_no_digit() {
    let text = "123456789012345678901234567890.123456789012345678901234567890";
    assert_eq!(parse_length(text), length(text));
}

#[test]
fn zero_is_decided_by_the_flag() {
    assert_eq!(nonzero_dimension(length("5"), true), LengthOrPercentageOrAuto::Auto);
    assert_eq!(nonzero_dimension(percentage("5"), true), LengthOrPercentageOrAuto::Auto);
    assert_eq!(
        nonzero_dimension(LengthOrPercentageOrAuto::Auto, true),
        LengthOrPercentageOrAuto::Auto
    );
    assert_eq!(nonzero_dimension(length("0"), false), length("0"));
    assert_eq!(nonzero_dimension(percentage("0.5"), false), percentage("0.5"));
    assert_eq!(
        nonzero_dimension(LengthOrPercentageOrAuto::Auto, false),
        LengthOrPercentageOrAuto::Auto
    );
}

#[test]
fn a_zero_length_becomes_auto() {
    assert_eq!(parse_nonzero("0"), LengthOrPercentageOrAuto::Auto);
    assert_eq!(parse_nonzero("0.0"), LengthOrPercentageOrAuto::Auto);
    assert_eq!(parse_nonzero("0.0px"), LengthOrPercentageOrAuto::Auto);
    assert_eq!(parse_nonzero("0."), LengthOrPercentageOrAuto::Auto);
    assert_eq!(parse_nonzero("00"), LengthOrPercentageOrAuto::Auto);
    assert_eq!(parse_nonzero(" +0px"), LengthOrPercentageOrAuto::Auto);
}

#[test]
fn a_length_under_half_an_app_unit_becomes_auto() {
    assert_eq!(parse_nonzero("0.001"), LengthOrPercentageOrAuto::Auto);
    assert_eq!(parse_nonzero("0.008"), LengthOrPercentageOrAuto::Auto);
    assert_eq!(parse_nonzero("0.01"), length("0.01"));
}

#[test]
fn a_zero_percentage_becomes_auto() {
    assert_eq!(parse_nonzero("0%"), LengthOrPercentageOrAuto::Auto);
    assert_eq!(parse_nonzero("0.0%"), LengthOrPercentageOrAuto::Auto);
    assert_eq!(parse_nonzero("0.000%"), LengthOrPercentageOrAuto::Auto);
    let tiny = format!("0.{}1%", "0".repeat(50));
    assert_eq!(parse_nonzero(&tiny), LengthOrPercentageOrAuto::Auto);
    assert_eq!(parse_nonzero("0.0001%"), percentage("0.0001"));
}

#[test]
fn what_is_not_zero_passes_unchanged() {
    let texts = ["1", "0.5", "10%", "0.01", "100.0%", "abc", "", "  7px", "0.0001%", "10.5.5px"];
    for text in texts {
        assert_eq!(parse_nonzero(text), parse_length(text));
    }
    assert_eq!(parse_nonzero("0.5"), length("0.5"));
    assert_eq!(parse_nonzero("10%"), percentage("10"));
    assert_eq!(parse_nonzero("abc"), LengthOrPercentageOrAuto::Auto);
}

#[test]
fn a_number_written_out_parses_to_itself() {
    let texts = ["0", "5", "10.5", "0.25", "100", "3.", "007", "1234567890.0987654321"];
    for text in texts {
        let n = number(text);
        assert_eq!(parse_length(n.as_str()), LengthOrPercentageOrAuto::Length(n.clone()));
        let with_sign = format!("{}%", n.as_str());
        assert_eq!(parse_length(&with_sign), LengthOrPercentageOrAuto::Percentage(n));
    }
}

#[test]
fn parsing_twice_gives_equal_values() {
    let first = parse_length("12.5%");
    let again = match &first {
        LengthOrPercentageOrAuto::Percentage(n) => parse_length(&format!("{}%", n.as_str())),
        _ => panic!("no percentage"),
    };
    assert_eq!(first, again);
}

#[test]
fn numbers_are_checked_when_made() {
    assert!(Number::new("12.5").is_some());
    assert!(Number::new("0").is_some());
    assert!(Number::new("3.").is_some());
    assert!(Number::new("").is_none());
    assert!(Number::new(".5").is_none());
    assert!(Number::new("1.2.3").is_none());
    assert!(Number::new("12a").is_none());
    assert!(Number::new("+1").is_none());
    assert!(Number::new(" 1").is_none());
    assert!(Number::new("1%").is_none());
    assert_eq!(number("12.5").as_str(), "12.5");
}

#[test]
fn clones_are_equal() {
    let parsed = parse_length("42%");
    assert_eq!(parsed.clone(), parsed);
    assert_eq!(LengthOrPercentageOrAuto::Auto.clone(), LengthOrPercentageOrAuto::Auto);
    assert_eq!(number("4.2").clone(), number("4.2"));
}
