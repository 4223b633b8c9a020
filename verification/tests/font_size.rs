use html_str::parse_legacy_font_size;

#[test]
fn relative_plus() {
    assert_eq!(parse_legacy_font_size("+2"), Some("x-large"));
    assert_eq!(parse_legacy_font_size("+0"), Some("medium"));
    assert_eq!(parse_legacy_font_size("+1"), Some("large"));
    assert_eq!(parse_legacy_font_size("+3"), Some("xx-large"));
    assert_eq!(parse_legacy_font_size("+4"), Some("xxx-large"));
    assert_eq!(parse_legacy_font_size("+5"), Some("xxx-large"));
}

#[test]
fn relative_minus() {
    assert_eq!(parse_legacy_font_size("-0"), Some("medium"));
    assert_eq!(parse_legacy_font_size("-1"), Some("small"));
    assert_eq!(parse_legacy_font_size("-2"), Some("x-small"));
    assert_eq!(parse_legacy_font_size("-3"), Some("x-small"));
    assert_eq!(parse_legacy_font_size("-10"), Some("x-small"));
}

#[test]
fn absolute_sizes() {
    assert_eq!(parse_legacy_font_size("0"), Some("x-small"));
    assert_eq!(parse_legacy_font_size("1"), Some("x-small"));
    assert_eq!(parse_legacy_font_size("2"), Some("small"));
    assert_eq!(parse_legacy_font_size("3"), Some("medium"));
    assert_eq!(parse_legacy_font_size("4"), Some("large"));
    assert_eq!(parse_legacy_font_size("5"), Some("x-large"));
    assert_eq!(parse_legacy_font_size("6"), Some("xx-large"));
    assert_eq!(parse_legacy_font_size("7"), Some("xxx-large"));
    assert_eq!(parse_legacy_font_size("8"), Some("xxx-large"));
    assert_eq!(parse_legacy_font_size("1000"), Some("xxx-large"));
}

#[test]
fn empty_text_has_no_size() {
    assert_eq!(parse_legacy_font_size(""), None);
    assert_eq!(parse_legacy_font_size(" "), None);
    assert_eq!(parse_legacy_font_size(" \t\n\x0c\r "), None);
}

#[test]
fn no_digit_is_no_size() {
    assert_eq!(parse_legacy_font_size("abc"), None);
    assert_eq!(parse_legacy_font_size("+"), None);
    assert_eq!(parse_legacy_font_size("-"), None);
    assert_eq!(parse_legacy_font_size("+ 2"), None);
    assert_eq!(parse_legacy_font_size("+-2"), None);
    assert_eq!(parse_legacy_font_size("x5"), None);
    assert_eq!(parse_legacy_font_size(" + "), None);
}

#[test]
fn space_characters_around_are_trimmed() {
    assert_eq!(parse_legacy_font_size("  5  "), Some("x-large"));
    assert_eq!(parse_legacy_font_size("\t+2\n"), Some("x-large"));
    assert_eq!(parse_legacy_font_size("\r-1\x0c"), Some("small"));
}

#[test]
fn what_follows_the_size_is_ignored() {
    assert_eq!(parse_legacy_font_size("5abc"), Some("x-large"));
    assert_eq!(parse_legacy_font_size("2 4"), Some("small"));
    assert_eq!(parse_legacy_font_size("+1.9"), Some("large"));
}

#[test]
fn large_numbers_are_clamped() {
    assert_eq!(parse_legacy_font_size("9223372036854775807"), Some("xxx-large"));
    assert_eq!(parse_legacy_font_size("+9223372036854775807"), Some("xxx-large"));
    assert_eq!(parse_legacy_font_size("+9223372036854775804"), Some("xxx-large"));
    assert_eq!(parse_legacy_font_size("-9223372036854775807"), Some("x-small"));
}

#[test]
fn more_than_64_bits_is_no_size() {
    assert_eq!(parse_legacy_font_size("9223372036854775808"), None);
    assert_eq!(parse_legacy_font_size("+9223372036854775808"), None);
    assert_eq!(parse_legacy_font_size("-99999999999999999999"), None);
}
