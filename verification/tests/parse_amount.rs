use money_tally::amount::parse_amount;

fn parse(chars_str: &str, start: usize) -> Option<(i64, usize)> {
    let chars: Vec<char> = chars_str.chars().collect();
    parse_amount(&chars, start)
}

#[test]
fn parse_amount_plain_whole_number() {
    assert_eq!(parse("500", 0), Some((50000, 3)));
}

#[test]
fn parse_amount_with_decimal() {
    assert_eq!(parse("12.34", 0), Some((1234, 5)));
}

#[test]
fn parse_amount_single_fraction_digit_is_scaled_to_tenths() {
    assert_eq!(parse("1.5", 0), Some((150, 3)));
}

#[test]
fn parse_amount_extra_fraction_digits_are_consumed_but_ignored() {
    // Only the first two fractional digits count toward cents, but a
    // third one still has to be swallowed so it isn't mistaken for the
    // start of a new number.
    assert_eq!(parse("1.239", 0), Some((123, 5)));
}

#[test]
fn parse_amount_trailing_dot_with_no_digits_is_not_consumed() {
    assert_eq!(parse("5.", 0), Some((500, 1)));
}

#[test]
fn parse_amount_thousands_separators() {
    assert_eq!(parse("1,234,567.89", 0), Some((123456789, 12)));
}

#[test]
fn parse_amount_comma_before_any_digit_is_rejected() {
    assert_eq!(parse(",500", 0), None);
}

#[test]
fn parse_amount_no_digits_is_none() {
    assert_eq!(parse("abc", 0), None);
}
