use money_tally::format::format_cents;

#[test]
fn format_cents_basic() {
    assert_eq!(format_cents(2949), "29.49");
}

#[test]
fn format_cents_negative() {
    assert_eq!(format_cents(-300), "-3.00");
}

#[test]
fn format_cents_thousands_grouping() {
    assert_eq!(format_cents(123456789), "1,234,567.89");
}

#[test]
fn format_cents_zero() {
    assert_eq!(format_cents(0), "0.00");
}
