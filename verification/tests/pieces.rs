use money_tally::amount::{currency_code_after, parse_amount};
use money_tally::currency::{Currency, SymbolMap};
use money_tally::scanner::find_amounts;

fn chars(s: &str) -> Vec<char> {
    s.chars().collect()
}

#[test]
fn parse_amount_edges() {
    assert_eq!(parse_amount(&chars("12"), 2), None);
    assert_eq!(parse_amount(&chars("12"), 7), None);
    assert_eq!(parse_amount(&chars("x7.05y"), 1), Some((705, 5)));
    assert_eq!(parse_amount(&chars("1.2.3"), 0), Some((120, 3)));
    assert_eq!(parse_amount(&chars("1,,2,"), 0), Some((1200, 5)));
    assert_eq!(parse_amount(&chars("0.0"), 0), Some((0, 3)));
    assert_eq!(parse_amount(&chars("3.x"), 0), Some((300, 1)));
}

#[test]
fn currency_code_after_edges() {
    let c = chars("5   EUR.");
    assert_eq!(currency_code_after(&c, 1), Some(("EUR".to_string(), 7)));
    assert_eq!(currency_code_after(&chars("5 EU"), 1), None);
    assert_eq!(currency_code_after(&chars("5 EURO"), 1), None);
    assert_eq!(currency_code_after(&chars("5 Eur"), 1), None);
    assert_eq!(currency_code_after(&chars("5\tEUR"), 1), None);
    assert_eq!(currency_code_after(&chars("5 EUR\u{e9}"), 1), Some(("EUR".to_string(), 5)));
}

#[test]
fn find_amounts_more_edges() {
    let none = SymbolMap::new();
    // A bare number is consumed whole, so its tail is not read again.
    assert_eq!(find_amounts("1234 5 USD", &none), vec![(Currency::Code("USD".to_string()), 500)]);
    // The closing paren must follow the code directly.
    assert_eq!(
        find_amounts("(12.50 USD )", &none),
        vec![(Currency::Code("USD".to_string()), 1250)]
    );
    // Digits right after a letter are not a number.
    assert_eq!(find_amounts("x5 USD", &none), vec![]);
    // A symbol glued to a letter still starts an amount.
    assert_eq!(find_amounts("a$5", &none), vec![(Currency::Symbol('$'), 500)]);
    // Two symbols in a row: the first has no amount.
    assert_eq!(find_amounts("$$7", &none), vec![(Currency::Symbol('$'), 700)]);
    assert_eq!(find_amounts("-(\u{a5}3)", &none), vec![(Currency::Symbol('\u{a5}'), -300)]);
    assert_eq!(
        find_amounts("$1,000.999 and 7USD", &none),
        vec![(Currency::Symbol('$'), 100099), (Currency::Code("USD".to_string()), 700)]
    );
}
