use money_tally::args::parse_args;
use money_tally::currency::{Currency, SymbolMap};
use money_tally::format::{decimal_string, report_lines};
use money_tally::tally::{scan, CurrencyMap};

#[test]
fn report_of_the_readme_receipts() {
    let args = parse_args(vec![]).unwrap();
    let mut totals = CurrencyMap::new();
    let mut counts = CurrencyMap::new();
    for line in [
        "Coffee            $4.50\n",
        "Lunch             $12.99\n",
        "Refund            -$3.00\n",
        "Parking          $15.00\n",
    ] {
        scan(line, &args, &mut totals, &mut counts).unwrap();
    }
    assert_eq!(report_lines(&totals, &counts, &args.map), vec!["$29.49 total across 4 amounts".to_string()]);
}

#[test]
fn report_with_a_mapped_symbol() {
    let args = parse_args(vec!["--map".to_string(), "$=USD".to_string()]).unwrap();
    let mut totals = CurrencyMap::new();
    let mut counts = CurrencyMap::new();
    for line in ["Coffee $4.50", "Lunch $12.99", "Refund -$3.00", "Parking $15.00"] {
        scan(line, &args, &mut totals, &mut counts).unwrap();
    }
    assert_eq!(
        report_lines(&totals, &counts, &args.map),
        vec!["$29.49 USD total across 4 amounts".to_string()]
    );
}

#[test]
fn report_of_nothing() {
    let totals = CurrencyMap::new();
    let counts = CurrencyMap::new();
    let map = SymbolMap::new();
    assert_eq!(report_lines(&totals, &counts, &map), vec!["no currency amounts found".to_string()]);
}

#[test]
fn report_lists_symbols_before_codes_in_order() {
    let args = parse_args(vec![]).unwrap();
    let mut totals = CurrencyMap::new();
    let mut counts = CurrencyMap::new();
    scan("1 USD \u{20ac}2 3 EUR $4 \u{a3}1,000.5 2 AUD", &args, &mut totals, &mut counts).unwrap();
    assert_eq!(
        report_lines(&totals, &counts, &args.map),
        vec![
            "$4.00 total across 1 amount".to_string(),
            "\u{a3}1,000.50 total across 1 amount".to_string(),
            "\u{20ac}2.00 total across 1 amount".to_string(),
            "2.00 AUD total across 1 amount".to_string(),
            "3.00 EUR total across 1 amount".to_string(),
            "1.00 USD total across 1 amount".to_string(),
        ]
    );
    assert_eq!(totals.entry_at(0).0, &Currency::Symbol('$'));
}

#[test]
fn decimal_string_of_counts() {
    assert_eq!(decimal_string(0), "0");
    assert_eq!(decimal_string(7), "7");
    assert_eq!(decimal_string(1234567), "1234567");
    assert_eq!(decimal_string(u64::MAX), "18446744073709551615");
}

#[test]
fn report_shows_each_mapped_symbol_before_its_code() {
    let args = parse_args(vec!["--map".to_string(), "$=USD,\u{a3}=GBP".to_string()]).unwrap();
    let mut totals = CurrencyMap::new();
    let mut counts = CurrencyMap::new();
    scan("$5 and 5 USD, \u{a3}2, 3 EUR, \u{20ac}1", &args, &mut totals, &mut counts).unwrap();
    assert_eq!(
        report_lines(&totals, &counts, &args.map),
        vec![
            "\u{20ac}1.00 total across 1 amount".to_string(),
            "3.00 EUR total across 1 amount".to_string(),
            "\u{a3}2.00 GBP total across 1 amount".to_string(),
            "$10.00 USD total across 2 amounts".to_string(),
        ]
    );
}

#[test]
fn report_uses_the_smallest_symbol_mapped_to_a_code() {
    let mut map = SymbolMap::new();
    map.insert('\u{a5}', "USD".to_string());
    map.insert('$', "USD".to_string());
    assert_eq!(map.symbol_for(&"USD".to_string()), Some('$'));
    assert_eq!(map.symbol_for(&"GBP".to_string()), None);
}
