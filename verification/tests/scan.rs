use money_tally::args::parse_args;
use money_tally::currency::Currency;
use money_tally::tally::{scan, CurrencyMap};

#[test]
fn scan_min_filters_out_smaller_amounts() {
    let args = parse_args(vec!["--min=10".to_string()]).unwrap();
    let mut totals = CurrencyMap::new();
    let mut counts = CurrencyMap::new();
    let input = "$5 and $15";
    scan(input, &args, &mut totals, &mut counts).unwrap();
    assert_eq!(totals.get(&Currency::Symbol('$')), Some(&1500));
    assert_eq!(counts.get(&Currency::Symbol('$')), Some(&1));
}

#[test]
fn scan_max_filters_out_larger_amounts() {
    let args = parse_args(vec!["--max=10".to_string()]).unwrap();
    let mut totals = CurrencyMap::new();
    let mut counts = CurrencyMap::new();
    let input = "$5 and $15";
    scan(input, &args, &mut totals, &mut counts).unwrap();
    assert_eq!(totals.get(&Currency::Symbol('$')), Some(&500));
    assert_eq!(counts.get(&Currency::Symbol('$')), Some(&1));
}

#[test]
fn scan_min_and_max_together_keep_only_the_range() {
    let args = parse_args(vec!["--min=10".to_string(), "--max=20".to_string()]).unwrap();
    let mut totals = CurrencyMap::new();
    let mut counts = CurrencyMap::new();
    let input = "$5 $15 $25";
    scan(input, &args, &mut totals, &mut counts).unwrap();
    assert_eq!(totals.get(&Currency::Symbol('$')), Some(&1500));
    assert_eq!(counts.get(&Currency::Symbol('$')), Some(&1));
}
