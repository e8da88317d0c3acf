use money_tally::args::{parse_args, parse_decimal_arg, parse_map_spec, ArgsError, Flag};
use money_tally::currency::{Currency, SymbolMap};
use money_tally::tally::{can_merge, scan, CurrencyMap, ScanError};

fn err_of(raw: &[&str]) -> ArgsError {
    match parse_args(raw.iter().map(|s| s.to_string()).collect()) {
        Ok(_) => panic!("expected an error for {raw:?}"),
        Err(e) => e,
    }
}

#[test]
fn missing_values_name_their_flag() {
    assert!(matches!(err_of(&["--map"]), ArgsError::MissingValue(Flag::MapArg)));
    assert!(matches!(err_of(&["--min"]), ArgsError::MissingValue(Flag::MinArg)));
    assert!(matches!(err_of(&["a.txt", "--max"]), ArgsError::MissingValue(Flag::MaxArg)));
    assert_eq!(err_of(&["--map"]).message(), "--map requires an argument, e.g. --map $=USD");
    assert_eq!(err_of(&["--min"]).message(), "--min requires an argument, e.g. --min 10");
    assert_eq!(err_of(&["--max"]).message(), "--max requires an argument, e.g. --max 100");
}

#[test]
fn map_entry_errors() {
    let e = err_of(&["--map=$USD"]);
    assert!(matches!(&e, ArgsError::InvalidMapEntry(p) if p == "$USD"));
    assert_eq!(e.message(), "invalid --map entry \"$USD\", expected SYMBOL=CODE");
    let e = err_of(&["--map", "$$=USD"]);
    assert!(matches!(&e, ArgsError::InvalidMapSymbol(s) if s == "$$"));
    assert_eq!(e.message(), "invalid --map symbol \"$$\", expected a single character");
    let e = err_of(&["--map", "=USD"]);
    assert!(matches!(&e, ArgsError::InvalidMapSymbol(s) if s.is_empty()));
    let e = err_of(&["--map=$=usd"]);
    assert!(matches!(&e, ArgsError::InvalidMapCode(c) if c == "usd"));
    assert_eq!(e.message(), "invalid --map code \"usd\", expected three uppercase letters");
    let e = err_of(&["--map=$=USDX"]);
    assert!(matches!(&e, ArgsError::InvalidMapCode(c) if c == "USDX"));
    let e = err_of(&["--map=$=USD,"]);
    assert!(matches!(&e, ArgsError::InvalidMapEntry(p) if p.is_empty()));
}

#[test]
fn map_spec_keeps_entries_before_a_bad_one() {
    let mut map = SymbolMap::new();
    assert!(parse_map_spec("$=USD,x,\u{a3}=GBP", &mut map).is_err());
    assert_eq!(map.get(&'$'), Some(&"USD".to_string()));
    assert_eq!(map.get(&'\u{a3}'), None);
}

#[test]
fn map_spec_later_entry_wins() {
    let mut map = SymbolMap::new();
    parse_map_spec("$=USD,$=CAD", &mut map).unwrap();
    assert_eq!(map.get(&'$'), Some(&"CAD".to_string()));
    let args = parse_args(vec!["--map=$=USD".to_string(), "--map=$=AUD".to_string()]).unwrap();
    assert_eq!(args.map.get(&'$'), Some(&"AUD".to_string()));
}

#[test]
fn decimal_value_errors() {
    let e = parse_decimal_arg("min", "abc").unwrap_err();
    assert!(matches!(&e, ArgsError::InvalidValue(f, v) if f == "min" && v == "abc"));
    assert_eq!(e.message(), "invalid --min value \"abc\", expected a number like 10 or 10.50");
    assert!(matches!(parse_decimal_arg("max", "10x"), Err(ArgsError::InvalidValue(_, _))));
    assert!(matches!(parse_decimal_arg("max", ""), Err(ArgsError::InvalidValue(_, _))));
    assert!(matches!(parse_decimal_arg("max", "-"), Err(ArgsError::InvalidValue(_, _))));
    assert!(matches!(parse_decimal_arg("max", "5."), Err(ArgsError::InvalidValue(_, _))));
    let e = parse_decimal_arg("max", "99999999999999999999").unwrap_err();
    assert!(matches!(&e, ArgsError::ValueTooLarge(f, v) if f == "max" && v == "99999999999999999999"));
    assert_eq!(parse_decimal_arg("max", "1,000.255").unwrap(), 100025);
    assert_eq!(parse_decimal_arg("min", "92233720368547758.07").unwrap(), i64::MAX);
    assert!(matches!(
        parse_decimal_arg("min", "92233720368547758.08"),
        Err(ArgsError::ValueTooLarge(_, _))
    ));
    assert!(matches!(err_of(&["--min=1e5"]), ArgsError::InvalidValue(_, _)));
}

#[test]
fn min_above_max_reports_both_bounds() {
    let e = err_of(&["--min=1000", "--max", "-2.5"]);
    assert!(matches!(e, ArgsError::MinAboveMax(100000, -250)));
    assert_eq!(e.message(), "--min (1,000.00) is greater than --max (-2.50)");
    assert!(parse_args(vec!["--min=5".to_string(), "--max=5".to_string()]).is_ok());
}

#[test]
fn scan_rejects_an_amount_that_does_not_fit() {
    let args = parse_args(vec![]).unwrap();
    let mut totals = CurrencyMap::new();
    let mut counts = CurrencyMap::new();
    scan("$1", &args, &mut totals, &mut counts).unwrap();
    // A bare number is read even when no code follows it.
    let r = scan("$2 and 99999999999999999999 items", &args, &mut totals, &mut counts);
    assert!(matches!(r, Err(ScanError::AmountTooLarge)));
    assert_eq!(totals.get(&Currency::Symbol('$')), Some(&100));
    assert_eq!(counts.get(&Currency::Symbol('$')), Some(&1));
}

#[test]
fn scan_rejects_a_total_that_does_not_fit() {
    let args = parse_args(vec![]).unwrap();
    let mut totals = CurrencyMap::new();
    let mut counts = CurrencyMap::new();
    scan("$92,233,720,368,547,758.07", &args, &mut totals, &mut counts).unwrap();
    let r = scan("$3 $0.01", &args, &mut totals, &mut counts);
    assert!(matches!(r, Err(ScanError::TotalOutOfRange)));
    assert_eq!(totals.get(&Currency::Symbol('$')), Some(&i64::MAX));
    assert_eq!(counts.get(&Currency::Symbol('$')), Some(&1));
    // A running total may not pass the limit even if later amounts bring it back.
    let r = scan("$0.01 -$5", &args, &mut totals, &mut counts);
    assert!(matches!(r, Err(ScanError::TotalOutOfRange)));
    scan("-$5 $0.01", &args, &mut totals, &mut counts).unwrap();
    assert_eq!(totals.get(&Currency::Symbol('$')), Some(&(i64::MAX - 499)));
}

#[test]
fn merge_that_does_not_fit_is_detected() {
    let args = parse_args(vec![]).unwrap();
    let mut t1 = CurrencyMap::new();
    let mut c1 = CurrencyMap::new();
    scan("$92,233,720,368,547,758.07", &args, &mut t1, &mut c1).unwrap();
    let mut t2 = CurrencyMap::new();
    let mut c2 = CurrencyMap::new();
    scan("$1", &args, &mut t2, &mut c2).unwrap();
    assert!(!can_merge(&t1, &c1, &t2, &c2));
    let mut t3 = CurrencyMap::new();
    let mut c3 = CurrencyMap::new();
    scan("-$1 5 USD", &args, &mut t3, &mut c3).unwrap();
    assert!(can_merge(&t1, &c1, &t3, &c3));
}
