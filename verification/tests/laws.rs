use money_tally::args::{parse_args, parse_decimal_arg, Args};
use money_tally::currency::{Currency, SymbolMap};
use money_tally::format::format_cents;
use money_tally::scanner::find_amounts;
use money_tally::tally::{can_merge, merge_into, scan, CurrencyMap};

fn no_flags() -> Args {
    parse_args(vec![]).unwrap()
}

fn tally_lines(lines: &[&str], args: &Args) -> (CurrencyMap<i64>, CurrencyMap<u64>) {
    let mut totals = CurrencyMap::new();
    let mut counts = CurrencyMap::new();
    for line in lines {
        scan(line, args, &mut totals, &mut counts).unwrap();
    }
    (totals, counts)
}

#[test]
fn formatted_amounts_read_back_as_the_same_cents() {
    for c in [0i64, 5, 99, 100, 2949, -300, 123456789, -123456789, 100000, i64::MAX, i64::MIN + 1] {
        let text = format_cents(c);
        assert_eq!(parse_decimal_arg("min", &text).unwrap(), c, "{text}");
    }
}

#[test]
fn merging_per_file_totals_matches_scanning_everything_together() {
    let args = no_flags();
    let file_a = ["$4.50 coffee", "lunch 12.99 USD", "-$3.00 refund"];
    let file_b = ["$15.00 parking", "(2.00 USD) credit", "\u{a3}7"];
    let mut all: Vec<&str> = file_a.to_vec();
    all.extend_from_slice(&file_b);
    let (direct_totals, direct_counts) = tally_lines(&all, &args);

    let (mut totals, mut counts) = tally_lines(&file_a, &args);
    let (b_totals, b_counts) = tally_lines(&file_b, &args);
    assert!(can_merge(&totals, &counts, &b_totals, &b_counts));
    merge_into(&mut totals, &mut counts, &b_totals, &b_counts);

    for c in [
        Currency::Symbol('$'),
        Currency::Symbol('\u{a3}'),
        Currency::Code("USD".to_string()),
    ] {
        assert_eq!(totals.get(&c), direct_totals.get(&c));
        assert_eq!(counts.get(&c), direct_counts.get(&c));
    }
    assert_eq!(totals.len(), direct_totals.len());
    assert_eq!(totals.get(&Currency::Symbol('$')), Some(&1650));
    assert_eq!(counts.get(&Currency::Symbol('$')), Some(&3));
    assert_eq!(totals.get(&Currency::Code("USD".to_string())), Some(&1099));
}

#[test]
fn totals_and_counts_hold_the_same_currencies() {
    let args = no_flags();
    let (totals, counts) = tally_lines(&["$1 \u{20ac}2 3 GBP", "nothing", "\u{a5}4 $5"], &args);
    assert_eq!(totals.len(), 4);
    assert_eq!(counts.len(), 4);
    for i in 0..totals.len() {
        let (currency, _) = totals.entry_at(i);
        assert!(counts.get(currency).is_some());
    }
}

#[test]
fn amounts_outside_the_bounds_are_not_counted() {
    let args = parse_args(vec!["--min=-1".to_string(), "--max=2".to_string()]).unwrap();
    let (totals, counts) = tally_lines(&["$-0.50 -$0.99 -$1.00 -$1.01 $2 $2.01 $0"], &args);
    assert_eq!(totals.get(&Currency::Symbol('$')), Some(&1)); // -99 - 100 + 200 + 0
    assert_eq!(counts.get(&Currency::Symbol('$')), Some(&4));
}

#[test]
fn mapped_symbol_and_code_share_one_total() {
    let args = parse_args(vec!["--map".to_string(), "$=USD".to_string()]).unwrap();
    let (totals, counts) = tally_lines(&["$5 and 5 USD"], &args);
    assert_eq!(totals.get(&Currency::Code("USD".to_string())), Some(&1000));
    assert_eq!(counts.get(&Currency::Code("USD".to_string())), Some(&2));
    assert_eq!(totals.get(&Currency::Symbol('$')), None);
}

#[test]
fn distinct_symbols_are_never_mixed() {
    let found = find_amounts("$1 \u{a3}2 \u{20ac}3 \u{a5}4", &SymbolMap::new());
    assert_eq!(
        found,
        vec![
            (Currency::Symbol('$'), 100),
            (Currency::Symbol('\u{a3}'), 200),
            (Currency::Symbol('\u{20ac}'), 300),
            (Currency::Symbol('\u{a5}'), 400),
        ]
    );
}

#[test]
fn dash_or_parens_negate_an_amount() {
    let none = SymbolMap::new();
    for (plain, negated) in [
        ("$12.34 paid", "-$12.34 paid"),
        ("$12.34) paid", "($12.34) paid"),
        ("12.34 USD", "-12.34 USD"),
        ("12.34 USD)", "(12.34 USD)"),
        ("\u{20ac}1,000", "-\u{20ac}1,000"),
    ] {
        let a = find_amounts(plain, &none);
        let b = find_amounts(negated, &none);
        assert_eq!(a[0].0, b[0].0);
        assert_eq!(a[0].1, -b[0].1, "{plain} / {negated}");
        assert!(a[0].1 > 0);
    }
}

#[test]
fn totals_do_not_depend_on_line_breaks() {
    let args = no_flags();
    let (t1, c1) = tally_lines(&["$1 2 USD", "$3 (4 USD)"], &args);
    let (t2, c2) = tally_lines(&["$1 2 USD $3 (4 USD)"], &args);
    for c in [Currency::Symbol('$'), Currency::Code("USD".to_string())] {
        assert_eq!(t1.get(&c), t2.get(&c));
        assert_eq!(c1.get(&c), c2.get(&c));
    }
    assert_eq!(t1.get(&Currency::Code("USD".to_string())), Some(&-200));
}

#[test]
fn dash_negates_only_the_first_amount() {
    let none = SymbolMap::new();
    let plain = find_amounts("$5 then $6 and 7 EUR", &none);
    let dashed = find_amounts("-$5 then $6 and 7 EUR", &none);
    assert_eq!(dashed[0], (plain[0].0.clone(), -plain[0].1));
    assert_eq!(dashed[1..], plain[1..]);
    let plain = find_amounts("5 USD) then -$6", &none);
    let wrapped = find_amounts("(5 USD) then -$6", &none);
    assert_eq!(wrapped[0].1, -plain[0].1);
    assert_eq!(wrapped[1..], plain[1..]);
}

#[test]
fn formatted_amounts_have_the_documented_shape() {
    assert_eq!(format_cents(i64::MIN), "-92,233,720,368,547,758.08");
    assert_eq!(format_cents(i64::MAX), "92,233,720,368,547,758.07");
    assert_eq!(format_cents(-5), "-0.05");
    assert_eq!(format_cents(100000), "1,000.00");
    for x in [1i64, 99, 100, 123456, 999999999] {
        assert_eq!(format_cents(-x), format!("-{}", format_cents(x)));
    }
}

#[test]
fn decimal_values_are_read_without_their_dash() {
    assert_eq!(parse_decimal_arg("min", "-1,234.5").unwrap(), -123450);
    for bad in ["", "-", "--5", "5.", "5x", " 5"] {
        assert!(parse_decimal_arg("min", bad).is_err(), "{bad:?}");
    }
}

#[test]
fn valid_flags_keep_the_last_bounds_and_every_map() {
    let raw: Vec<String> = [
        "--min", "1", "a.txt", "--map=$=USD", "--max=9", "--per-file", "--min=2", "b.txt",
        "--map", "\u{a3}=GBP,$=CAD", "a.txt",
    ]
    .iter()
    .map(|s| s.to_string())
    .collect();
    let args = parse_args(raw).unwrap();
    assert_eq!(args.min, Some(200));
    assert_eq!(args.max, Some(900));
    assert!(args.per_file);
    assert_eq!(args.paths, vec!["a.txt".to_string(), "b.txt".to_string(), "a.txt".to_string()]);
    assert_eq!(args.map.get(&'$'), Some(&"CAD".to_string()));
    assert_eq!(args.map.get(&'\u{a3}'), Some(&"GBP".to_string()));
    let raw: Vec<String> = ["--min=20", "--max=1", "--max=30"].iter().map(|s| s.to_string()).collect();
    assert!(parse_args(raw).is_ok());
}

#[test]
fn per_file_merge_matches_direct_scan_over_many_lines() {
    let args = no_flags();
    let before = ["$1 2 USD", "\u{a3}3"];
    let file = ["$4.50", "-(1 USD)", "nothing here", "(2 USD) \u{a5}9", "$0.50"];
    let mut all: Vec<&str> = before.to_vec();
    all.extend_from_slice(&file);
    let (direct_t, direct_c) = tally_lines(&all, &args);
    let (mut t, mut c) = tally_lines(&before, &args);
    let (ft, fc) = tally_lines(&file, &args);
    assert!(can_merge(&t, &c, &ft, &fc));
    merge_into(&mut t, &mut c, &ft, &fc);
    assert_eq!(t.len(), direct_t.len());
    for i in 0..t.len() {
        let (cur, v) = t.entry_at(i);
        assert_eq!(direct_t.get(cur), Some(&v));
        assert_eq!(direct_c.get(cur), c.get(cur));
    }
    assert_eq!(t.get(&Currency::Symbol('$')), Some(&600));
}
