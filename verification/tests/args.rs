use money_tally::args::{parse_args, parse_map_spec};
use money_tally::currency::SymbolMap;

#[test]
fn parse_map_spec_single_entry() {
    let mut map = SymbolMap::new();
    parse_map_spec("$=USD", &mut map).unwrap();
    assert_eq!(map.get(&'$'), Some(&"USD".to_string()));
}

#[test]
fn parse_map_spec_multiple_entries() {
    let mut map = SymbolMap::new();
    parse_map_spec("$=USD,\u{a3}=GBP", &mut map).unwrap();
    assert_eq!(map.get(&'$'), Some(&"USD".to_string()));
    assert_eq!(map.get(&'\u{a3}'), Some(&"GBP".to_string()));
}

#[test]
fn parse_map_spec_missing_equals_is_an_error() {
    let mut map = SymbolMap::new();
    assert!(parse_map_spec("$USD", &mut map).is_err());
}

#[test]
fn parse_map_spec_multi_char_symbol_is_an_error() {
    let mut map = SymbolMap::new();
    assert!(parse_map_spec("$$=USD", &mut map).is_err());
}

#[test]
fn parse_map_spec_lowercase_code_is_an_error() {
    let mut map = SymbolMap::new();
    assert!(parse_map_spec("$=usd", &mut map).is_err());
}

#[test]
fn parse_map_spec_wrong_length_code_is_an_error() {
    let mut map = SymbolMap::new();
    assert!(parse_map_spec("$=US", &mut map).is_err());
}

#[test]
fn parse_args_defaults_with_no_flags() {
    let args = parse_args(vec!["a.txt".to_string()]).unwrap();
    assert!(args.map.is_empty());
    assert!(!args.per_file);
    assert_eq!(args.min, None);
    assert_eq!(args.max, None);
    assert_eq!(args.paths, vec!["a.txt".to_string()]);
}

#[test]
fn parse_args_map_flag_with_separate_argument() {
    let raw = vec!["--map".to_string(), "$=USD".to_string(), "a.txt".to_string()];
    let args = parse_args(raw).unwrap();
    assert_eq!(args.map.get(&'$'), Some(&"USD".to_string()));
    assert_eq!(args.paths, vec!["a.txt".to_string()]);
}

#[test]
fn parse_args_map_flag_with_equals_form() {
    let raw = vec!["--map=$=USD".to_string()];
    let args = parse_args(raw).unwrap();
    assert_eq!(args.map.get(&'$'), Some(&"USD".to_string()));
}

#[test]
fn parse_args_map_with_no_argument_is_an_error() {
    let raw = vec!["--map".to_string()];
    assert!(parse_args(raw).is_err());
}

#[test]
fn parse_args_per_file_flag() {
    let raw = vec!["--per-file".to_string(), "a.txt".to_string(), "b.txt".to_string()];
    let args = parse_args(raw).unwrap();
    assert!(args.per_file);
    assert_eq!(args.paths, vec!["a.txt".to_string(), "b.txt".to_string()]);
}

#[test]
fn parse_args_min_flag_with_separate_argument() {
    let raw = vec!["--min".to_string(), "10.50".to_string(), "a.txt".to_string()];
    let args = parse_args(raw).unwrap();
    assert_eq!(args.min, Some(1050));
    assert_eq!(args.paths, vec!["a.txt".to_string()]);
}

#[test]
fn parse_args_max_flag_with_equals_form() {
    let raw = vec!["--max=100".to_string()];
    let args = parse_args(raw).unwrap();
    assert_eq!(args.max, Some(10000));
}

#[test]
fn parse_args_min_flag_accepts_negative_value() {
    let raw = vec!["--min=-5.00".to_string()];
    let args = parse_args(raw).unwrap();
    assert_eq!(args.min, Some(-500));
}

#[test]
fn parse_args_min_with_no_argument_is_an_error() {
    let raw = vec!["--min".to_string()];
    assert!(parse_args(raw).is_err());
}

#[test]
fn parse_args_min_with_garbage_value_is_an_error() {
    let raw = vec!["--min=abc".to_string()];
    assert!(parse_args(raw).is_err());
}

#[test]
fn parse_args_min_with_trailing_garbage_is_an_error() {
    let raw = vec!["--min=10x".to_string()];
    assert!(parse_args(raw).is_err());
}

#[test]
fn parse_args_min_greater_than_max_is_an_error() {
    let raw = vec!["--min=100".to_string(), "--max=10".to_string()];
    assert!(parse_args(raw).is_err());
}
