use money_tally::currency::{Currency, SymbolMap};
use money_tally::scanner::find_amounts;

fn amounts(line: &str) -> Vec<(Currency, i64)> {
    find_amounts(line, &SymbolMap::new())
}

#[test]
fn find_amounts_empty_line() {
    assert_eq!(amounts(""), vec![]);
}

#[test]
fn find_amounts_plain_text_with_no_numbers() {
    assert_eq!(amounts("no money here"), vec![]);
}

#[test]
fn find_amounts_simple_symbol() {
    assert_eq!(amounts("$5"), vec![(Currency::Symbol('$'), 500)]);
}

#[test]
fn find_amounts_symbol_with_no_following_digits_is_ignored() {
    assert_eq!(amounts("$ five dollars"), vec![]);
}

#[test]
fn find_amounts_bare_symbol_at_end_of_line() {
    assert_eq!(amounts("cost: $"), vec![]);
}

#[test]
fn find_amounts_dash_negative_symbol() {
    assert_eq!(amounts("-$3.00"), vec![(Currency::Symbol('$'), -300)]);
}

#[test]
fn find_amounts_parenthesized_negative_symbol() {
    assert_eq!(amounts("($5.00)"), vec![(Currency::Symbol('$'), -500)]);
}

#[test]
fn find_amounts_unclosed_paren_is_not_negative() {
    assert_eq!(amounts("($5.00 refund pending"), vec![(Currency::Symbol('$'), 500)]);
}

#[test]
fn find_amounts_suffix_code() {
    assert_eq!(amounts("12.50 USD"), vec![(Currency::Code("USD".to_string()), 1250)]);
}

#[test]
fn find_amounts_suffix_code_with_no_space() {
    assert_eq!(amounts("12.50USD"), vec![(Currency::Code("USD".to_string()), 1250)]);
}

#[test]
fn find_amounts_negative_suffix_code() {
    assert_eq!(amounts("-12.50 USD"), vec![(Currency::Code("USD".to_string()), -1250)]);
}

#[test]
fn find_amounts_parenthesized_negative_suffix_code() {
    assert_eq!(amounts("(12.50 USD)"), vec![(Currency::Code("USD".to_string()), -1250)]);
}

#[test]
fn find_amounts_number_glued_to_extra_letters_is_not_a_code() {
    assert_eq!(amounts("12.50 USDT"), vec![]);
}

#[test]
fn find_amounts_code_glued_to_extra_digit_is_not_a_code() {
    assert_eq!(amounts("12.50 USD1"), vec![]);
}

#[test]
fn find_amounts_number_preceded_by_letters_is_not_a_word_boundary() {
    assert_eq!(amounts("AB123 USD"), vec![]);
}

#[test]
fn find_amounts_lowercase_suffix_is_not_a_code() {
    assert_eq!(amounts("12.50 usd"), vec![]);
}

#[test]
fn find_amounts_multiple_amounts_one_line() {
    assert_eq!(
        amounts("$5 and $10"),
        vec![(Currency::Symbol('$'), 500), (Currency::Symbol('$'), 1000)]
    );
}

#[test]
fn find_amounts_distinct_symbols_stay_distinct() {
    assert_eq!(
        amounts("$5 and \u{a3}5"),
        vec![(Currency::Symbol('$'), 500), (Currency::Symbol('\u{a3}'), 500)]
    );
}

#[test]
fn find_amounts_maps_symbol_to_code() {
    let mut map = SymbolMap::new();
    map.insert('$', "USD".to_string());
    assert_eq!(
        find_amounts("$5", &map),
        vec![(Currency::Code("USD".to_string()), 500)]
    );
}
