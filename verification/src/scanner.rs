//! Finding every amount in a line of text.

use vstd::prelude::*;
use crate::amount::{
    amount_fits, currency_code_after, lemma_parse_amount_shape, parse_amount_wide,
    spec_code_after, spec_parse_amount,
};
use crate::currency::{is_currency_symbol, is_symbol, Currency, CurrencyView, SymbolMap};
use crate::text::{chars_of, is_alnum, is_ascii_alphanumeric, is_ascii_digit, is_digit};

verus! {

/// A `-` stands right before position `i`.
pub open spec fn dash_before(s: Seq<char>, i: int) -> bool {
    i > 0 && s[i - 1] == '-'
}

/// A `(` stands right before position `i` and a `)` right at `end`.
pub open spec fn parens_around(s: Seq<char>, i: int, end: int) -> bool {
    i > 0 && s[i - 1] == '(' && end < s.len() && s[end] == ')'
}

/// A digit at a word boundary: the start of a bare number.
pub open spec fn number_starts(s: Seq<char>, i: int) -> bool {
    is_digit(s[i]) && (i == 0 || !is_alnum(s[i - 1]))
}

/// `v` negated when `negative`.
pub open spec fn signed(v: int, negative: bool) -> int {
    if negative {
        -v
    } else {
        v
    }
}

/// What a symbol is counted under, given the symbol map.
pub open spec fn symbol_currency(map: Map<char, Seq<char>>, c: char) -> CurrencyView {
    if map.contains_key(c) {
        CurrencyView::Code(map[c])
    } else {
        CurrencyView::Symbol(c)
    }
}

/// Where the scan goes on after looking at position `i`: past a symbol amount
/// (and its closing paren, if it is parenthesized), past the digits of a bare
/// number (whether or not a code follows), or to the next character.
pub open spec fn step_next(s: Seq<char>, i: int) -> int {
    if is_symbol(s[i]) {
        match spec_parse_amount(s, i + 1) {
            Some((_, n)) => if parens_around(s, i, n) {
                n + 1
            } else {
                n
            },
            None => i + 1,
        }
    } else if number_starts(s, i) {
        match spec_parse_amount(s, i) {
            Some((_, n)) => n,
            None => i + 1,
        }
    } else {
        i + 1
    }
}

/// The amount recognized at position `i`, if any: a symbol followed by an
/// amount, or a bare number followed by a currency code. It is negative when
/// a `-` stands right before it or when it is wrapped in parentheses.
pub open spec fn step_amount(s: Seq<char>, map: Map<char, Seq<char>>, i: int) -> Option<
    (CurrencyView, int),
> {
    if is_symbol(s[i]) {
        match spec_parse_amount(s, i + 1) {
            Some((cents, n)) => Some(
                (
                    symbol_currency(map, s[i]),
                    signed(cents, dash_before(s, i) || parens_around(s, i, n)),
                ),
            ),
            None => None,
        }
    } else if number_starts(s, i) {
        match spec_parse_amount(s, i) {
            Some((cents, n)) => match spec_code_after(s, n) {
                Some((code, end)) => Some(
                    (
                        CurrencyView::Code(code),
                        signed(cents, dash_before(s, i) || parens_around(s, i, end)),
                    ),
                ),
                None => None,
            },
            None => None,
        }
    } else {
        None
    }
}

/// Whether the amount read at position `i`, if any, fits in an `i64`.
pub open spec fn step_fits(s: Seq<char>, i: int) -> bool {
    if is_symbol(s[i]) {
        amount_fits(s, i + 1)
    } else if number_starts(s, i) {
        amount_fits(s, i)
    } else {
        true
    }
}

pub open spec fn option_seq<T>(o: Option<T>) -> Seq<T> {
    match o {
        Some(x) => seq![x],
        None => Seq::empty(),
    }
}

/// The amounts recognized from position `i` on, in order.
pub open spec fn amounts_from(s: Seq<char>, map: Map<char, Seq<char>>, i: int) -> Seq<
    (CurrencyView, int),
>
    decreases s.len() - i,
{
    if 0 <= i < s.len() && i < step_next(s, i) <= s.len() {
        option_seq(step_amount(s, map, i)) + amounts_from(s, map, step_next(s, i))
    } else {
        Seq::empty()
    }
}

/// Whether every amount read from position `i` on fits in an `i64`.
pub open spec fn fits_from(s: Seq<char>, i: int) -> bool
    decreases s.len() - i,
{
    if 0 <= i < s.len() && i < step_next(s, i) <= s.len() {
        step_fits(s, i) && fits_from(s, step_next(s, i))
    } else {
        true
    }
}

/// The amounts of a line, in the order they appear, as (currency, cents).
pub open spec fn line_amounts(s: Seq<char>, map: Map<char, Seq<char>>) -> Seq<(CurrencyView, int)> {
    amounts_from(s, map, 0)
}

/// Every amount read from the line fits in an `i64`.
pub open spec fn amounts_fit(s: Seq<char>) -> bool {
    fits_from(s, 0)
}

/// The mathematical value of found amounts.
pub open spec fn amounts_view(v: Seq<(Currency, i64)>) -> Seq<(CurrencyView, int)> {
    v.map_values(|p: (Currency, i64)| (p.0@, p.1 as int))
}

pub proof fn lemma_step_advances(s: Seq<char>, i: int)
    requires
        0 <= i < s.len(),
    ensures
        i < step_next(s, i) <= s.len(),
{
    if is_symbol(s[i]) {
        if spec_parse_amount(s, i + 1) is Some {
            lemma_parse_amount_shape(s, i + 1);
        }
    } else if number_starts(s, i) {
        lemma_parse_amount_shape(s, i);
    }
}

/// All amounts of the line, or `None` when one of the numbers read does not
/// fit in an `i64`.
pub(crate) fn find_amounts_in(chars: &Vec<char>, symbol_map: &SymbolMap) -> (r: Option<
    Vec<(Currency, i64)>,
>)
    ensures
        r is Some <==> amounts_fit(chars@),
        r matches Some(v) ==> amounts_view(v@) == line_amounts(chars@, symbol_map@),
{
    let ghost s = chars@;
    let ghost m = symbol_map@;
    let len = chars.len();
    let mut found: Vec<(Currency, i64)> = Vec::new();
    let mut i: usize = 0;
    while i < len
        invariant
            len == s.len(),
            chars@ == s,
            symbol_map@ == m,
            i <= len,
            amounts_view(found@) + amounts_from(s, m, i as int) == amounts_from(s, m, 0),
            fits_from(s, i as int) == fits_from(s, 0),
        decreases len - i,
    {
        proof {
            lemma_step_advances(s, i as int);
        }
        let ghost before = amounts_view(found@);
        let c = chars[i];
        let mut next = i + 1;
        if is_currency_symbol(c) {
            match parse_amount_wide(chars.as_slice(), i + 1) {
                None => {},
                Some((None, _)) => {
                    return None;
                },
                Some((Some(cents), n)) => {
                    proof {
                        lemma_parse_amount_shape(s, i + 1);
                    }
                    let dash = i > 0 && chars[i - 1] == '-';
                    let parens = i > 0 && chars[i - 1] == '(' && n < len && chars[n] == ')';
                    let currency = match symbol_map.get(&c) {
                        Some(code) => Currency::Code(code.clone()),
                        None => Currency::Symbol(c),
                    };
                    let value = if dash || parens {
                        -cents
                    } else {
                        cents
                    };
                    found.push((currency, value));
                    next = if parens {
                        n + 1
                    } else {
                        n
                    };
                },
            }
        } else if is_ascii_digit(c) && (i == 0 || !is_ascii_alphanumeric(chars[i - 1])) {
            match parse_amount_wide(chars.as_slice(), i) {
                None => {},
                Some((None, _)) => {
                    return None;
                },
                Some((Some(cents), n)) => {
                    proof {
                        lemma_parse_amount_shape(s, i as int);
                    }
                    match currency_code_after(chars.as_slice(), n) {
                        Some((code, code_end)) => {
                            let parens = i > 0 && chars[i - 1] == '(' && code_end < len
                                && chars[code_end] == ')';
                            let dash = i > 0 && chars[i - 1] == '-';
                            let value = if dash || parens {
                                -cents
                            } else {
                                cents
                            };
                            found.push((Currency::Code(code), value));
                        },
                        None => {},
                    }
                    next = n;
                },
            }
        }
        proof {
            assert(next == step_next(s, i as int));
            assert(amounts_view(found@) =~= before + option_seq(step_amount(s, m, i as int)));
            assert(amounts_from(s, m, i as int) == option_seq(step_amount(s, m, i as int))
                + amounts_from(s, m, next as int));
        }
        i = next;
    }
    assert(amounts_view(found@) =~= amounts_from(s, m, 0));
    Some(found)
}

/// Returns (currency, amount-in-minor-units) for every recognizable amount in
/// a line, e.g. "$1,234.56" -> (Symbol('$'), 123456), "-$5" -> (Symbol('$'),
/// -500), "($5.00)" -> (Symbol('$'), -500), "12.50 USD" -> (Code("USD"),
/// 1250). Symbols present in `symbol_map` are reported as their mapped
/// `Code` instead, so e.g. "$5" and "5 USD" land in the same total.
pub fn find_amounts(line: &str, symbol_map: &SymbolMap) -> (r: Vec<(Currency, i64)>)
    requires
        amounts_fit(line@),
    ensures
        amounts_view(r@) == line_amounts(line@, symbol_map@),
{
    let chars = chars_of(line);
    match find_amounts_in(&chars, symbol_map) {
        Some(found) => found,
        None => Vec::new(),
    }
}

} // verus!
