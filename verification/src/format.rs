//! Writing amounts and the totals report.

use vstd::prelude::*;
use crate::currency::{mapped_symbol, Currency, CurrencyView, SymbolMap};
use crate::tally::{strictly_sorted, CurrencyMap};
use crate::text::{char_of_digit, digit_char, push_char};

verus! {

/// The decimal digits of `n`, most significant first, without leading zeros.
pub open spec fn dec_digits(n: nat) -> Seq<char>
    decreases n,
{
    if n < 10 {
        seq![digit_char(n as int)]
    } else {
        dec_digits(n / 10).push(digit_char((n % 10) as int))
    }
}

/// The three decimal digits of `m < 1000`, zero-padded.
pub open spec fn three_digits(m: nat) -> Seq<char> {
    seq![digit_char((m / 100) as int), digit_char((m / 10 % 10) as int), digit_char((m % 10) as int)]
}

/// The decimal digits of `n` with a comma between each group of three,
/// counted from the right: 1234567 is "1,234,567".
pub open spec fn grouped(n: nat) -> Seq<char>
    decreases n,
{
    if n < 1000 {
        dec_digits(n)
    } else {
        grouped(n / 1000) + seq![','] + three_digits(n % 1000)
    }
}

pub open spec fn abs(c: int) -> nat {
    if c < 0 {
        (-c) as nat
    } else {
        c as nat
    }
}

/// Cents written as a decimal amount: an optional minus sign, the whole
/// units grouped by thousands, a point, and exactly two digits of cents.
pub open spec fn spec_format_cents(c: int) -> Seq<char> {
    let a = abs(c);
    let frac = a % 100;
    (if c < 0 {
        seq!['-']
    } else {
        Seq::<char>::empty()
    }) + grouped(a / 100) + seq!['.', digit_char((frac / 10) as int), digit_char((frac % 10) as int)]
}

/// Appends the decimal digits of `n`.
pub fn push_decimal(out: &mut String, n: u64)
    ensures
        final(out)@ == old(out)@ + dec_digits(n as nat),
    decreases n,
{
    if n < 10 {
        push_char(out, char_of_digit(n));
        assert(old(out)@.push(digit_char(n as int)) =~= old(out)@ + dec_digits(n as nat));
    } else {
        push_decimal(out, n / 10);
        push_char(out, char_of_digit(n % 10));
        assert(old(out)@ + dec_digits((n / 10) as nat) + seq![digit_char((n % 10) as int)]
            =~= old(out)@ + dec_digits(n as nat));
    }
}

/// Appends the digits of `n` grouped by thousands.
pub fn push_grouped(out: &mut String, n: u64)
    ensures
        final(out)@ == old(out)@ + grouped(n as nat),
    decreases n,
{
    if n < 1000 {
        push_decimal(out, n);
    } else {
        push_grouped(out, n / 1000);
        push_char(out, ',');
        let m = n % 1000;
        push_char(out, char_of_digit(m / 100));
        push_char(out, char_of_digit(m / 10 % 10));
        push_char(out, char_of_digit(m % 10));
        assert(old(out)@ + grouped((n / 1000) as nat) + seq![','] + three_digits(m as nat)
            =~= old(out)@ + grouped(n as nat));
    }
}

/// `n` in decimal.
pub fn decimal_string(n: u64) -> (s: String)
    ensures
        s@ == dec_digits(n as nat),
{
    let mut s = String::new();
    push_decimal(&mut s, n);
    assert(s@ =~= dec_digits(n as nat));
    s
}

/// Formats cents as a decimal amount with thousands separators, e.g. 2949 as
/// "29.49", -300 as "-3.00" and 123456789 as "1,234,567.89".
pub fn format_cents(cents: i64) -> (s: String)
    ensures
        s@ == spec_format_cents(cents as int),
{
    let negative = cents < 0;
    let a: u64 = if negative {
        (-(cents + 1)) as u64 + 1
    } else {
        cents as u64
    };
    assert(a == abs(cents as int));
    let whole = a / 100;
    let frac = a % 100;
    let mut s = String::new();
    if negative {
        push_char(&mut s, '-');
    }
    push_grouped(&mut s, whole);
    push_char(&mut s, '.');
    push_char(&mut s, char_of_digit(frac / 10));
    push_char(&mut s, char_of_digit(frac % 10));
    assert(s@ =~= spec_format_cents(cents as int));
    s
}

/// An empty suffix for exactly one amount, else "s".
pub open spec fn plural(n: nat) -> Seq<char> {
    if n == 1 {
        Seq::<char>::empty()
    } else {
        seq!['s']
    }
}

/// The symbol written in front of a code total: the symbol mapped to the
/// code, if any.
pub open spec fn code_prefix(map: Map<char, Seq<char>>, code: Seq<char>) -> Seq<char> {
    match mapped_symbol(map, code) {
        Some(c) => seq![c],
        None => Seq::<char>::empty(),
    }
}

/// One report line: "$29.49 total across 4 amounts" for a symbol,
/// "12.50 USD total across 1 amount" for a code, and
/// "$29.49 USD total across 4 amounts" for a code that a symbol is mapped to.
pub open spec fn report_line(
    currency: CurrencyView,
    cents: int,
    n: nat,
    map: Map<char, Seq<char>>,
) -> Seq<char> {
    let tail = " total across "@ + dec_digits(n) + " amount"@ + plural(n);
    match currency {
        CurrencyView::Symbol(c) => seq![c] + spec_format_cents(cents) + tail,
        CurrencyView::Code(code) => code_prefix(map, code) + spec_format_cents(cents) + seq![' ']
            + code + tail,
    }
}

fn line_for(currency: &Currency, cents: i64, n: u64, symbol_map: &SymbolMap) -> (s: String)
    ensures
        s@ == report_line(currency@, cents as int, n as nat, symbol_map@),
{
    let mut s = String::new();
    match currency {
        Currency::Symbol(c) => {
            push_char(&mut s, *c);
            s.append(format_cents(cents).as_str());
        },
        Currency::Code(code) => {
            match symbol_map.symbol_for(code) {
                Some(c) => push_char(&mut s, c),
                None => {},
            }
            s.append(format_cents(cents).as_str());
            push_char(&mut s, ' ');
            s.append(code.as_str());
        },
    }
    s.append(" total across ");
    push_decimal(&mut s, n);
    s.append(" amount");
    if n != 1 {
        push_char(&mut s, 's');
    }
    assert(s@ =~= report_line(currency@, cents as int, n as nat, symbol_map@));
    s
}

/// The lines of the totals report, one per currency in currency order, or a
/// single "no currency amounts found" line when there are no totals. A code
/// total that a symbol is mapped to is shown with that symbol in front.
pub fn report_lines(
    totals: &CurrencyMap<i64>,
    counts: &CurrencyMap<u64>,
    symbol_map: &SymbolMap,
) -> (lines: Vec<String>)
    requires
        forall|k: CurrencyView| #[trigger] totals@.contains_key(k) ==> counts@.contains_key(k),
    ensures
        strictly_sorted(totals.entries_view()),
        totals.entries_view().len() == 0 ==> lines@.len() == 1 && lines@[0]@
            == "no currency amounts found"@,
        totals.entries_view().len() > 0 ==> lines@.len() == totals.entries_view().len(),
        totals.entries_view().len() > 0 ==> forall|i: int|
            0 <= i < lines@.len() ==> (#[trigger] lines@[i])@ == report_line(
                totals.entries_view()[i].0,
                totals.entries_view()[i].1 as int,
                counts@[totals.entries_view()[i].0] as nat,
                symbol_map@,
            ),
{
    let mut lines: Vec<String> = Vec::new();
    let n = totals.len();
    if n == 0 {
        lines.push(String::from_str("no currency amounts found"));
        return lines;
    }
    for i in 0..n
        invariant
            n == totals.entries_view().len(),
            forall|k: CurrencyView| #[trigger] totals@.contains_key(k) ==> counts@.contains_key(k),
            lines@.len() == i,
            forall|j: int|
                0 <= j < i ==> (#[trigger] lines@[j])@ == report_line(
                    totals.entries_view()[j].0,
                    totals.entries_view()[j].1 as int,
                    counts@[totals.entries_view()[j].0] as nat,
                    symbol_map@,
                ),
    {
        let (currency, cents) = totals.entry_at(i);
        let count = match counts.get(currency) {
            Some(c) => *c,
            None => 0,
        };
        lines.push(line_for(currency, cents, count, symbol_map));
    }
    lines
}

} // verus!
