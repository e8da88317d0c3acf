//! Properties of the library as a whole.

use vstd::prelude::*;
use crate::amount::{
    amount_fits, digits_end, digits_value, fraction_cents, is_num_char, lemma_parse_amount_shape,
    lemma_run_end_bounds, lemma_spaces_end_bounds, run_end, spaces_end, spec_code_after,
    spec_parse_amount,
};
use crate::args::{
    apply_map_spec, apply_pairs, finish_args, has_prefix, initial_args, long_flag, long_flag_eq,
    map_name, max_name, min_name, parse_from, parse_pair, per_file_flag, pieces_from,
    spec_decimal_arg, spec_parse_args, with_map, ArgsErrorView, ArgsView, Flag,
};
use crate::currency::{is_symbol, CurrencyView};
use crate::format::{
    abs, code_prefix, dec_digits, grouped, plural, report_line, spec_format_cents, three_digits,
};
use crate::scanner::{
    amounts_from, lemma_step_advances, line_amounts, number_starts, option_seq, signed,
    step_amount, step_next, symbol_currency,
};
use crate::tally::{
    count_for, count_in, counts_after, counts_merged, kept, lemma_count_zero_sum_zero, sum_for,
    total_in, totals_after, totals_merged, within,
};
use crate::text::{digit_char, digit_value, is_digit, is_upper};

verus! {

proof fn lemma_digit_char(d: int)
    requires
        0 <= d <= 9,
    ensures
        is_digit(digit_char(d)),
        digit_value(digit_char(d)) == d,
{
}

proof fn lemma_dec_digits(n: nat)
    ensures
        dec_digits(n).len() > 0,
        forall|i: int| 0 <= i < dec_digits(n).len() ==> is_digit(#[trigger] dec_digits(n)[i]),
        digits_value(dec_digits(n)) == n,
    decreases n,
{
    if n < 10 {
        lemma_digit_char(n as int);
        assert(dec_digits(n).drop_last() =~= Seq::<char>::empty());
        assert(dec_digits(n).last() == digit_char(n as int));
        assert(digits_value(Seq::<char>::empty()) == 0);
    } else {
        lemma_dec_digits(n / 10);
        lemma_digit_char((n % 10) as int);
        let d = dec_digits(n);
        assert(d.drop_last() =~= dec_digits(n / 10));
        assert(d.last() == digit_char((n % 10) as int));
        assert(n == (n / 10) * 10 + n % 10);
    }
}

proof fn lemma_grouped(n: nat)
    ensures
        grouped(n).len() > 0,
        is_digit(grouped(n)[0]),
        forall|i: int| 0 <= i < grouped(n).len() ==> is_num_char(#[trigger] grouped(n)[i]),
        digits_value(grouped(n)) == n,
    decreases n,
{
    if n < 1000 {
        lemma_dec_digits(n);
    } else {
        lemma_grouped(n / 1000);
        let g = grouped(n / 1000);
        let m = n % 1000;
        lemma_digit_char((m / 100) as int);
        lemma_digit_char((m / 10 % 10) as int);
        lemma_digit_char((m % 10) as int);
        let x = grouped(n);
        let t = three_digits(m);
        assert(x == g + seq![','] + t);
        let x1 = x.drop_last();
        let x2 = x1.drop_last();
        let x3 = x2.drop_last();
        assert(x3 =~= g.push(','));
        assert(x3.drop_last() =~= g);
        assert(x3.last() == ',');
        assert(x2 =~= x3.push(t[0]));
        assert(x1 =~= x2.push(t[1]));
        assert(x =~= x1.push(t[2]));
        assert(x.last() == t[2] && x1.last() == t[1] && x2.last() == t[0]);
        assert(digits_value(x3) == digits_value(g));
        assert(digits_value(x2) == digits_value(x3) * 10 + (m / 100));
        assert(digits_value(x1) == digits_value(x2) * 10 + (m / 10 % 10));
        assert(digits_value(x) == digits_value(x1) * 10 + (m % 10));
        assert(n == (n / 1000) * 1000 + m);
        assert(x[0] == g[0]);
        assert forall|i: int| 0 <= i < x.len() implies is_num_char(#[trigger] x[i]) by {
            if i < g.len() {
                assert(x[i] == g[i]);
            }
        }
        assert(m == (m / 100) * 100 + (m / 10 % 10) * 10 + m % 10);
    }
}

proof fn lemma_run_end_stop(s: Seq<char>, i: int, e: int)
    requires
        0 <= i <= e <= s.len(),
        forall|k: int| i <= k < e ==> is_num_char(#[trigger] s[k]),
        e == s.len() || !is_num_char(s[e]),
    ensures
        run_end(s, i) == e,
    decreases e - i,
{
    if i < e {
        lemma_run_end_stop(s, i + 1, e);
    }
}

/// Reading back a formatted amount as a `--min`/`--max` value gives the
/// same number of cents: thousands separators are skipped, a leading `-`
/// negates, and the two fraction digits are the cents. (`i64::MIN` is left
/// out: its magnitude has no `i64`.)
pub proof fn law_format_then_parse(flag: Seq<char>, c: i64)
    requires
        c != i64::MIN,
    ensures
        spec_decimal_arg(flag, spec_format_cents(c as int)) == Ok::<i64, ArgsErrorView>(c),
{
    let a = abs(c as int);
    let w = a / 100;
    let f = a % 100;
    let sign = if c < 0 {
        seq!['-']
    } else {
        Seq::<char>::empty()
    };
    let g = grouped(w);
    let tail = seq!['.', digit_char((f / 10) as int), digit_char((f % 10) as int)];
    let s = spec_format_cents(c as int);
    assert(s == sign + g + tail);
    lemma_grouped(w);
    lemma_digit_char((f / 10) as int);
    lemma_digit_char((f % 10) as int);
    let start = sign.len() as int;
    let e = start + g.len();
    assert(s.len() == e + 3);
    assert forall|k: int| start <= k < e implies is_num_char(#[trigger] s[k]) by {
        assert(s[k] == g[k - start]);
    }
    assert(s[e] == '.');
    lemma_run_end_stop(s, start, e);
    assert(s.subrange(start, e) =~= g);
    assert(s[start] == g[0]);
    assert(s[e + 1] == digit_char((f / 10) as int));
    assert(s[e + 2] == digit_char((f % 10) as int));
    assert(fraction_cents(s, e + 1) == f);
    assert(digits_end(s, e + 3) == e + 3);
    assert(digits_end(s, e + 2) == e + 3);
    assert(digits_end(s, e + 1) == e + 3);
    assert(spec_parse_amount(s, start) == Some(((w * 100 + f) as int, e + 3)));
    assert(w * 100 + f == a);
    if c < 0 {
        assert(s[0] == '-');
    } else {
        assert(s[0] == g[0]);
    }
}

/// Scanning a second input straight into running totals gives the same
/// totals as tallying it on its own and merging that into the running
/// totals (what a per-file breakdown does for its overall summary).
pub proof fn law_merge_matches_direct_totals(
    before: Map<CurrencyView, i64>,
    direct: Map<CurrencyView, i64>,
    alone: Map<CurrencyView, i64>,
    merged: Map<CurrencyView, i64>,
    b: Seq<(CurrencyView, int)>,
)
    requires
        totals_after(before, direct, b),
        totals_after(Map::empty(), alone, b),
        totals_merged(before, merged, alone),
    ensures
        merged == direct,
{
    assert forall|k: CurrencyView| merged.contains_key(k) <==> direct.contains_key(k) by {
        assert(merged.contains_key(k) <==> (before.contains_key(k) || alone.contains_key(k)));
        assert(direct.contains_key(k) <==> (before.contains_key(k) || count_for(b, k) > 0));
        assert(alone.contains_key(k) <==> count_for(b, k) > 0);
    }
    assert forall|k: CurrencyView| #[trigger] merged.contains_key(k) implies merged[k] == direct[k] by {
        lemma_count_zero_sum_zero(b, k);
        assert(alone.contains_key(k) ==> alone[k] == total_in(Map::empty(), k) + sum_for(b, k));
    }
    assert(merged =~= direct);
}

/// The same for counts.
pub proof fn law_merge_matches_direct_counts(
    before: Map<CurrencyView, u64>,
    direct: Map<CurrencyView, u64>,
    alone: Map<CurrencyView, u64>,
    merged: Map<CurrencyView, u64>,
    b: Seq<(CurrencyView, int)>,
)
    requires
        counts_after(before, direct, b),
        counts_after(Map::empty(), alone, b),
        counts_merged(before, merged, alone),
    ensures
        merged == direct,
{
    assert forall|k: CurrencyView| merged.contains_key(k) <==> direct.contains_key(k) by {
        assert(merged.contains_key(k) <==> (before.contains_key(k) || alone.contains_key(k)));
        assert(direct.contains_key(k) <==> (before.contains_key(k) || count_for(b, k) > 0));
        assert(alone.contains_key(k) <==> count_for(b, k) > 0);
    }
    assert forall|k: CurrencyView| #[trigger] merged.contains_key(k) implies merged[k] == direct[k] by {
        lemma_count_zero_sum_zero(b, k);
        assert(alone.contains_key(k) ==> alone[k] == count_in(Map::empty(), k) + count_for(b, k));
    }
    assert(merged =~= direct);
}

/// Totals and counts always hold the same currencies: adding a line's
/// amounts keeps them in step.
pub proof fn law_scan_keeps_currencies_in_step(
    t0: Map<CurrencyView, i64>,
    t1: Map<CurrencyView, i64>,
    c0: Map<CurrencyView, u64>,
    c1: Map<CurrencyView, u64>,
    a: Seq<(CurrencyView, int)>,
)
    requires
        totals_after(t0, t1, a),
        counts_after(c0, c1, a),
        t0.dom() == c0.dom(),
    ensures
        t1.dom() == c1.dom(),
{
    assert forall|k: CurrencyView| t1.dom().contains(k) <==> c1.dom().contains(k) by {
        assert(t0.contains_key(k) <==> c0.contains_key(k));
    }
    assert(t1.dom() =~= c1.dom());
}

/// Merging keeps totals and counts in step too.
pub proof fn law_merge_keeps_currencies_in_step(
    t0: Map<CurrencyView, i64>,
    t1: Map<CurrencyView, i64>,
    ft: Map<CurrencyView, i64>,
    c0: Map<CurrencyView, u64>,
    c1: Map<CurrencyView, u64>,
    fc: Map<CurrencyView, u64>,
)
    requires
        totals_merged(t0, t1, ft),
        counts_merged(c0, c1, fc),
        t0.dom() == c0.dom(),
        ft.dom() == fc.dom(),
    ensures
        t1.dom() == c1.dom(),
{
    assert forall|k: CurrencyView| t1.dom().contains(k) <==> c1.dom().contains(k) by {
        assert(t0.contains_key(k) <==> c0.contains_key(k));
        assert(ft.contains_key(k) <==> fc.contains_key(k));
    }
    assert(t1.dom() =~= c1.dom());
}

/// Only amounts within the bounds count, and without bounds every amount
/// counts.
pub proof fn law_bounds_filter(a: Seq<(CurrencyView, int)>, min: Option<i64>, max: Option<i64>)
    ensures
        forall|i: int|
            0 <= i < kept(a, min, max).len() ==> within(#[trigger] kept(a, min, max)[i].1, min, max),
        kept(a, None, None) == a,
    decreases a.len(),
{
    if a.len() > 0 {
        law_bounds_filter(a.drop_last(), min, max);
        let x = kept(a.drop_last(), min, max);
        if within(a.last().1, min, max) {
            assert forall|i: int|
                0 <= i < kept(a, min, max).len() implies within(
                #[trigger] kept(a, min, max)[i].1,
                min,
                max,
            ) by {
                if i < x.len() {
                    assert(kept(a, min, max)[i] == x[i]);
                }
            }
        }
        assert(a.drop_last().push(a.last()) =~= a);
    }
}

/// A three-letter uppercase code.
pub open spec fn is_code(code: Seq<char>) -> bool {
    code.len() == 3 && is_upper(code[0]) && is_upper(code[1]) && is_upper(code[2])
}

/// Where each amount is counted: a symbol only when it is one of the four
/// and not mapped to a code (mapped symbols are always counted under their
/// code), and a code only when it was written after the number or is the
/// code of a mapped symbol.
pub open spec fn currency_is_accounted(c: CurrencyView, map: Map<char, Seq<char>>) -> bool {
    match c {
        CurrencyView::Symbol(s) => is_symbol(s) && !map.contains_key(s),
        CurrencyView::Code(code) => is_code(code) || exists|s: char|
            map.contains_key(s) && #[trigger] map[s] == code,
    }
}

proof fn lemma_amounts_accounted(s: Seq<char>, map: Map<char, Seq<char>>, i: int)
    requires
        0 <= i,
    ensures
        forall|j: int|
            0 <= j < amounts_from(s, map, i).len() ==> currency_is_accounted(
                #[trigger] amounts_from(s, map, i)[j].0,
                map,
            ),
    decreases s.len() - i,
{
    if 0 <= i < s.len() {
        lemma_step_advances(s, i);
        let n = step_next(s, i);
        lemma_amounts_accounted(s, map, n);
        let first = option_seq(step_amount(s, map, i));
        let rest = amounts_from(s, map, n);
        assert(amounts_from(s, map, i) == first + rest);
        if let Some(p) = step_amount(s, map, i) {
            if is_symbol(s[i]) {
                if map.contains_key(s[i]) {
                    assert(map[s[i]] == map[s[i]]);
                }
            } else {
                let (_, n0) = spec_parse_amount(s, i)->0;
                lemma_parse_amount_shape(s, i);
                lemma_spaces_end_bounds(s, n0);
                let j = spaces_end(s, n0);
                let code = s.subrange(j, j + 3);
                assert(code[0] == s[j] && code[1] == s[j + 1] && code[2] == s[j + 2]);
            }
            assert(currency_is_accounted(p.0, map));
            assert(first =~= seq![p]);
        }
        assert forall|j: int|
            0 <= j < amounts_from(s, map, i).len() implies currency_is_accounted(
            #[trigger] amounts_from(s, map, i)[j].0,
            map,
        ) by {
            if j >= first.len() {
                assert(amounts_from(s, map, i)[j] == rest[j - first.len()]);
            }
        }
    }
}

/// Every amount found in a line is counted under its own symbol (`$` and `€`
/// never mixed), under a code written after it, or, for a mapped symbol,
/// under the mapped code.
pub proof fn law_amounts_accounted(s: Seq<char>, map: Map<char, Seq<char>>)
    ensures
        forall|j: int|
            0 <= j < line_amounts(s, map).len() ==> currency_is_accounted(
                #[trigger] line_amounts(s, map)[j].0,
                map,
            ),
{
    lemma_amounts_accounted(s, map, 0);
}

proof fn lemma_shift_run_end(p: Seq<char>, t: Seq<char>, i: int)
    requires
        0 <= i <= t.len(),
    ensures
        run_end(p + t, i + p.len()) == run_end(t, i) + p.len(),
    decreases t.len() - i,
{
    let s = p + t;
    assert(s.len() == p.len() + t.len());
    if i < t.len() {
        assert(s[i + p.len()] == t[i]);
        lemma_shift_run_end(p, t, i + 1);
    }
}

proof fn lemma_shift_digits_end(p: Seq<char>, t: Seq<char>, i: int)
    requires
        0 <= i <= t.len(),
    ensures
        digits_end(p + t, i + p.len()) == digits_end(t, i) + p.len(),
    decreases t.len() - i,
{
    let s = p + t;
    if i < t.len() {
        assert(s[i + p.len()] == t[i]);
        lemma_shift_digits_end(p, t, i + 1);
    }
}

/// Text in front of an amount does not change how it is read.
proof fn lemma_shift_parse(p: Seq<char>, t: Seq<char>, i: int)
    requires
        0 <= i,
    ensures
        spec_parse_amount(p + t, i + p.len()) == match spec_parse_amount(t, i) {
            Some((v, e)) => Some((v, e + p.len())),
            None => None,
        },
{
    let s = p + t;
    let k = p.len() as int;
    if i < t.len() {
        assert(s[i + k] == t[i]);
        lemma_shift_run_end(p, t, i);
        lemma_run_end_bounds(t, i);
        let e = run_end(t, i);
        assert(s.subrange(i + k, e + k) =~= t.subrange(i, e));
        if e + 1 < t.len() {
            assert(s[e + k] == t[e] && s[e + 1 + k] == t[e + 1]);
            if e + 2 < t.len() {
                assert(s[e + 2 + k] == t[e + 2]);
            }
            lemma_shift_digits_end(p, t, e + 1);
        }
    }
}

proof fn lemma_shift_spaces_end(p: Seq<char>, t: Seq<char>, i: int)
    requires
        0 <= i <= t.len(),
    ensures
        spaces_end(p + t, i + p.len()) == spaces_end(t, i) + p.len(),
    decreases t.len() - i,
{
    let s = p + t;
    if i < t.len() {
        assert(s[i + p.len()] == t[i]);
        lemma_shift_spaces_end(p, t, i + 1);
    }
}

proof fn lemma_shift_code_after(p: Seq<char>, t: Seq<char>, i: int)
    requires
        0 <= i <= t.len(),
    ensures
        spec_code_after(p + t, i + p.len()) == match spec_code_after(t, i) {
            Some((code, e)) => Some((code, e + p.len())),
            None => None,
        },
{
    let s = p + t;
    let k = p.len() as int;
    lemma_shift_spaces_end(p, t, i);
    lemma_spaces_end_bounds(t, i);
    let j = spaces_end(t, i);
    if j + 3 <= t.len() {
        assert(s[j + k] == t[j] && s[j + 1 + k] == t[j + 1] && s[j + 2 + k] == t[j + 2]);
        if j + 3 < t.len() {
            assert(s[j + 3 + k] == t[j + 3]);
        }
        assert(s.subrange(j + k, j + k + 3) =~= t.subrange(j, j + 3));
    }
}



proof fn lemma_sums_split(a: Seq<(CurrencyView, int)>, b: Seq<(CurrencyView, int)>, k: CurrencyView)
    ensures
        sum_for(a + b, k) == sum_for(a, k) + sum_for(b, k),
        count_for(a + b, k) == count_for(a, k) + count_for(b, k),
    decreases b.len(),
{
    if b.len() == 0 {
        assert(a + b =~= a);
    } else {
        lemma_sums_split(a, b.drop_last(), k);
        assert((a + b).drop_last() =~= a + b.drop_last());
        assert((a + b).last() == b.last());
    }
}

/// Adding the amounts of one line and then of another gives the totals and
/// counts of adding all of them at once: totals do not depend on how the
/// input is split into lines.
pub proof fn law_scans_compose(
    t0: Map<CurrencyView, i64>,
    t1: Map<CurrencyView, i64>,
    t2: Map<CurrencyView, i64>,
    c0: Map<CurrencyView, u64>,
    c1: Map<CurrencyView, u64>,
    c2: Map<CurrencyView, u64>,
    a: Seq<(CurrencyView, int)>,
    b: Seq<(CurrencyView, int)>,
)
    requires
        totals_after(t0, t1, a),
        totals_after(t1, t2, b),
        counts_after(c0, c1, a),
        counts_after(c1, c2, b),
    ensures
        totals_after(t0, t2, a + b),
        counts_after(c0, c2, a + b),
{
    assert forall|k: CurrencyView| #[trigger] t2.contains_key(k) <==> (t0.contains_key(k)
        || count_for(a + b, k) > 0) by {
        lemma_sums_split(a, b, k);
        lemma_count_zero_sum_zero(a, k);
        lemma_count_zero_sum_zero(b, k);
    }
    assert forall|k: CurrencyView| #[trigger] t2.contains_key(k) implies t2[k] == total_in(t0, k)
        + sum_for(a + b, k) by {
        lemma_sums_split(a, b, k);
        lemma_count_zero_sum_zero(a, k);
    }
    assert forall|k: CurrencyView| #[trigger] c2.contains_key(k) <==> (c0.contains_key(k)
        || count_for(a + b, k) > 0) by {
        lemma_sums_split(a, b, k);
        lemma_count_zero_sum_zero(a, k);
        lemma_count_zero_sum_zero(b, k);
    }
    assert forall|k: CurrencyView| #[trigger] c2.contains_key(k) implies c2[k] == count_in(c0, k)
        + count_for(a + b, k) by {
        lemma_sums_split(a, b, k);
        lemma_count_zero_sum_zero(a, k);
    }
}

/// One scanning step does not depend on text in front of the line, away
/// from the line's first character.
proof fn lemma_shift_step(p: Seq<char>, t: Seq<char>, map: Map<char, Seq<char>>, i: int)
    requires
        1 <= i < t.len(),
    ensures
        step_next(p + t, i + p.len()) == step_next(t, i) + p.len(),
        step_amount(p + t, map, i + p.len()) == step_amount(t, map, i),
{
    let s = p + t;
    let k = p.len() as int;
    assert(s[i + k] == t[i]);
    assert(s[i + k - 1] == t[i - 1]);
    if is_symbol(t[i]) {
        lemma_shift_parse(p, t, i + 1);
        if let Some((_, n)) = spec_parse_amount(t, i + 1) {
            lemma_parse_amount_shape(t, i + 1);
            if n < t.len() {
                assert(s[n + k] == t[n]);
            }
        }
    } else if number_starts(t, i) {
        lemma_shift_parse(p, t, i);
        lemma_parse_amount_shape(t, i);
        let n = spec_parse_amount(t, i).unwrap().1;
        lemma_shift_code_after(p, t, n);
        if let Some((_, e)) = spec_code_after(t, n) {
            lemma_spaces_end_bounds(t, n);
            if e < t.len() {
                assert(s[e + k] == t[e]);
            }
        }
    }
}

/// The amounts from position `i >= 1` of a line do not depend on text put in
/// front of it.
proof fn lemma_shift_amounts_from(p: Seq<char>, t: Seq<char>, map: Map<char, Seq<char>>, i: int)
    requires
        1 <= i,
    ensures
        amounts_from(p + t, map, i + p.len()) == amounts_from(t, map, i),
    decreases t.len() - i,
{
    let s = p + t;
    let k = p.len() as int;
    if i < t.len() {
        lemma_shift_step(p, t, map, i);
        lemma_step_advances(t, i);
        lemma_step_advances(s, i + k);
        lemma_shift_amounts_from(p, t, map, step_next(t, i));
    }
}

/// Unfolds the scan at position `i` by one step.
proof fn lemma_unfold(s: Seq<char>, map: Map<char, Seq<char>>, i: int)
    requires
        0 <= i < s.len(),
    ensures
        amounts_from(s, map, i) == option_seq(step_amount(s, map, i)) + amounts_from(
            s,
            map,
            step_next(s, i),
        ),
{
    lemma_step_advances(s, i);
}

/// A character that starts no amount is skipped.
proof fn lemma_skip(s: Seq<char>, map: Map<char, Seq<char>>, i: int)
    requires
        0 <= i < s.len(),
        !is_symbol(s[i]),
        !is_digit(s[i]),
    ensures
        amounts_from(s, map, i) == amounts_from(s, map, i + 1),
{
    lemma_unfold(s, map, i);
    assert(option_seq(step_amount(s, map, i)) =~= Seq::<(CurrencyView, int)>::empty());
    assert(amounts_from(s, map, i) =~= amounts_from(s, map, i + 1));
}

/// A `-` right before a currency symbol makes its amount negative and
/// leaves every later amount of the line unchanged: the amounts of "-"
/// followed by `t` are those of `t` with the first one negated.
pub proof fn law_dash_negates(t: Seq<char>, map: Map<char, Seq<char>>)
    requires
        t.len() > 0,
        is_symbol(t[0]),
        spec_parse_amount(t, 1) is Some,
    ensures
        line_amounts(t, map).len() > 0,
        line_amounts(t, map)[0] == (
            symbol_currency(map, t[0]),
            spec_parse_amount(t, 1).unwrap().0,
        ),
        line_amounts(t, map)[0].1 >= 0,
        line_amounts(seq!['-'] + t, map) == seq![
            (line_amounts(t, map)[0].0, -line_amounts(t, map)[0].1),
        ] + line_amounts(t, map).drop_first(),
{
    let p = seq!['-'];
    let s = p + t;
    let n = spec_parse_amount(t, 1).unwrap().1;
    lemma_parse_amount_shape(t, 1);
    lemma_shift_parse(p, t, 1);
    assert(s[1] == t[0]);
    lemma_unfold(t, map, 0);
    lemma_skip(s, map, 0);
    lemma_unfold(s, map, 1);
    lemma_shift_amounts_from(p, t, map, n);
    let rest = amounts_from(t, map, n);
    let a = step_amount(t, map, 0)->0;
    assert(line_amounts(t, map) == seq![a] + rest);
    assert((seq![a] + rest).drop_first() =~= rest);
    assert(line_amounts(s, map) == seq![(a.0, -a.1)] + rest);
}

/// Parentheses closing right after a symbol amount make it negative and
/// leave every later amount of the line unchanged.
pub proof fn law_parens_negate(t: Seq<char>, map: Map<char, Seq<char>>)
    requires
        t.len() > 0,
        is_symbol(t[0]),
        spec_parse_amount(t, 1) matches Some((_, e)) && e < t.len() && t[e] == ')',
    ensures
        line_amounts(t, map).len() > 0,
        line_amounts(t, map)[0].1 >= 0,
        line_amounts(seq!['('] + t, map) == seq![
            (line_amounts(t, map)[0].0, -line_amounts(t, map)[0].1),
        ] + line_amounts(t, map).drop_first(),
{
    let p = seq!['('];
    let s = p + t;
    let n = spec_parse_amount(t, 1).unwrap().1;
    lemma_parse_amount_shape(t, 1);
    lemma_shift_parse(p, t, 1);
    assert(s[1] == t[0]);
    assert(s[n + 1] == t[n]);
    lemma_unfold(t, map, 0);
    lemma_skip(t, map, n);
    lemma_skip(s, map, 0);
    lemma_unfold(s, map, 1);
    lemma_shift_amounts_from(p, t, map, n + 1);
    let rest = amounts_from(t, map, n);
    let a = step_amount(t, map, 0)->0;
    assert(line_amounts(t, map) == seq![a] + rest);
    assert((seq![a] + rest).drop_first() =~= rest);
    assert(line_amounts(s, map) == seq![(a.0, -a.1)] + rest);
}

/// A `-` right before a bare number followed by a code makes its amount
/// negative and leaves every later amount of the line unchanged.
pub proof fn law_dash_negates_code(t: Seq<char>, map: Map<char, Seq<char>>)
    requires
        t.len() > 0,
        is_digit(t[0]),
        spec_parse_amount(t, 0) matches Some((_, n)) && spec_code_after(t, n) is Some,
    ensures
        line_amounts(t, map).len() > 0,
        line_amounts(t, map)[0] == (
            CurrencyView::Code(
                spec_code_after(t, spec_parse_amount(t, 0).unwrap().1).unwrap().0,
            ),
            spec_parse_amount(t, 0).unwrap().0,
        ),
        line_amounts(t, map)[0].1 >= 0,
        line_amounts(seq!['-'] + t, map) == seq![
            (line_amounts(t, map)[0].0, -line_amounts(t, map)[0].1),
        ] + line_amounts(t, map).drop_first(),
{
    let p = seq!['-'];
    let s = p + t;
    let n = spec_parse_amount(t, 0).unwrap().1;
    lemma_parse_amount_shape(t, 0);
    lemma_shift_parse(p, t, 0);
    lemma_shift_code_after(p, t, n);
    assert(s[1] == t[0]);
    lemma_unfold(t, map, 0);
    lemma_skip(s, map, 0);
    lemma_unfold(s, map, 1);
    lemma_shift_amounts_from(p, t, map, n);
    let rest = amounts_from(t, map, n);
    let a = step_amount(t, map, 0)->0;
    assert(line_amounts(t, map) == seq![a] + rest);
    assert((seq![a] + rest).drop_first() =~= rest);
    assert(line_amounts(s, map) == seq![(a.0, -a.1)] + rest);
}

/// Parentheses closing right after the code of a bare-number amount make it
/// negative and leave every later amount of the line unchanged.
pub proof fn law_parens_negate_code(t: Seq<char>, map: Map<char, Seq<char>>)
    requires
        t.len() > 0,
        is_digit(t[0]),
        spec_parse_amount(t, 0) matches Some((_, n)) && spec_code_after(t, n) matches Some((_, e))
            && e < t.len() && t[e] == ')',
    ensures
        line_amounts(t, map).len() > 0,
        line_amounts(t, map)[0].1 >= 0,
        line_amounts(seq!['('] + t, map) == seq![
            (line_amounts(t, map)[0].0, -line_amounts(t, map)[0].1),
        ] + line_amounts(t, map).drop_first(),
{
    let p = seq!['('];
    let s = p + t;
    let n = spec_parse_amount(t, 0).unwrap().1;
    let e = spec_code_after(t, n).unwrap().1;
    lemma_parse_amount_shape(t, 0);
    lemma_spaces_end_bounds(t, n);
    lemma_shift_parse(p, t, 0);
    lemma_shift_code_after(p, t, n);
    assert(s[1] == t[0]);
    assert(s[e + 1] == t[e]);
    lemma_unfold(t, map, 0);
    lemma_skip(s, map, 0);
    lemma_unfold(s, map, 1);
    lemma_shift_amounts_from(p, t, map, n);
    let rest = amounts_from(t, map, n);
    let a = step_amount(t, map, 0)->0;
    assert(line_amounts(t, map) == seq![a] + rest);
    assert((seq![a] + rest).drop_first() =~= rest);
    assert(line_amounts(s, map) == seq![(a.0, -a.1)] + rest);
}

/// The counted amounts of all the lines of a text, line after line.
pub open spec fn text_amounts(
    lines: Seq<Seq<char>>,
    map: Map<char, Seq<char>>,
    min: Option<i64>,
    max: Option<i64>,
) -> Seq<(CurrencyView, int)>
    decreases lines.len(),
{
    if lines.len() == 0 {
        Seq::empty()
    } else {
        text_amounts(lines.drop_last(), map, min, max) + kept(
            line_amounts(lines.last(), map),
            min,
            max,
        )
    }
}

/// `ts[j + 1]`/`cs[j + 1]` are what `scan` leaves after line `j` when it
/// starts from `ts[j]`/`cs[j]`.
pub open spec fn scanned_line_by_line(
    ts: Seq<Map<CurrencyView, i64>>,
    cs: Seq<Map<CurrencyView, u64>>,
    lines: Seq<Seq<char>>,
    map: Map<char, Seq<char>>,
    min: Option<i64>,
    max: Option<i64>,
) -> bool {
    &&& ts.len() == lines.len() + 1
    &&& cs.len() == lines.len() + 1
    &&& forall|j: int|
        0 <= j < lines.len() ==> totals_after(
            #[trigger] ts[j],
            ts[j + 1],
            kept(line_amounts(lines[j], map), min, max),
        ) && counts_after(cs[j], cs[j + 1], kept(line_amounts(lines[j], map), min, max))
}

/// Scanning a text line by line leaves, for each currency, the starting
/// total plus the sum of the counted amounts of all its lines, and the
/// starting count plus their number.
pub proof fn law_text_scan(
    ts: Seq<Map<CurrencyView, i64>>,
    cs: Seq<Map<CurrencyView, u64>>,
    lines: Seq<Seq<char>>,
    map: Map<char, Seq<char>>,
    min: Option<i64>,
    max: Option<i64>,
)
    requires
        scanned_line_by_line(ts, cs, lines, map, min, max),
    ensures
        totals_after(ts[0], ts.last(), text_amounts(lines, map, min, max)),
        counts_after(cs[0], cs.last(), text_amounts(lines, map, min, max)),
    decreases lines.len(),
{
    let n = lines.len() as int;
    if n == 0 {
        let e = Seq::<(CurrencyView, int)>::empty();
        assert forall|k: CurrencyView| count_for(e, k) == 0 && sum_for(e, k) == 0 by {}
    } else {
        let ts0 = ts.take(n);
        let cs0 = cs.take(n);
        let l0 = lines.drop_last();
        assert forall|j: int| 0 <= j < l0.len() implies totals_after(
            #[trigger] ts0[j],
            ts0[j + 1],
            kept(line_amounts(l0[j], map), min, max),
        ) && counts_after(cs0[j], cs0[j + 1], kept(line_amounts(l0[j], map), min, max)) by {
            assert(ts[j] == ts0[j]);
        }
        law_text_scan(ts0, cs0, l0, map, min, max);
        assert(ts0.last() == ts[n - 1] && cs0.last() == cs[n - 1]);
        assert(totals_after(ts[n - 1], ts[n], kept(line_amounts(lines[n - 1], map), min, max)));
        law_scans_compose(
            ts[0],
            ts[n - 1],
            ts[n],
            cs[0],
            cs[n - 1],
            cs[n],
            text_amounts(l0, map, min, max),
            kept(line_amounts(lines.last(), map), min, max),
        );
    }
}

/// Merging per-file totals into running totals gives what scanning every
/// line of the file straight into the running totals gives: for a
/// `--per-file` run, the overall summary equals the combined one.
pub proof fn law_file_merge_matches_direct(
    direct_ts: Seq<Map<CurrencyView, i64>>,
    direct_cs: Seq<Map<CurrencyView, u64>>,
    file_ts: Seq<Map<CurrencyView, i64>>,
    file_cs: Seq<Map<CurrencyView, u64>>,
    merged_totals: Map<CurrencyView, i64>,
    merged_counts: Map<CurrencyView, u64>,
    lines: Seq<Seq<char>>,
    map: Map<char, Seq<char>>,
    min: Option<i64>,
    max: Option<i64>,
)
    requires
        scanned_line_by_line(direct_ts, direct_cs, lines, map, min, max),
        scanned_line_by_line(file_ts, file_cs, lines, map, min, max),
        file_ts[0] == Map::<CurrencyView, i64>::empty(),
        file_cs[0] == Map::<CurrencyView, u64>::empty(),
        totals_merged(direct_ts[0], merged_totals, file_ts.last()),
        counts_merged(direct_cs[0], merged_counts, file_cs.last()),
    ensures
        merged_totals == direct_ts.last(),
        merged_counts == direct_cs.last(),
{
    law_text_scan(direct_ts, direct_cs, lines, map, min, max);
    law_text_scan(file_ts, file_cs, lines, map, min, max);
    let a = text_amounts(lines, map, min, max);
    law_merge_matches_direct_totals(direct_ts[0], direct_ts.last(), file_ts.last(), merged_totals, a);
    law_merge_matches_direct_counts(direct_cs[0], direct_cs.last(), file_cs.last(), merged_counts, a);
}

/// Every character of `g` is a digit.
pub open spec fn all_digits(g: Seq<char>) -> bool {
    forall|i: int| 0 <= i < g.len() ==> is_digit(#[trigger] g[i])
}

/// One to three digits, the first not `0`.
pub open spec fn lead_group(g: Seq<char>) -> bool {
    1 <= g.len() <= 3 && all_digits(g) && g[0] != '0'
}

/// `[1-9][0-9]{0,2}(,[0-9]{3})*`: a positive whole number grouped by
/// thousands.
pub open spec fn nonzero_groups(g: Seq<char>) -> bool
    decreases g.len(),
{
    lead_group(g) || (g.len() >= 5 && g[g.len() - 4] == ',' && all_digits(g.skip(g.len() - 3))
        && nonzero_groups(g.take(g.len() - 4)))
}

/// `-?(0|[1-9][0-9]{0,2}(,[0-9]{3})*)\.[0-9]{2}`.
pub open spec fn amount_text(s: Seq<char>) -> bool {
    let body = if s.len() > 0 && s[0] == '-' {
        s.skip(1)
    } else {
        s
    };
    let n = body.len() as int;
    &&& n >= 4
    &&& body[n - 3] == '.'
    &&& is_digit(body[n - 2])
    &&& is_digit(body[n - 1])
    &&& (body.take(n - 3) == seq!['0'] || nonzero_groups(body.take(n - 3)))
}

proof fn lemma_dec_digits_shape(n: nat)
    ensures
        n > 0 ==> dec_digits(n)[0] != '0',
        n < 10 ==> dec_digits(n).len() == 1,
        10 <= n < 100 ==> dec_digits(n).len() == 2,
        100 <= n < 1000 ==> dec_digits(n).len() == 3,
    decreases n,
{
    if n >= 10 {
        lemma_dec_digits_shape(n / 10);
        assert(dec_digits(n)[0] == dec_digits(n / 10)[0]);
    } else {
        lemma_digit_char(n as int);
    }
}

proof fn lemma_grouped_shape(n: nat)
    ensures
        n == 0 ==> grouped(n) == seq!['0'],
        n > 0 ==> nonzero_groups(grouped(n)),
    decreases n,
{
    lemma_dec_digits(n);
    if n == 0 {
        lemma_digit_char(0);
        assert(grouped(n) =~= seq!['0']);
    } else if n < 1000 {
        lemma_dec_digits_shape(n);
        assert(lead_group(grouped(n)));
    } else {
        lemma_grouped_shape(n / 1000);
        let g = grouped(n / 1000);
        let m = n % 1000;
        let t = three_digits(m);
        lemma_digit_char((m / 100) as int);
        lemma_digit_char((m / 10 % 10) as int);
        lemma_digit_char((m % 10) as int);
        let x = grouped(n);
        assert(x == g + seq![','] + t);
        let len = x.len() as int;
        assert(x[len - 4] == ',');
        assert(x.take(len - 4) =~= g);
        assert(x.skip(len - 3) =~= t);
    }
}

/// Formatted cents always read `-?(0|[1-9][0-9]{0,2}(,[0-9]{3})*)\.[0-9]{2}`;
/// they start with `-` exactly when the value is negative, and a negative
/// value is written as its magnitude with a `-` in front.
pub proof fn law_format_shape(c: int)
    ensures
        amount_text(spec_format_cents(c)),
        (spec_format_cents(c)[0] == '-') <==> c < 0,
        c > 0 ==> spec_format_cents(-c) == seq!['-'] + spec_format_cents(c),
{
    let a = abs(c);
    let w = a / 100;
    let f = a % 100;
    let g = grouped(w);
    let tail = seq!['.', digit_char((f / 10) as int), digit_char((f % 10) as int)];
    lemma_grouped(w);
    lemma_grouped_shape(w);
    lemma_digit_char((f / 10) as int);
    lemma_digit_char((f % 10) as int);
    let s = spec_format_cents(c);
    let body = g + tail;
    if c < 0 {
        assert(s == seq!['-'] + body);
        assert(s.skip(1) =~= body);
    } else {
        assert(s =~= body);
        assert(s[0] == g[0]);
    }
    let n = body.len() as int;
    assert(body.take(n - 3) =~= g);
    assert(body[n - 3] == '.');
    if c > 0 {
        assert(abs(-c) == a);
        assert(spec_format_cents(-c) =~= seq!['-'] + spec_format_cents(c));
    }
}

/// A `--min`/`--max` value is read as the value with its leading `-`
/// removed: an amount that takes up all of it gives that many cents,
/// negated when the `-` was there; anything else is an invalid value (so
/// "", "-", "--5" and "5." are refused).
pub proof fn law_decimal_value(flag: Seq<char>, s: Seq<char>)
    requires
        amount_fits(if s.len() > 0 && s[0] == '-' { s.skip(1) } else { s }, 0),
    ensures
        ({
            let negative = s.len() > 0 && s[0] == '-';
            let t = if negative { s.skip(1) } else { s };
            spec_decimal_arg(flag, s) == match spec_parse_amount(t, 0) {
                Some((v, e)) => if e == t.len() {
                    Ok(signed(v, negative) as i64)
                } else {
                    Err(ArgsErrorView::InvalidValue(flag, s))
                },
                None => Err(ArgsErrorView::InvalidValue(flag, s)),
            }
        }),
{
    if s.len() > 0 && s[0] == '-' {
        let p = seq![s[0]];
        let t = s.skip(1);
        assert(p + t =~= s);
        lemma_shift_parse(p, t, 0);
    }
}

/// What the argument at index `i` is: a flag with its value and the index
/// after it, `--per-file`, a flag with no value, or a path.
pub enum ArgToken {
    MapValue(Seq<char>, int),
    MinValue(Seq<char>, int),
    MaxValue(Seq<char>, int),
    PerFile,
    Missing(Flag),
    Path,
}

pub open spec fn token_at(a: Seq<Seq<char>>, i: int) -> ArgToken {
    let arg = a[i];
    if has_prefix(arg, long_flag_eq(map_name())) {
        ArgToken::MapValue(arg.skip(6), i + 1)
    } else if arg == long_flag(map_name()) {
        if i + 1 < a.len() {
            ArgToken::MapValue(a[i + 1], i + 2)
        } else {
            ArgToken::Missing(Flag::MapArg)
        }
    } else if arg == per_file_flag() {
        ArgToken::PerFile
    } else if has_prefix(arg, long_flag_eq(min_name())) {
        ArgToken::MinValue(arg.skip(6), i + 1)
    } else if arg == long_flag(min_name()) {
        if i + 1 < a.len() {
            ArgToken::MinValue(a[i + 1], i + 2)
        } else {
            ArgToken::Missing(Flag::MinArg)
        }
    } else if has_prefix(arg, long_flag_eq(max_name())) {
        ArgToken::MaxValue(arg.skip(6), i + 1)
    } else if arg == long_flag(max_name()) {
        if i + 1 < a.len() {
            ArgToken::MaxValue(a[i + 1], i + 2)
        } else {
            ArgToken::Missing(Flag::MaxArg)
        }
    } else {
        ArgToken::Path
    }
}

/// The index after the argument at `i` and its value.
pub open spec fn token_next(a: Seq<Seq<char>>, i: int) -> int {
    match token_at(a, i) {
        ArgToken::MapValue(_, n) => n,
        ArgToken::MinValue(_, n) => n,
        ArgToken::MaxValue(_, n) => n,
        _ => i + 1,
    }
}

/// A `--map` value whose every entry is good.
pub open spec fn map_value_ok(v: Seq<char>) -> bool {
    apply_map_spec(Map::empty(), v).1 is None
}

/// Every flag from `i` on has a value, and every value is accepted.
pub open spec fn values_valid(a: Seq<Seq<char>>, i: int) -> bool
    decreases a.len() - i,
{
    if 0 <= i < a.len() && i < token_next(a, i) {
        match token_at(a, i) {
            ArgToken::MapValue(v, n) => map_value_ok(v) && values_valid(a, n),
            ArgToken::MinValue(v, n) => spec_decimal_arg("min"@, v) is Ok && values_valid(a, n),
            ArgToken::MaxValue(v, n) => spec_decimal_arg("max"@, v) is Ok && values_valid(a, n),
            ArgToken::Missing(_) => false,
            _ => values_valid(a, i + 1),
        }
    } else {
        true
    }
}

/// The map after applying every `--map` value from `i` on, in order, to `m`.
pub open spec fn maps_applied(a: Seq<Seq<char>>, i: int, m: Map<char, Seq<char>>) -> Map<
    char,
    Seq<char>,
>
    decreases a.len() - i,
{
    if 0 <= i < a.len() && i < token_next(a, i) {
        match token_at(a, i) {
            ArgToken::MapValue(v, n) => maps_applied(a, n, apply_map_spec(m, v).0),
            _ => maps_applied(a, token_next(a, i), m),
        }
    } else {
        m
    }
}

/// The last `--min` value from `i` on, else `cur`.
pub open spec fn last_min(a: Seq<Seq<char>>, i: int, cur: Option<i64>) -> Option<i64>
    decreases a.len() - i,
{
    if 0 <= i < a.len() && i < token_next(a, i) {
        match token_at(a, i) {
            ArgToken::MinValue(v, n) => match spec_decimal_arg("min"@, v) {
                Ok(x) => last_min(a, n, Some(x)),
                Err(_) => last_min(a, n, cur),
            },
            _ => last_min(a, token_next(a, i), cur),
        }
    } else {
        cur
    }
}

/// The last `--max` value from `i` on, else `cur`.
pub open spec fn last_max(a: Seq<Seq<char>>, i: int, cur: Option<i64>) -> Option<i64>
    decreases a.len() - i,
{
    if 0 <= i < a.len() && i < token_next(a, i) {
        match token_at(a, i) {
            ArgToken::MaxValue(v, n) => match spec_decimal_arg("max"@, v) {
                Ok(x) => last_max(a, n, Some(x)),
                Err(_) => last_max(a, n, cur),
            },
            _ => last_max(a, token_next(a, i), cur),
        }
    } else {
        cur
    }
}

/// `--per-file` occurs (as an argument, not a flag's value) from `i` on.
pub open spec fn has_per_file(a: Seq<Seq<char>>, i: int) -> bool
    decreases a.len() - i,
{
    if 0 <= i < a.len() && i < token_next(a, i) {
        match token_at(a, i) {
            ArgToken::PerFile => true,
            _ => has_per_file(a, token_next(a, i)),
        }
    } else {
        false
    }
}

/// The arguments from `i` on that are neither flags nor their values, in
/// order.
pub open spec fn other_args(a: Seq<Seq<char>>, i: int) -> Seq<Seq<char>>
    decreases a.len() - i,
{
    if 0 <= i < a.len() && i < token_next(a, i) {
        match token_at(a, i) {
            ArgToken::Path => seq![a[i]] + other_args(a, i + 1),
            _ => other_args(a, token_next(a, i)),
        }
    } else {
        Seq::empty()
    }
}

proof fn lemma_apply_pairs_error(m1: Map<char, Seq<char>>, m2: Map<char, Seq<char>>, ps: Seq<Seq<char>>)
    ensures
        apply_pairs(m1, ps).1 == apply_pairs(m2, ps).1,
    decreases ps.len(),
{
    if ps.len() > 0 {
        if let Ok((c, code)) = parse_pair(ps[0]) {
            lemma_apply_pairs_error(m1.insert(c, code), m2.insert(c, code), ps.drop_first());
        }
    }
}

proof fn lemma_parse_from_valid(a: Seq<Seq<char>>, i: int, st: ArgsView)
    requires
        0 <= i,
        values_valid(a, i),
    ensures
        parse_from(a, i, st) == finish_args(
            ArgsView {
                map: maps_applied(a, i, st.map),
                per_file: st.per_file || has_per_file(a, i),
                min: last_min(a, i, st.min),
                max: last_max(a, i, st.max),
                paths: st.paths + other_args(a, i),
            },
        ),
    decreases a.len() - i,
{
    if i < a.len() {
        assert(i < token_next(a, i));
        match token_at(a, i) {
            ArgToken::MapValue(v, n) => {
                lemma_apply_pairs_error(Map::empty(), st.map, pieces_from(v, 0));
                let st2 = ArgsView { map: apply_map_spec(st.map, v).0, ..st };
                assert(with_map(st, v) == Ok::<ArgsView, ArgsErrorView>(st2));
                lemma_parse_from_valid(a, n, st2);
            },
            ArgToken::MinValue(v, n) => {
                let x = spec_decimal_arg("min"@, v)->Ok_0;
                lemma_parse_from_valid(a, n, ArgsView { min: Some(x), ..st });
            },
            ArgToken::MaxValue(v, n) => {
                let x = spec_decimal_arg("max"@, v)->Ok_0;
                lemma_parse_from_valid(a, n, ArgsView { max: Some(x), ..st });
            },
            ArgToken::PerFile => {
                lemma_parse_from_valid(a, i + 1, ArgsView { per_file: true, ..st });
            },
            ArgToken::Missing(_) => {},
            ArgToken::Path => {
                let st2 = ArgsView { paths: st.paths.push(a[i]), ..st };
                lemma_parse_from_valid(a, i + 1, st2);
                assert(st.paths.push(a[i]) + other_args(a, i + 1) =~= st.paths + other_args(a, i));
            },
        }
    } else {
        assert(st.paths + other_args(a, i) =~= st.paths);
    }
}

/// When every flag has a value and every value is accepted, parsing the
/// arguments fails exactly when the last `--min` is above the last `--max`;
/// otherwise it keeps the last bounds, `--per-file` if it occurs, the other
/// arguments in order, and every `--map` value applied in order.
pub proof fn law_parse_args_valid(a: Seq<Seq<char>>)
    requires
        values_valid(a, 0),
    ensures
        ({
            let lo = last_min(a, 0, None);
            let hi = last_max(a, 0, None);
            &&& spec_parse_args(a) is Err <==> (lo is Some && hi is Some && lo->0 > hi->0)
            &&& spec_parse_args(a) is Err ==> spec_parse_args(a) == Err::<ArgsView, ArgsErrorView>(
                ArgsErrorView::MinAboveMax(lo->0, hi->0),
            )
            &&& spec_parse_args(a) is Ok ==> spec_parse_args(a) == Ok::<ArgsView, ArgsErrorView>(
                ArgsView {
                    map: maps_applied(a, 0, Map::empty()),
                    per_file: has_per_file(a, 0),
                    min: lo,
                    max: hi,
                    paths: other_args(a, 0),
                },
            )
        }),
{
    lemma_parse_from_valid(a, 0, initial_args());
    assert(Seq::<Seq<char>>::empty() + other_args(a, 0) =~= other_args(a, 0));
}

/// A bare number is read the same whatever separator stands before it: for
/// a line `t` that starts with a digit, and a character `c` that is not an
/// ASCII letter or digit, not `-`, not `(` and not one of the currency
/// symbols `$`, `£`, `€`, `¥`, the amounts of `c` followed by `t` are those
/// of `t` (so "Lunch,12.99 USD" reads 12.99 USD).
pub proof fn law_number_after_separator(c: char, t: Seq<char>, map: Map<char, Seq<char>>)
    requires
        t.len() > 0,
        '0' <= t[0] <= '9',
        !('0' <= c <= '9'),
        !('a' <= c <= 'z'),
        !('A' <= c <= 'Z'),
        c != '-',
        c != '(',
        c != '$',
        c != '\u{a3}',
        c != '\u{20ac}',
        c != '\u{a5}',
    ensures
        line_amounts(seq![c] + t, map) == line_amounts(t, map),
{
    let p = seq![c];
    let s = p + t;
    assert(s[0] == c && s[1] == t[0]);
    lemma_parse_amount_shape(t, 0);
    let n = spec_parse_amount(t, 0).unwrap().1;
    lemma_shift_parse(p, t, 0);
    lemma_shift_code_after(p, t, n);
    if let Some((_, e)) = spec_code_after(t, n) {
        lemma_spaces_end_bounds(t, n);
        if e < t.len() {
            assert(s[e + 1] == t[e]);
        }
    }
    assert(number_starts(s, 1));
    lemma_skip(s, map, 0);
    lemma_unfold(s, map, 1);
    lemma_unfold(t, map, 0);
    assert(step_next(s, 1) == n + 1);
    assert(step_amount(s, map, 1) == step_amount(t, map, 0));
    lemma_shift_amounts_from(p, t, map, n);
}

/// Which amounts count under the bounds: an amount of signed value `v`
/// counts exactly when `min <= v` (if there is a `min`) and `v <= max` (if
/// there is a `max`).
pub open spec fn counts_under(min: Option<i64>, max: Option<i64>) -> spec_fn((CurrencyView, int)) -> bool {
    |p: (CurrencyView, int)|
        (min is None || min->0 <= p.1) && (max is None || p.1 <= max->0)
}

/// The amounts that count are exactly those whose signed value lies within
/// the bounds, in order; with only a `--max`, every amount at or below it
/// counts, negative ones included.
pub proof fn law_bounds_are_signed(
    a: Seq<(CurrencyView, int)>,
    min: Option<i64>,
    max: Option<i64>,
)
    ensures
        kept(a, min, max) == a.filter(counts_under(min, max)),
    decreases a.len(),
{
    reveal_with_fuel(Seq::filter, 1);
    if a.len() > 0 {
        law_bounds_are_signed(a.drop_last(), min, max);
    }
}

proof fn lemma_apply_pairs_union(
    m1: Map<char, Seq<char>>,
    m2: Map<char, Seq<char>>,
    ps: Seq<Seq<char>>,
)
    ensures
        apply_pairs(m1.union_prefer_right(m2), ps).0 == m1.union_prefer_right(apply_pairs(m2, ps).0),
        apply_pairs(m1.union_prefer_right(m2), ps).1 == apply_pairs(m2, ps).1,
    decreases ps.len(),
{
    if ps.len() > 0 {
        if let Ok((c, code)) = parse_pair(ps[0]) {
            assert(m1.union_prefer_right(m2).insert(c, code) =~= m1.union_prefer_right(
                m2.insert(c, code),
            ));
            lemma_apply_pairs_union(m1, m2.insert(c, code), ps.drop_first());
        }
    }
}

/// A `--map` value only adds to the map: the map after it is the map before
/// it overridden by the entries of the value (what the value gives on an
/// empty map), so every symbol the value does not name keeps its code, and
/// repeated `--map` flags build up one map, the later entry winning per
/// symbol.
pub proof fn law_map_value_adds(m: Map<char, Seq<char>>, v: Seq<char>)
    ensures
        apply_map_spec(m, v).0 == m.union_prefer_right(apply_map_spec(Map::empty(), v).0),
        apply_map_spec(m, v).1 == apply_map_spec(Map::empty(), v).1,
        forall|c: char|
            m.contains_key(c) && !apply_map_spec(Map::empty(), v).0.contains_key(c)
                ==> #[trigger] apply_map_spec(m, v).0.contains_key(c) && apply_map_spec(m, v).0[c]
                == m[c],
{
    assert(m.union_prefer_right(Map::<char, Seq<char>>::empty()) =~= m);
    lemma_apply_pairs_union(m, Map::empty(), pieces_from(v, 0));
}

/// The text after the amount in a report line.
pub open spec fn report_tail(n: nat) -> Seq<char> {
    " total across "@ + dec_digits(n) + " amount"@ + plural(n)
}

/// The amount written in a report line reads back as the currency's total,
/// sign included: the text between the symbol (or the mapped symbol) and
/// the rest of the line starts with `-` exactly when the total is negative,
/// and read as a `--min`/`--max` value it gives the total.
pub proof fn law_report_amount_reads_back(
    currency: CurrencyView,
    cents: i64,
    n: nat,
    map: Map<char, Seq<char>>,
    flag: Seq<char>,
)
    ensures
        ({
            let line = report_line(currency, cents as int, n, map);
            let tail = report_tail(n);
            let (head, after) = match currency {
                CurrencyView::Symbol(c) => (seq![c], tail),
                CurrencyView::Code(code) => (code_prefix(map, code), seq![' '] + code + tail),
            };
            let x = line.subrange(head.len() as int, line.len() - after.len());
            &&& head.len() + after.len() <= line.len()
            &&& line.take(head.len() as int) == head
            &&& line.skip(line.len() - after.len()) == after
            &&& x.len() > 0
            &&& (x[0] == '-') <==> cents < 0
            &&& cents != i64::MIN ==> spec_decimal_arg(flag, x) == Ok::<i64, ArgsErrorView>(cents)
        }),
{
    let f = spec_format_cents(cents as int);
    law_format_shape(cents as int);
    if cents != i64::MIN {
        law_format_then_parse(flag, cents);
    }
    let tail = report_tail(n);
    let line = report_line(currency, cents as int, n, map);
    match currency {
        CurrencyView::Symbol(c) => {
            let head = seq![c];
            assert(line =~= head + f + tail);
            assert(line.take(head.len() as int) =~= head);
            assert(line.skip(line.len() - tail.len()) =~= tail);
            assert(line.subrange(head.len() as int, line.len() - tail.len()) =~= f);
        },
        CurrencyView::Code(code) => {
            let head = code_prefix(map, code);
            let after = seq![' '] + code + tail;
            assert(line =~= head + f + after);
            assert(line.take(head.len() as int) =~= head);
            assert(line.skip(line.len() - after.len()) =~= after);
            assert(line.subrange(head.len() as int, line.len() - after.len()) =~= f);
        },
    }
}

/// Every symbol an amount is counted under is one of the four currency
/// symbols `$`, `£`, `€`, `¥`.
pub proof fn law_symbols_are_the_four(s: Seq<char>, map: Map<char, Seq<char>>)
    ensures
        forall|j: int|
            0 <= j < line_amounts(s, map).len() && (#[trigger] line_amounts(s, map)[j]).0 is Symbol
                ==> {
                let c = line_amounts(s, map)[j].0->Symbol_0;
                c == '$' || c == '\u{a3}' || c == '\u{20ac}' || c == '\u{a5}'
            },
{
    law_amounts_accounted(s, map);
}

} // verus!
