//! Reading one amount ("1,234.56") and one currency code ("USD").

use vstd::prelude::*;
use crate::text::{
    digit_of, digit_value, is_alnum, is_ascii_alphanumeric, is_ascii_digit, is_ascii_uppercase,
    is_digit, is_upper, string_of,
};

verus! {

/// A character that continues the whole-number part of an amount.
pub open spec fn is_num_char(c: char) -> bool {
    is_digit(c) || c == ','
}

/// The end of the run of digits and commas that starts at `i`.
pub open spec fn run_end(s: Seq<char>, i: int) -> int
    decreases s.len() - i,
{
    if 0 <= i < s.len() && is_num_char(s[i]) {
        run_end(s, i + 1)
    } else {
        i
    }
}

/// The end of the run of digits that starts at `i`.
pub open spec fn digits_end(s: Seq<char>, i: int) -> int
    decreases s.len() - i,
{
    if 0 <= i < s.len() && is_digit(s[i]) {
        digits_end(s, i + 1)
    } else {
        i
    }
}

/// The decimal number spelled by the digits of `t`, with everything else
/// (the thousands separators) skipped.
pub open spec fn digits_value(t: Seq<char>) -> int
    decreases t.len(),
{
    if t.len() == 0 {
        0
    } else if is_digit(t.last()) {
        digits_value(t.drop_last()) * 10 + digit_value(t.last())
    } else {
        digits_value(t.drop_last())
    }
}

/// Cents from the fraction digits that start at `f`: the first digit counts
/// tens of cents, the second (if present) single cents, any further digit
/// nothing.
pub open spec fn fraction_cents(s: Seq<char>, f: int) -> int {
    digit_value(s[f]) * 10 + if f + 1 < s.len() && is_digit(s[f + 1]) {
        digit_value(s[f + 1])
    } else {
        0
    }
}

/// The amount that starts at `start`, in cents, and the index just past it:
/// digits with comma separators (the first character must be a digit), then
/// optionally a `.` with at least one digit. Only two fraction digits count;
/// further ones are consumed. A `.` with no digit after it is not consumed.
pub open spec fn spec_parse_amount(s: Seq<char>, start: int) -> Option<(int, int)> {
    if 0 <= start < s.len() && is_digit(s[start]) {
        let e = run_end(s, start);
        let whole = digits_value(s.subrange(start, e));
        if e + 1 < s.len() && s[e] == '.' && is_digit(s[e + 1]) {
            Some((whole * 100 + fraction_cents(s, e + 1), digits_end(s, e + 1)))
        } else {
            Some((whole * 100, e))
        }
    } else {
        None
    }
}

/// Whether the amount at `start`, if any, fits in an `i64`.
pub open spec fn amount_fits(s: Seq<char>, start: int) -> bool {
    match spec_parse_amount(s, start) {
        Some((v, _)) => v <= i64::MAX,
        None => true,
    }
}

/// The end of the run of spaces that starts at `i`.
pub open spec fn spaces_end(s: Seq<char>, i: int) -> int
    decreases s.len() - i,
{
    if 0 <= i < s.len() && s[i] == ' ' {
        spaces_end(s, i + 1)
    } else {
        i
    }
}

/// A three-letter uppercase code after optional spaces from `i`, not followed
/// by a letter or digit; the code and the index just past it.
pub open spec fn spec_code_after(s: Seq<char>, i: int) -> Option<(Seq<char>, int)> {
    let j = spaces_end(s, i);
    if j + 3 > s.len() {
        None
    } else if !(is_upper(s[j]) && is_upper(s[j + 1]) && is_upper(s[j + 2])) {
        None
    } else if j + 3 < s.len() && is_alnum(s[j + 3]) {
        None
    } else {
        Some((s.subrange(j, j + 3), j + 3))
    }
}

pub proof fn lemma_run_end_bounds(s: Seq<char>, i: int)
    requires
        0 <= i <= s.len(),
    ensures
        i <= run_end(s, i) <= s.len(),
        forall|k: int| i <= k < run_end(s, i) ==> #[trigger] is_num_char(s[k]),
    decreases s.len() - i,
{
    if i < s.len() && is_num_char(s[i]) {
        lemma_run_end_bounds(s, i + 1);
    }
}

pub proof fn lemma_digits_end_bounds(s: Seq<char>, i: int)
    requires
        0 <= i <= s.len(),
    ensures
        i <= digits_end(s, i) <= s.len(),
        forall|k: int| i <= k < digits_end(s, i) ==> #[trigger] is_digit(s[k]),
    decreases s.len() - i,
{
    if i < s.len() && is_digit(s[i]) {
        lemma_digits_end_bounds(s, i + 1);
    }
}

pub proof fn lemma_spaces_end_bounds(s: Seq<char>, i: int)
    requires
        0 <= i <= s.len(),
    ensures
        i <= spaces_end(s, i) <= s.len(),
    decreases s.len() - i,
{
    if i < s.len() && s[i] == ' ' {
        lemma_spaces_end_bounds(s, i + 1);
    }
}

pub proof fn lemma_digits_value_nonneg(t: Seq<char>)
    ensures
        digits_value(t) >= 0,
    decreases t.len(),
{
    if t.len() > 0 {
        lemma_digits_value_nonneg(t.drop_last());
    }
}

/// A parsed amount is never negative and ends past its start.
pub proof fn lemma_parse_amount_shape(s: Seq<char>, start: int)
    requires
        spec_parse_amount(s, start) is Some,
    ensures
        ({
            let (v, e) = spec_parse_amount(s, start)->0;
            &&& v >= 0
            &&& start < e <= s.len()
        }),
{
    let e = run_end(s, start);
    lemma_run_end_bounds(s, start);
    lemma_run_end_bounds(s, start + 1);
    lemma_digits_value_nonneg(s.subrange(start, e));
    if e + 1 < s.len() && s[e] == '.' && is_digit(s[e + 1]) {
        lemma_digits_end_bounds(s, e + 1);
    }
}

/// The amount at `start` (see `spec_parse_amount`): `None` when there is no
/// amount there, `Some((None, end))` when there is one but its value does not
/// fit in an `i64`.
pub(crate) fn parse_amount_wide(chars: &[char], start: usize) -> (r: Option<(Option<i64>, usize)>)
    ensures
        match spec_parse_amount(chars@, start as int) {
            None => r is None,
            Some((v, e)) => match r {
                Some((w, end)) => end == e && (w is Some <==> v <= i64::MAX) && (w is Some
                    ==> w->0 == v),
                None => false,
            },
        },
{
    let ghost s = chars@;
    let len = chars.len();
    if start >= len || !is_ascii_digit(chars[start]) {
        return None;
    }
    let mut i = start;
    let mut whole: i64 = 0;
    let mut over = false;
    proof {
        lemma_run_end_bounds(s, start as int);
        assert(s.subrange(start as int, start as int) =~= Seq::<char>::empty());
    }
    while i < len && (is_ascii_digit(chars[i]) || chars[i] == ',')
        invariant
            len == s.len(),
            chars@ == s,
            start <= i <= len,
            start < len,
            run_end(s, i as int) == run_end(s, start as int),
            !over ==> whole == digits_value(s.subrange(start as int, i as int)),
            over ==> digits_value(s.subrange(start as int, i as int)) > i64::MAX,
            whole >= 0,
        decreases len - i,
    {
        let ghost t = s.subrange(start as int, i as int + 1);
        assert(t.drop_last() =~= s.subrange(start as int, i as int));
        assert(t.last() == s[i as int]);
        proof {
            lemma_digits_value_nonneg(s.subrange(start as int, i as int));
        }
        if is_ascii_digit(chars[i]) && !over {
            let d = digit_of(chars[i]);
            if whole > (i64::MAX - d) / 10 {
                over = true;
            } else {
                whole = whole * 10 + d;
            }
        }
        i = i + 1;
    }
    let e = i;
    proof {
        lemma_run_end_bounds(s, start as int);
        lemma_digits_value_nonneg(s.subrange(start as int, e as int));
    }
    let mut cents: i64 = 0;
    let mut end = e;
    if len - e > 1 && chars[e] == '.' && is_ascii_digit(chars[e + 1]) {
        cents = digit_of(chars[e + 1]) * 10;
        let mut j = e + 2;
        assert(digits_end(s, e as int + 1) == digits_end(s, j as int));
        if j < len && is_ascii_digit(chars[j]) {
            cents = cents + digit_of(chars[j]);
            j = j + 1;
        }
        assert(digits_end(s, e as int + 1) == digits_end(s, j as int));
        while j < len && is_ascii_digit(chars[j])
            invariant
                len == s.len(),
                chars@ == s,
                e + 1 < j <= len,
                digits_end(s, j as int) == digits_end(s, e as int + 1),
            decreases len - j,
        {
            j = j + 1;
        }
        end = j;
    }
    assert(cents == 0 || (e + 1 < len && cents == fraction_cents(s, e as int + 1)));
    if over || whole > (i64::MAX - cents) / 100 {
        proof {
            if !over {
                assert(whole * 100 + cents > i64::MAX) by (nonlinear_arith)
                    requires
                        whole > (i64::MAX - cents) / 100,
                        0 <= cents <= 99,
                ;
            } else {
                assert(digits_value(s.subrange(start as int, e as int)) * 100 + cents > i64::MAX)
                    by (nonlinear_arith)
                    requires
                        digits_value(s.subrange(start as int, e as int)) > i64::MAX,
                        0 <= cents <= 99,
                ;
            }
        }
        Some((None, end))
    } else {
        assert(whole * 100 + cents <= i64::MAX) by (nonlinear_arith)
            requires
                whole <= (i64::MAX - cents) / 100,
                0 <= cents <= 99,
                whole >= 0,
        ;
        Some((Some(whole * 100 + cents), end))
    }
}

/// Parses digits, optional comma thousands separators, and an optional
/// decimal fraction starting at `start`. Returns the amount in minor units
/// (cents) and the index just past what it consumed.
pub fn parse_amount(chars: &[char], start: usize) -> (r: Option<(i64, usize)>)
    requires
        amount_fits(chars@, start as int),
    ensures
        match spec_parse_amount(chars@, start as int) {
            None => r is None,
            Some((v, e)) => r == Some((v as i64, e as usize)),
        },
{
    match parse_amount_wide(chars, start) {
        Some((Some(v), e)) => Some((v, e)),
        _ => None,
    }
}

/// Looks for a three-letter uppercase currency code starting at `i`,
/// skipping any spaces first. Requires the code to end at a word boundary so
/// "USDT" or "USD1" don't get misread as "USD".
pub fn currency_code_after(chars: &[char], i: usize) -> (r: Option<(String, usize)>)
    ensures
        match spec_code_after(chars@, i as int) {
            None => r is None,
            Some((code, end)) => match r {
                Some((c, e)) => c@ == code && e == end,
                None => false,
            },
        },
{
    let ghost s = chars@;
    let len = chars.len();
    let mut j = i;
    while j < len && chars[j] == ' '
        invariant
            len == s.len(),
            chars@ == s,
            i <= j,
            spaces_end(s, j as int) == spaces_end(s, i as int),
        decreases len - j,
    {
        j = j + 1;
    }
    if j >= len || len - j < 3 {
        return None;
    }
    if !(is_ascii_uppercase(chars[j]) && is_ascii_uppercase(chars[j + 1]) && is_ascii_uppercase(
        chars[j + 2],
    )) {
        return None;
    }
    if len - j > 3 && is_ascii_alphanumeric(chars[j + 3]) {
        return None;
    }
    let code = [chars[j], chars[j + 1], chars[j + 2]];
    let text = string_of(&code);
    assert(code@ =~= s.subrange(j as int, j + 3));
    Some((text, j + 3))
}

} // verus!
