//! Command-line arguments: the symbol map, the per-file flag, the amount
//! bounds and the paths.

use vstd::prelude::*;
use crate::amount::{amount_fits, lemma_parse_amount_shape, parse_amount_wide, spec_parse_amount};
use crate::currency::SymbolMap;
use crate::format::{format_cents, spec_format_cents};
use crate::scanner::signed;
use crate::text::{chars_of, is_ascii_uppercase, is_upper, push_chars, string_of};

verus! {

/// A flag that takes a value.
#[derive(Debug, Clone, Copy, PartialEq, Eq, Structural)]
pub enum Flag {
    MapArg,
    MinArg,
    MaxArg,
}

/// Parsed command-line arguments.
pub struct Args {
    pub map: SymbolMap,
    pub per_file: bool,
    pub min: Option<i64>,
    pub max: Option<i64>,
    pub paths: Vec<String>,
}

/// Why the arguments were refused.
#[derive(Debug)]
pub enum ArgsError {
    /// The flag is the last argument, with no value after it.
    MissingValue(Flag),
    /// A `--map` entry without `=`.
    InvalidMapEntry(String),
    /// A `--map` symbol that is not exactly one character.
    InvalidMapSymbol(String),
    /// A `--map` code that is not three uppercase ASCII letters.
    InvalidMapCode(String),
    /// A `--min`/`--max` value (flag name, value) that is not a number.
    InvalidValue(String, String),
    /// A `--min`/`--max` value (flag name, value) whose cents do not fit in an
    /// `i64`; plain integer arithmetic overflows on it.
    ValueTooLarge(String, String),
    /// `--min` is greater than `--max`.
    MinAboveMax(i64, i64),
}

/// The mathematical value of an `ArgsError`.
pub enum ArgsErrorView {
    MissingValue(Flag),
    InvalidMapEntry(Seq<char>),
    InvalidMapSymbol(Seq<char>),
    InvalidMapCode(Seq<char>),
    InvalidValue(Seq<char>, Seq<char>),
    ValueTooLarge(Seq<char>, Seq<char>),
    MinAboveMax(i64, i64),
}

impl View for ArgsError {
    type V = ArgsErrorView;

    open spec fn view(&self) -> ArgsErrorView {
        match self {
            ArgsError::MissingValue(f) => ArgsErrorView::MissingValue(*f),
            ArgsError::InvalidMapEntry(s) => ArgsErrorView::InvalidMapEntry(s@),
            ArgsError::InvalidMapSymbol(s) => ArgsErrorView::InvalidMapSymbol(s@),
            ArgsError::InvalidMapCode(s) => ArgsErrorView::InvalidMapCode(s@),
            ArgsError::InvalidValue(f, s) => ArgsErrorView::InvalidValue(f@, s@),
            ArgsError::ValueTooLarge(f, s) => ArgsErrorView::ValueTooLarge(f@, s@),
            ArgsError::MinAboveMax(a, b) => ArgsErrorView::MinAboveMax(*a, *b),
        }
    }
}

/// A result with its error taken by its view.
pub open spec fn result_view<T>(r: Result<T, ArgsError>) -> Result<T, ArgsErrorView> {
    match r {
        Ok(v) => Ok(v),
        Err(e) => Err(e@),
    }
}

/// The text of an error, as printed after "money-tally: ".
pub open spec fn error_message(e: ArgsErrorView) -> Seq<char> {
    match e {
        ArgsErrorView::MissingValue(Flag::MapArg) => "--map requires an argument, e.g. --map $=USD"@,
        ArgsErrorView::MissingValue(Flag::MinArg) => "--min requires an argument, e.g. --min 10"@,
        ArgsErrorView::MissingValue(Flag::MaxArg) => "--max requires an argument, e.g. --max 100"@,
        ArgsErrorView::InvalidMapEntry(p) => "invalid --map entry \""@ + p
            + "\", expected SYMBOL=CODE"@,
        ArgsErrorView::InvalidMapSymbol(s) => "invalid --map symbol \""@ + s
            + "\", expected a single character"@,
        ArgsErrorView::InvalidMapCode(c) => "invalid --map code \""@ + c
            + "\", expected three uppercase letters"@,
        ArgsErrorView::InvalidValue(f, v) => "invalid --"@ + f + " value \""@ + v
            + "\", expected a number like 10 or 10.50"@,
        ArgsErrorView::ValueTooLarge(f, v) => "--"@ + f + " value \""@ + v + "\" is too large"@,
        ArgsErrorView::MinAboveMax(lo, hi) => "--min ("@ + spec_format_cents(lo as int)
            + ") is greater than --max ("@ + spec_format_cents(hi as int) + ")"@,
    }
}

impl ArgsError {
    /// The text of the error.
    pub fn message(&self) -> (s: String)
        ensures
            s@ == error_message(self@),
    {
        match self {
            ArgsError::MissingValue(Flag::MapArg) => String::from_str(
                "--map requires an argument, e.g. --map $=USD",
            ),
            ArgsError::MissingValue(Flag::MinArg) => String::from_str(
                "--min requires an argument, e.g. --min 10",
            ),
            ArgsError::MissingValue(Flag::MaxArg) => String::from_str(
                "--max requires an argument, e.g. --max 100",
            ),
            ArgsError::InvalidMapEntry(p) => {
                let mut s = String::from_str("invalid --map entry \"");
                s.append(p.as_str());
                s.append("\", expected SYMBOL=CODE");
                s
            },
            ArgsError::InvalidMapSymbol(p) => {
                let mut s = String::from_str("invalid --map symbol \"");
                s.append(p.as_str());
                s.append("\", expected a single character");
                s
            },
            ArgsError::InvalidMapCode(p) => {
                let mut s = String::from_str("invalid --map code \"");
                s.append(p.as_str());
                s.append("\", expected three uppercase letters");
                s
            },
            ArgsError::InvalidValue(f, v) => {
                let mut s = String::from_str("invalid --");
                s.append(f.as_str());
                s.append(" value \"");
                s.append(v.as_str());
                s.append("\", expected a number like 10 or 10.50");
                s
            },
            ArgsError::ValueTooLarge(f, v) => {
                let mut s = String::from_str("--");
                s.append(f.as_str());
                s.append(" value \"");
                s.append(v.as_str());
                s.append("\" is too large");
                s
            },
            ArgsError::MinAboveMax(lo, hi) => {
                let mut s = String::from_str("--min (");
                s.append(format_cents(*lo).as_str());
                s.append(") is greater than --max (");
                s.append(format_cents(*hi).as_str());
                s.append(")");
                s
            },
        }
    }
}

/// The end of the run of characters other than `c` that starts at `i`.
pub open spec fn find_char(s: Seq<char>, i: int, c: char) -> int
    decreases s.len() - i,
{
    if 0 <= i < s.len() && s[i] != c {
        find_char(s, i + 1, c)
    } else {
        i
    }
}

pub proof fn lemma_find_char_bounds(s: Seq<char>, i: int, c: char)
    requires
        0 <= i <= s.len(),
    ensures
        i <= find_char(s, i, c) <= s.len(),
        find_char(s, i, c) < s.len() ==> s[find_char(s, i, c)] == c,
    decreases s.len() - i,
{
    if i < s.len() && s[i] != c {
        lemma_find_char_bounds(s, i + 1, c);
    }
}

/// The comma-separated pieces of `s` from `i` on (as `str::split(',')`
/// gives them: empty pieces included, at least one piece).
pub open spec fn pieces_from(s: Seq<char>, i: int) -> Seq<Seq<char>>
    decreases s.len() - i,
{
    let j = find_char(s, i, ',');
    if 0 <= i <= j < s.len() {
        seq![s.subrange(i, j)] + pieces_from(s, j + 1)
    } else {
        seq![s.subrange(i, s.len() as int)]
    }
}

/// One `SYMBOL=CODE` entry of a `--map` value.
pub open spec fn parse_pair(p: Seq<char>) -> Result<(char, Seq<char>), ArgsErrorView> {
    let e = find_char(p, 0, '=');
    if e >= p.len() {
        Err(ArgsErrorView::InvalidMapEntry(p))
    } else {
        let symbol = p.take(e);
        let code = p.skip(e + 1);
        if symbol.len() != 1 {
            Err(ArgsErrorView::InvalidMapSymbol(symbol))
        } else if !(code.len() == 3 && is_upper(code[0]) && is_upper(code[1]) && is_upper(
            code[2],
        )) {
            Err(ArgsErrorView::InvalidMapCode(code))
        } else {
            Ok((symbol[0], code))
        }
    }
}

/// Adds the entries to `m` in order, up to the first bad one: the map
/// reached and the error, if any.
pub open spec fn apply_pairs(m: Map<char, Seq<char>>, ps: Seq<Seq<char>>) -> (
    Map<char, Seq<char>>,
    Option<ArgsErrorView>,
)
    decreases ps.len(),
{
    if ps.len() == 0 {
        (m, None)
    } else {
        match parse_pair(ps[0]) {
            Err(e) => (m, Some(e)),
            Ok((c, code)) => apply_pairs(m.insert(c, code), ps.drop_first()),
        }
    }
}

/// The effect of a `--map` value on `m`.
pub open spec fn apply_map_spec(m: Map<char, Seq<char>>, s: Seq<char>) -> (
    Map<char, Seq<char>>,
    Option<ArgsErrorView>,
) {
    apply_pairs(m, pieces_from(s, 0))
}

fn parse_pair_exec(p: &[char]) -> (r: Result<(char, String), ArgsError>)
    ensures
        match parse_pair(p@) {
            Ok((c, code)) => r matches Ok((c2, code2)) && c2 == c && code2@ == code,
            Err(e) => r matches Err(e2) && e2@ == e,
        },
{
    let ghost s = p@;
    let mut e: usize = 0;
    while e < p.len() && p[e] != '='
        invariant
            e <= p.len(),
            find_char(s, e as int, '=') == find_char(s, 0, '='),
            p@ == s,
        decreases p.len() - e,
    {
        e = e + 1;
    }
    if e == p.len() {
        return Err(ArgsError::InvalidMapEntry(string_of(p)));
    }
    let symbol = &p[0..e];
    let code = &p[e + 1..p.len()];
    assert(symbol@ =~= s.take(e as int));
    assert(code@ =~= s.skip(e + 1));
    if symbol.len() != 1 {
        return Err(ArgsError::InvalidMapSymbol(string_of(symbol)));
    }
    if !(code.len() == 3 && is_ascii_uppercase(code[0]) && is_ascii_uppercase(code[1])
        && is_ascii_uppercase(code[2])) {
        return Err(ArgsError::InvalidMapCode(string_of(code)));
    }
    Ok((symbol[0], string_of(code)))
}

fn parse_map_chars(s: &[char], map: &mut SymbolMap) -> (r: Result<(), ArgsError>)
    ensures
        final(map)@ == apply_map_spec(old(map)@, s@).0,
        match apply_map_spec(old(map)@, s@).1 {
            None => r is Ok,
            Some(e) => r matches Err(e2) && e2@ == e,
        },
{
    let ghost m0 = map@;
    let mut start: usize = 0;
    loop
        invariant
            start <= s.len(),
            apply_pairs(m0, pieces_from(s@, 0)) == apply_pairs(map@, pieces_from(s@, start as int)),
            m0 == old(map)@,
        decreases s.len() - start,
    {
        let mut j = start;
        while j < s.len() && s[j] != ','
            invariant
                start <= j <= s.len(),
                find_char(s@, j as int, ',') == find_char(s@, start as int, ','),
            decreases s.len() - j,
        {
            j = j + 1;
        }
        let piece = &s[start..j];
        let ghost ps = pieces_from(s@, start as int);
        proof {
            lemma_find_char_bounds(s@, start as int, ',');
            assert(ps[0] == piece@);
        }
        let ghost mb = map@;
        match parse_pair_exec(piece) {
            Err(e) => {
                return Err(e);
            },
            Ok((c, code)) => {
                assert(apply_pairs(mb, ps) == apply_pairs(mb.insert(c, code@), ps.drop_first()));
                map.insert(c, code);
            },
        }
        if j == s.len() {
            proof {
                assert(ps.drop_first() =~= Seq::<Seq<char>>::empty());
                assert(apply_pairs(map@, ps.drop_first()) == (map@, None::<ArgsErrorView>));
            }
            return Ok(());
        }
        proof {
            assert(ps.drop_first() =~= pieces_from(s@, j + 1));
        }
        start = j + 1;
    }
}

/// Adds the `SYMBOL=CODE` entries of a `--map` value, separated by commas
/// (e.g. "$=USD,£=GBP"), to `map`, in order. At the first bad entry it stops
/// with an error, keeping the entries before it.
pub fn parse_map_spec(spec: &str, map: &mut SymbolMap) -> (r: Result<(), ArgsError>)
    ensures
        final(map)@ == apply_map_spec(old(map)@, spec@).0,
        match apply_map_spec(old(map)@, spec@).1 {
            None => r is Ok,
            Some(e) => r matches Err(e2) && e2@ == e,
        },
{
    let chars = chars_of(spec);
    parse_map_chars(chars.as_slice(), map)
}

/// A `--min`/`--max` value: an optional `-`, then an amount that takes up
/// the whole value.
pub open spec fn spec_decimal_arg(flag: Seq<char>, s: Seq<char>) -> Result<i64, ArgsErrorView> {
    let negative = s.len() > 0 && s[0] == '-';
    let start: int = if negative {
        1
    } else {
        0
    };
    if !amount_fits(s, start) {
        Err(ArgsErrorView::ValueTooLarge(flag, s))
    } else {
        match spec_parse_amount(s, start) {
            Some((v, e)) => if e == s.len() {
                Ok(signed(v, negative) as i64)
            } else {
                Err(ArgsErrorView::InvalidValue(flag, s))
            },
            None => Err(ArgsErrorView::InvalidValue(flag, s)),
        }
    }
}

fn decimal_of_chars(flag: &str, chars: &[char]) -> (r: Result<i64, ArgsError>)
    ensures
        result_view(r) == spec_decimal_arg(flag@, chars@),
{
    let negative = chars.len() > 0 && chars[0] == '-';
    let start: usize = if negative {
        1
    } else {
        0
    };
    match parse_amount_wide(chars, start) {
        Some((None, _)) => Err(ArgsError::ValueTooLarge(String::from_str(flag), string_of(chars))),
        Some((Some(cents), end)) => {
            proof {
                lemma_parse_amount_shape(chars@, start as int);
            }
            if end == chars.len() {
                Ok(
                    if negative {
                        -cents
                    } else {
                        cents
                    },
                )
            } else {
                Err(ArgsError::InvalidValue(String::from_str(flag), string_of(chars)))
            }
        },
        None => Err(ArgsError::InvalidValue(String::from_str(flag), string_of(chars))),
    }
}

/// Parses a whole `--min`/`--max` argument (optionally negative) into minor
/// units, rejecting anything left over -- "10x" isn't a number just because
/// it starts with one.
pub fn parse_decimal_arg(flag: &str, s: &str) -> (r: Result<i64, ArgsError>)
    ensures
        result_view(r) == spec_decimal_arg(flag@, s@),
{
    let chars = chars_of(s);
    decimal_of_chars(flag, chars.as_slice())
}

/// The mathematical value of `Args`.
pub struct ArgsView {
    pub map: Map<char, Seq<char>>,
    pub per_file: bool,
    pub min: Option<i64>,
    pub max: Option<i64>,
    pub paths: Seq<Seq<char>>,
}

pub open spec fn strings_view(v: Seq<String>) -> Seq<Seq<char>> {
    v.map_values(|x: String| x@)
}

impl View for Args {
    type V = ArgsView;

    open spec fn view(&self) -> ArgsView {
        ArgsView {
            map: self.map@,
            per_file: self.per_file,
            min: self.min,
            max: self.max,
            paths: strings_view(self.paths@),
        }
    }
}

/// `s` starts with `p`.
pub open spec fn has_prefix(s: Seq<char>, p: Seq<char>) -> bool {
    p.len() <= s.len() && s.take(p.len() as int) == p
}

/// "--" and a flag name.
pub open spec fn long_flag(name: Seq<char>) -> Seq<char> {
    seq!['-', '-'] + name
}

/// "--", a flag name and "=".
pub open spec fn long_flag_eq(name: Seq<char>) -> Seq<char> {
    long_flag(name).push('=')
}

pub open spec fn map_name() -> Seq<char> {
    seq!['m', 'a', 'p']
}

pub open spec fn min_name() -> Seq<char> {
    seq!['m', 'i', 'n']
}

pub open spec fn max_name() -> Seq<char> {
    seq!['m', 'a', 'x']
}

pub open spec fn per_file_flag() -> Seq<char> {
    seq!['-', '-', 'p', 'e', 'r', '-', 'f', 'i', 'l', 'e']
}

/// The arguments before any flag: an empty map, no bounds, no paths.
pub open spec fn initial_args() -> ArgsView {
    ArgsView {
        map: Map::empty(),
        per_file: false,
        min: None,
        max: None,
        paths: Seq::empty(),
    }
}

/// The end of parsing: `--min` may not be greater than `--max`.
pub open spec fn finish_args(st: ArgsView) -> Result<ArgsView, ArgsErrorView> {
    match (st.min, st.max) {
        (Some(lo), Some(hi)) => if lo > hi {
            Err(ArgsErrorView::MinAboveMax(lo, hi))
        } else {
            Ok(st)
        },
        _ => Ok(st),
    }
}

/// `st` with the effect of a `--map` value.
pub open spec fn with_map(st: ArgsView, value: Seq<char>) -> Result<ArgsView, ArgsErrorView> {
    match apply_map_spec(st.map, value) {
        (m, None) => Ok(ArgsView { map: m, ..st }),
        (_, Some(e)) => Err(e),
    }
}

/// Parsing the arguments from index `i` on, in state `st`. `--map SPEC`
/// (or `--map=SPEC`) adds symbol mappings, `--per-file` sets the per-file
/// flag, `--min`/`--max` (or `--min=`/`--max=`) set a bound (the last one
/// given wins), and anything else is a path.
pub open spec fn parse_from(a: Seq<Seq<char>>, i: int, st: ArgsView) -> Result<
    ArgsView,
    ArgsErrorView,
>
    decreases a.len() - i,
{
    if !(0 <= i < a.len()) {
        finish_args(st)
    } else {
        let arg = a[i];
        if has_prefix(arg, long_flag_eq(map_name())) {
            match with_map(st, arg.skip(6)) {
                Ok(st2) => parse_from(a, i + 1, st2),
                Err(e) => Err(e),
            }
        } else if arg == long_flag(map_name()) {
            if i + 1 < a.len() {
                match with_map(st, a[i + 1]) {
                    Ok(st2) => parse_from(a, i + 2, st2),
                    Err(e) => Err(e),
                }
            } else {
                Err(ArgsErrorView::MissingValue(Flag::MapArg))
            }
        } else if arg == per_file_flag() {
            parse_from(a, i + 1, ArgsView { per_file: true, ..st })
        } else if has_prefix(arg, long_flag_eq(min_name())) {
            match spec_decimal_arg("min"@, arg.skip(6)) {
                Ok(v) => parse_from(a, i + 1, ArgsView { min: Some(v), ..st }),
                Err(e) => Err(e),
            }
        } else if arg == long_flag(min_name()) {
            if i + 1 < a.len() {
                match spec_decimal_arg("min"@, a[i + 1]) {
                    Ok(v) => parse_from(a, i + 2, ArgsView { min: Some(v), ..st }),
                    Err(e) => Err(e),
                }
            } else {
                Err(ArgsErrorView::MissingValue(Flag::MinArg))
            }
        } else if has_prefix(arg, long_flag_eq(max_name())) {
            match spec_decimal_arg("max"@, arg.skip(6)) {
                Ok(v) => parse_from(a, i + 1, ArgsView { max: Some(v), ..st }),
                Err(e) => Err(e),
            }
        } else if arg == long_flag(max_name()) {
            if i + 1 < a.len() {
                match spec_decimal_arg("max"@, a[i + 1]) {
                    Ok(v) => parse_from(a, i + 2, ArgsView { max: Some(v), ..st }),
                    Err(e) => Err(e),
                }
            } else {
                Err(ArgsErrorView::MissingValue(Flag::MaxArg))
            }
        } else {
            parse_from(a, i + 1, ArgsView { paths: st.paths.push(arg), ..st })
        }
    }
}

/// What the command line `a` (without the program name) parses to.
pub open spec fn spec_parse_args(a: Seq<Seq<char>>) -> Result<ArgsView, ArgsErrorView> {
    parse_from(a, 0, initial_args())
}

fn starts_with(s: &[char], p: &[char]) -> (r: bool)
    ensures
        r == has_prefix(s@, p@),
{
    if p.len() > s.len() {
        return false;
    }
    let mut i: usize = 0;
    while i < p.len()
        invariant
            p.len() <= s.len(),
            i <= p.len(),
            forall|j: int| 0 <= j < i ==> s@[j] == p@[j],
        decreases p.len() - i,
    {
        if s[i] != p[i] {
            assert(s@.take(p.len() as int)[i as int] != p@[i as int]);
            return false;
        }
        i = i + 1;
    }
    assert(s@.take(p.len() as int) =~= p@);
    true
}

fn same_chars(s: &[char], p: &[char]) -> (r: bool)
    ensures
        r == (s@ == p@),
{
    if s.len() != p.len() {
        return false;
    }
    let r = starts_with(s, p);
    assert(s@.take(p.len() as int) =~= s@);
    r
}

/// Splits the recognized flags (and the file-path arguments) out of the raw
/// args. `--map SPEC` takes one or more "symbol=CODE" pairs separated by
/// commas, e.g. "$=USD,£=GBP"; the flag can also be repeated to build up one
/// map. `--min`/`--max` each take a plain decimal amount, e.g. "10" or
/// "10.50", and bound which amounts count toward the total.
pub fn parse_args(args: Vec<String>) -> (r: Result<Args, ArgsError>)
    ensures
        match spec_parse_args(strings_view(args@)) {
            Ok(v) => r matches Ok(parsed) && parsed@ == v,
            Err(e) => r matches Err(e2) && e2@ == e,
        },
{
    let ghost a = strings_view(args@);
    let n = args.len();
    let mut map = SymbolMap::new();
    let mut per_file = false;
    let mut min: Option<i64> = None;
    let mut max: Option<i64> = None;
    let mut paths: Vec<String> = Vec::new();
    let mut i: usize = 0;
    let map_flag = ['-', '-', 'm', 'a', 'p'];
    let map_eq = ['-', '-', 'm', 'a', 'p', '='];
    let per_file_text = ['-', '-', 'p', 'e', 'r', '-', 'f', 'i', 'l', 'e'];
    let min_flag = ['-', '-', 'm', 'i', 'n'];
    let min_eq = ['-', '-', 'm', 'i', 'n', '='];
    let max_flag = ['-', '-', 'm', 'a', 'x'];
    let max_eq = ['-', '-', 'm', 'a', 'x', '='];
    assert(map_flag@ =~= long_flag(map_name()));
    assert(map_eq@ =~= long_flag_eq(map_name()));
    assert(per_file_text@ =~= per_file_flag());
    assert(min_flag@ =~= long_flag(min_name()));
    assert(min_eq@ =~= long_flag_eq(min_name()));
    assert(max_flag@ =~= long_flag(max_name()));
    assert(max_eq@ =~= long_flag_eq(max_name()));
    assert(strings_view(paths@) =~= Seq::<Seq<char>>::empty());
    while i < n
        invariant
            i <= n,
            n == a.len(),
            a == strings_view(args@),
            map_flag@ == long_flag(map_name()),
            map_eq@ == long_flag_eq(map_name()),
            per_file_text@ == per_file_flag(),
            min_flag@ == long_flag(min_name()),
            min_eq@ == long_flag_eq(min_name()),
            max_flag@ == long_flag(max_name()),
            max_eq@ == long_flag_eq(max_name()),
            spec_parse_args(a) == parse_from(
                a,
                i as int,
                ArgsView {
                    map: map@,
                    per_file: per_file,
                    min: min,
                    max: max,
                    paths: strings_view(paths@),
                },
            ),
        decreases n - i,
    {
        let ghost st = ArgsView {
            map: map@,
            per_file: per_file,
            min: min,
            max: max,
            paths: strings_view(paths@),
        };
        let arg = args[i].clone();
        assert(arg@ == a[i as int]);
        let chars = chars_of(arg.as_str());
        let cs = chars.as_slice();
        if starts_with(cs, &map_eq) {
            let value = &cs[6..cs.len()];
            assert(value@ =~= a[i as int].skip(6));
            match parse_map_chars(value, &mut map) {
                Err(e) => {
                    return Err(e);
                },
                Ok(()) => {},
            }
            i = i + 1;
        } else if same_chars(cs, &map_flag) {
            if i + 1 >= n {
                return Err(ArgsError::MissingValue(Flag::MapArg));
            }
            let value = &args[i + 1];
            assert(value@ == a[i + 1]);
            let vchars = chars_of(value.as_str());
            match parse_map_chars(vchars.as_slice(), &mut map) {
                Err(e) => {
                    return Err(e);
                },
                Ok(()) => {},
            }
            i = i + 2;
        } else if same_chars(cs, &per_file_text) {
            per_file = true;
            i = i + 1;
        } else if starts_with(cs, &min_eq) {
            let value = &cs[6..cs.len()];
            assert(value@ =~= a[i as int].skip(6));
            match decimal_of_chars("min", value) {
                Err(e) => {
                    return Err(e);
                },
                Ok(v) => {
                    min = Some(v);
                },
            }
            i = i + 1;
        } else if same_chars(cs, &min_flag) {
            if i + 1 >= n {
                return Err(ArgsError::MissingValue(Flag::MinArg));
            }
            let value = &args[i + 1];
            assert(value@ == a[i + 1]);
            match parse_decimal_arg("min", value.as_str()) {
                Err(e) => {
                    return Err(e);
                },
                Ok(v) => {
                    min = Some(v);
                },
            }
            i = i + 2;
        } else if starts_with(cs, &max_eq) {
            let value = &cs[6..cs.len()];
            assert(value@ =~= a[i as int].skip(6));
            match decimal_of_chars("max", value) {
                Err(e) => {
                    return Err(e);
                },
                Ok(v) => {
                    max = Some(v);
                },
            }
            i = i + 1;
        } else if same_chars(cs, &max_flag) {
            if i + 1 >= n {
                return Err(ArgsError::MissingValue(Flag::MaxArg));
            }
            let value = &args[i + 1];
            assert(value@ == a[i + 1]);
            match parse_decimal_arg("max", value.as_str()) {
                Err(e) => {
                    return Err(e);
                },
                Ok(v) => {
                    max = Some(v);
                },
            }
            i = i + 2;
        } else {
            paths.push(arg);
            assert(strings_view(paths@) =~= st.paths.push(a[i as int]));
            i = i + 1;
        }
    }
    if let (Some(lo), Some(hi)) = (min, max) {
        if lo > hi {
            return Err(ArgsError::MinAboveMax(lo, hi));
        }
    }
    Ok(Args { map, per_file, min, max, paths })
}

} // verus!
