//! Currencies, their order, and the symbol-to-code map.

use vstd::prelude::*;
use crate::keyed::{has_key, keys_distinct, lemma_seq_to_map_index, lemma_seq_to_map_update, seq_to_map};
use crate::text::chars_of;

verus! {

/// The four symbols recognized as the start of an amount: `$`, `£`, `€`, `¥`.
pub open spec fn is_symbol(c: char) -> bool {
    c == '$' || c == '\u{a3}' || c == '\u{20ac}' || c == '\u{a5}'
}

pub fn is_currency_symbol(c: char) -> (r: bool)
    ensures
        r == is_symbol(c),
{
    c == '$' || c == '\u{a3}' || c == '\u{20ac}' || c == '\u{a5}'
}

/// What an amount is counted under: the symbol written before it ("$5"), or a
/// three-letter code written after it ("5 USD") or mapped from a symbol.
#[derive(Debug, Clone, PartialEq, Eq, PartialOrd, Ord)]
pub enum Currency {
    Symbol(char),
    Code(String),
}

/// The mathematical value of a `Currency`.
pub enum CurrencyView {
    Symbol(char),
    Code(Seq<char>),
}

impl View for Currency {
    type V = CurrencyView;

    open spec fn view(&self) -> CurrencyView {
        match self {
            Currency::Symbol(c) => CurrencyView::Symbol(*c),
            Currency::Code(s) => CurrencyView::Code(s@),
        }
    }
}

/// Lexicographic order on character sequences (by code point), a proper
/// prefix coming first.
pub open spec fn chars_lt(a: Seq<char>, b: Seq<char>) -> bool
    decreases a.len(),
{
    if a.len() == 0 {
        b.len() > 0
    } else if b.len() == 0 {
        false
    } else if a[0] != b[0] {
        a[0] < b[0]
    } else {
        chars_lt(a.drop_first(), b.drop_first())
    }
}

/// The order in which currencies are kept and reported: every symbol before
/// every code, symbols by code point, codes lexicographically.
pub open spec fn currency_lt(a: CurrencyView, b: CurrencyView) -> bool {
    match (a, b) {
        (CurrencyView::Symbol(x), CurrencyView::Symbol(y)) => x < y,
        (CurrencyView::Symbol(_), CurrencyView::Code(_)) => true,
        (CurrencyView::Code(_), CurrencyView::Symbol(_)) => false,
        (CurrencyView::Code(x), CurrencyView::Code(y)) => chars_lt(x, y),
    }
}

pub proof fn lemma_chars_lt_irreflexive(a: Seq<char>)
    ensures
        !chars_lt(a, a),
    decreases a.len(),
{
    if a.len() > 0 {
        lemma_chars_lt_irreflexive(a.drop_first());
    }
}

pub proof fn lemma_chars_lt_transitive(a: Seq<char>, b: Seq<char>, c: Seq<char>)
    requires
        chars_lt(a, b),
        chars_lt(b, c),
    ensures
        chars_lt(a, c),
    decreases a.len(),
{
    if a.len() > 0 && b.len() > 0 && c.len() > 0 && a[0] == b[0] && b[0] == c[0] {
        lemma_chars_lt_transitive(a.drop_first(), b.drop_first(), c.drop_first());
    }
}

pub proof fn lemma_chars_lt_total(a: Seq<char>, b: Seq<char>)
    requires
        a != b,
    ensures
        chars_lt(a, b) || chars_lt(b, a),
    decreases a.len(),
{
    if a.len() > 0 && b.len() > 0 && a[0] == b[0] {
        if a.drop_first() == b.drop_first() {
            assert(a =~= seq![a[0]] + a.drop_first());
            assert(b =~= seq![b[0]] + b.drop_first());
        }
        lemma_chars_lt_total(a.drop_first(), b.drop_first());
    } else if a.len() == 0 && b.len() == 0 {
        assert(a =~= b);
    }
}

pub proof fn lemma_chars_lt_asymmetric(a: Seq<char>, b: Seq<char>)
    requires
        chars_lt(a, b),
    ensures
        !chars_lt(b, a),
{
    if chars_lt(b, a) {
        lemma_chars_lt_transitive(a, b, a);
        lemma_chars_lt_irreflexive(a);
    }
}

/// `currency_lt` is a strict total order.
pub proof fn lemma_currency_order()
    ensures
        forall|a: CurrencyView| !#[trigger] currency_lt(a, a),
        forall|a: CurrencyView, b: CurrencyView, c: CurrencyView|
            #[trigger] currency_lt(a, b) && #[trigger] currency_lt(b, c) ==> currency_lt(a, c),
        forall|a: CurrencyView, b: CurrencyView|
            a != b ==> #[trigger] currency_lt(a, b) || #[trigger] currency_lt(b, a),
        forall|a: CurrencyView, b: CurrencyView|
            #[trigger] currency_lt(a, b) ==> !currency_lt(b, a),
{
    assert forall|a: CurrencyView| !#[trigger] currency_lt(a, a) by {
        if let CurrencyView::Code(x) = a {
            lemma_chars_lt_irreflexive(x);
        }
    }
    assert forall|a: CurrencyView, b: CurrencyView, c: CurrencyView|
        #[trigger] currency_lt(a, b) && #[trigger] currency_lt(b, c) implies currency_lt(a, c) by {
        if let (CurrencyView::Code(x), CurrencyView::Code(y), CurrencyView::Code(z)) = (a, b, c) {
            lemma_chars_lt_transitive(x, y, z);
        }
    }
    assert forall|a: CurrencyView, b: CurrencyView|
        a != b implies #[trigger] currency_lt(a, b) || #[trigger] currency_lt(b, a) by {
        if let (CurrencyView::Code(x), CurrencyView::Code(y)) = (a, b) {
            lemma_chars_lt_total(x, y);
        }
    }
    assert forall|a: CurrencyView, b: CurrencyView| #[trigger] currency_lt(a, b) implies !currency_lt(
        b,
        a,
    ) by {
        if let (CurrencyView::Code(x), CurrencyView::Code(y)) = (a, b) {
            lemma_chars_lt_asymmetric(x, y);
        }
    }
}

/// A copy of a currency.
pub fn copy_currency(c: &Currency) -> (r: Currency)
    ensures
        r@ == c@,
{
    match c {
        Currency::Symbol(s) => Currency::Symbol(*s),
        Currency::Code(code) => Currency::Code(code.clone()),
    }
}

/// Compares two character sequences: `(a < b, a == b)`.
fn compare_chars(a: &Vec<char>, b: &Vec<char>) -> (r: (bool, bool))
    ensures
        r.0 == chars_lt(a@, b@),
        r.1 == (a@ == b@),
{
    let mut i: usize = 0;
    assert(a@.skip(0) =~= a@);
    assert(b@.skip(0) =~= b@);
    while i < a.len() && i < b.len() && a[i] == b[i]
        invariant
            i <= a.len(),
            i <= b.len(),
            a@.take(i as int) == b@.take(i as int),
            chars_lt(a@, b@) == chars_lt(a@.skip(i as int), b@.skip(i as int)),
        decreases a.len() - i,
    {
        proof {
            let x = a@.skip(i as int);
            let y = b@.skip(i as int);
            assert(x.drop_first() =~= a@.skip(i + 1));
            assert(y.drop_first() =~= b@.skip(i + 1));
            assert(a@.take(i + 1) =~= a@.take(i as int).push(a@[i as int]));
            assert(b@.take(i + 1) =~= b@.take(i as int).push(b@[i as int]));
        }
        i = i + 1;
    }
    proof {
        assert(a@ =~= a@.take(i as int) + a@.skip(i as int));
        assert(b@ =~= b@.take(i as int) + b@.skip(i as int));
    }
    if i < a.len() && i < b.len() {
        proof {
            assert(a@.skip(i as int)[0] == a@[i as int]);
            assert(b@.skip(i as int)[0] == b@[i as int]);
            assert(a@[i as int] != b@[i as int]);
        }
        (a[i] < b[i], false)
    } else {
        assert(a@ == b@ <==> a.len() == b.len());
        (i == a.len() && i < b.len(), i == a.len() && i == b.len())
    }
}

/// Compares two currencies: `(a < b, a == b)` in the order of `currency_lt`.
pub fn compare_currency(a: &Currency, b: &Currency) -> (r: (bool, bool))
    ensures
        r.0 == currency_lt(a@, b@),
        r.1 == (a@ == b@),
{
    match (a, b) {
        (Currency::Symbol(x), Currency::Symbol(y)) => (*x < *y, *x == *y),
        (Currency::Symbol(_), Currency::Code(_)) => (true, false),
        (Currency::Code(_), Currency::Symbol(_)) => (false, false),
        (Currency::Code(x), Currency::Code(y)) => {
            let xs = chars_of(x.as_str());
            let ys = chars_of(y.as_str());
            compare_chars(&xs, &ys)
        },
    }
}

/// Which currency code a symbol is to be counted under, as given on the
/// command line (e.g. `$=USD`).
pub struct SymbolMap {
    entries: Vec<(char, String)>,
}

impl SymbolMap {
    pub closed spec fn pairs(&self) -> Seq<(char, Seq<char>)> {
        self.entries@.map_values(|e: (char, String)| (e.0, e.1@))
    }

    #[verifier::type_invariant]
    closed spec fn wf(&self) -> bool {
        keys_distinct(self.pairs())
    }
}

/// `c` is mapped to `code`.
pub open spec fn maps_to(map: Map<char, Seq<char>>, c: char, code: Seq<char>) -> bool {
    map.contains_key(c) && map[c] == code
}

/// `c` is the smallest symbol (by code point) mapped to `code`.
pub open spec fn least_symbol_for(map: Map<char, Seq<char>>, code: Seq<char>, c: char) -> bool {
    maps_to(map, c, code) && forall|d: char| #[trigger] maps_to(map, d, code) ==> c <= d
}

/// The symbol that a code total is shown with: the smallest symbol mapped to
/// the code, if any is.
pub open spec fn mapped_symbol(map: Map<char, Seq<char>>, code: Seq<char>) -> Option<char> {
    if exists|c: char| least_symbol_for(map, code, c) {
        Some(choose|c: char| least_symbol_for(map, code, c))
    } else {
        None
    }
}

impl View for SymbolMap {
    type V = Map<char, Seq<char>>;

    closed spec fn view(&self) -> Map<char, Seq<char>> {
        seq_to_map(self.pairs())
    }
}

impl SymbolMap {
    pub fn new() -> (m: SymbolMap)
        ensures
            m@ == Map::<char, Seq<char>>::empty(),
    {
        let m = SymbolMap { entries: Vec::new() };
        assert(m@ =~= Map::<char, Seq<char>>::empty());
        m
    }

    pub fn is_empty(&self) -> (r: bool)
        ensures
            r == (self@ == Map::<char, Seq<char>>::empty()),
    {
        proof {
            use_type_invariant(self);
            if self.entries.len() > 0 {
                lemma_seq_to_map_index(self.pairs(), 0);
            } else {
                assert(self@ =~= Map::<char, Seq<char>>::empty());
            }
        }
        self.entries.len() == 0
    }

    /// The code a symbol is mapped to, if any.
    pub fn get(&self, symbol: &char) -> (r: Option<&String>)
        ensures
            match r {
                Some(code) => self@.contains_key(*symbol) && self@[*symbol] == code@,
                None => !self@.contains_key(*symbol),
            },
    {
        proof {
            use_type_invariant(self);
        }
        let ghost s = self.pairs();
        let mut i: usize = 0;
        while i < self.entries.len()
            invariant
                s == self.pairs(),
                keys_distinct(s),
                i <= self.entries.len(),
                forall|j: int| 0 <= j < i ==> #[trigger] s[j].0 != *symbol,
            decreases self.entries.len() - i,
        {
            if self.entries[i].0 == *symbol {
                proof {
                    lemma_seq_to_map_index(s, i as int);
                }
                return Some(&self.entries[i].1);
            }
            i = i + 1;
        }
        proof {
            if has_key(s, *symbol) {
                let j = choose|j: int| 0 <= j < s.len() && #[trigger] s[j].0 == *symbol;
                assert(s[j].0 != *symbol);
            }
        }
        None
    }

    /// Maps `symbol` to `code`, replacing any earlier code for it.
    pub fn insert(&mut self, symbol: char, code: String)
        ensures
            final(self)@ == old(self)@.insert(symbol, code@),
    {
        proof {
            use_type_invariant(&*self);
        }
        let ghost s = self.pairs();
        let mut entries: Vec<(char, String)> = Vec::new();
        std::mem::swap(&mut entries, &mut self.entries);
        assert(entries@.map_values(|e: (char, String)| (e.0, e.1@)) == s);
        let mut i: usize = 0;
        while i < entries.len()
            invariant
                s == old(self).pairs(),
                s == entries@.map_values(|e: (char, String)| (e.0, e.1@)),
                keys_distinct(s),
                i <= entries.len(),
                forall|j: int| 0 <= j < i ==> #[trigger] s[j].0 != symbol,
            decreases entries.len() - i,
        {
            if entries[i].0 == symbol {
                assert(s[i as int].0 == symbol);
                entries.set(i, (symbol, code));
                proof {
                    lemma_seq_to_map_update(s, i as int, code@);
                    assert(entries@.map_values(|e: (char, String)| (e.0, e.1@)) =~= s.update(
                        i as int,
                        (symbol, code@),
                    ));
                }
                self.entries = entries;
                return;
            }
            i = i + 1;
        }
        entries.push((symbol, code));
        proof {
            assert(!has_key(s, symbol)) by {
                if has_key(s, symbol) {
                    let j = choose|j: int| 0 <= j < s.len() && #[trigger] s[j].0 == symbol;
                    assert(s[j].0 != symbol);
                }
            }
            crate::keyed::lemma_seq_to_map_insert(s, s.len() as int, symbol, code@);
            assert(entries@.map_values(|e: (char, String)| (e.0, e.1@)) =~= s.insert(
                s.len() as int,
                (symbol, code@),
            ));
        }
        self.entries = entries;
    }

    /// The smallest symbol mapped to `code`, if any.
    pub fn symbol_for(&self, code: &String) -> (r: Option<char>)
        ensures
            r == mapped_symbol(self@, code@),
    {
        proof {
            use_type_invariant(self);
        }
        let ghost s = self.pairs();
        let mut best: Option<char> = None;
        let mut i: usize = 0;
        while i < self.entries.len()
            invariant
                s == self.pairs(),
                keys_distinct(s),
                i <= self.entries.len(),
                best is None ==> forall|j: int| 0 <= j < i ==> #[trigger] s[j].1 != code@,
                best matches Some(b) ==> maps_to(self@, b, code@) && forall|j: int|
                    0 <= j < i && #[trigger] s[j].1 == code@ ==> b <= s[j].0,
            decreases self.entries.len() - i,
        {
            if self.entries[i].1 == *code {
                let c = self.entries[i].0;
                proof {
                    lemma_seq_to_map_index(s, i as int);
                }
                match best {
                    None => {
                        best = Some(c);
                    },
                    Some(b) => {
                        if c < b {
                            best = Some(c);
                        }
                    },
                }
            }
            i = i + 1;
        }
        proof {
            let m = self@;
            assert forall|d: char| #[trigger] maps_to(m, d, code@) implies exists|j: int|
                0 <= j < s.len() && s[j].0 == d && s[j].1 == code@ by {
                let j = choose|j: int| 0 <= j < s.len() && #[trigger] s[j].0 == d;
                lemma_seq_to_map_index(s, j);
            }
            match best {
                None => {
                    if exists|c: char| least_symbol_for(m, code@, c) {
                        let c = choose|c: char| least_symbol_for(m, code@, c);
                        assert(maps_to(m, c, code@));
                        let j = choose|j: int| 0 <= j < s.len() && s[j].0 == c && s[j].1 == code@;
                        assert(s[j].1 != code@);
                    }
                },
                Some(b) => {
                    assert forall|d: char| #[trigger] maps_to(m, d, code@) implies b <= d by {
                        let j = choose|j: int| 0 <= j < s.len() && s[j].0 == d && s[j].1 == code@;
                        assert(s[j].1 == code@);
                    }
                    assert(least_symbol_for(m, code@, b));
                    let c = choose|c: char| least_symbol_for(m, code@, c);
                    assert(c <= b && b <= c);
                },
            }
        }
        best
    }
}

} // verus!
