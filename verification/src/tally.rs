//! Per-currency totals and counts.

use vstd::prelude::*;
use crate::currency::{
    compare_currency, copy_currency, currency_lt, lemma_currency_order, Currency, CurrencyView,
};
use crate::args::Args;
use crate::scanner::{amounts_fit, amounts_view, find_amounts_in, line_amounts};
use crate::text::chars_of;
use crate::keyed::{
    has_key, keys_distinct, lemma_seq_to_map_index, lemma_seq_to_map_insert,
    lemma_seq_to_map_update, seq_to_map,
};

verus! {

/// Keys strictly increasing in currency order.
pub open spec fn strictly_sorted<V>(s: Seq<(CurrencyView, V)>) -> bool {
    forall|i: int, j: int|
        #![trigger s[i], s[j]]
        0 <= i < j < s.len() ==> currency_lt(s[i].0, s[j].0)
}

pub proof fn lemma_sorted_distinct<V>(s: Seq<(CurrencyView, V)>)
    requires
        strictly_sorted(s),
    ensures
        keys_distinct(s),
{
    lemma_currency_order();
    assert forall|i: int, j: int|
        #![trigger s[i], s[j]]
        0 <= i < s.len() && 0 <= j < s.len() && s[i].0 == s[j].0 implies i == j by {
        if i < j {
            assert(currency_lt(s[i].0, s[j].0));
        } else if j < i {
            assert(currency_lt(s[j].0, s[i].0));
        }
    }
}

/// A map from currencies to values (totals or counts), kept in currency
/// order so that a report lists currencies in a fixed order.
pub struct CurrencyMap<V> {
    entries: Vec<(Currency, V)>,
}

pub open spec fn entries_of<V>(v: Seq<(Currency, V)>) -> Seq<(CurrencyView, V)> {
    v.map_values(|e: (Currency, V)| (e.0@, e.1))
}

impl<V> CurrencyMap<V> {
    /// The entries in the order they are kept.
    pub closed spec fn entries_view(&self) -> Seq<(CurrencyView, V)> {
        entries_of(self.entries@)
    }

    #[verifier::type_invariant]
    closed spec fn wf(&self) -> bool {
        strictly_sorted(self.entries_view())
    }
}

impl<V> View for CurrencyMap<V> {
    type V = Map<CurrencyView, V>;

    open spec fn view(&self) -> Map<CurrencyView, V> {
        seq_to_map(self.entries_view())
    }
}

/// Where `k` is or would go in sorted entries: `(true, i)` when entry `i` has
/// key `k`, else `(false, i)` with every entry before `i` smaller than `k` and
/// every entry from `i` on greater.
fn locate<V>(entries: &Vec<(Currency, V)>, k: &Currency) -> (r: (bool, usize))
    requires
        strictly_sorted(entries_of(entries@)),
    ensures
        r.1 <= entries.len(),
        forall|j: int| 0 <= j < r.1 ==> currency_lt(#[trigger] entries_of(entries@)[j].0, k@),
        r.0 ==> r.1 < entries.len() && entries_of(entries@)[r.1 as int].0 == k@,
        !r.0 ==> !has_key(entries_of(entries@), k@),
        !r.0 ==> forall|j: int|
            r.1 <= j < entries.len() ==> currency_lt(k@, #[trigger] entries_of(entries@)[j].0),
{
    let ghost s = entries_of(entries@);
    proof {
        lemma_currency_order();
    }
    let mut i: usize = 0;
    while i < entries.len()
        invariant
            s == entries_of(entries@),
            strictly_sorted(s),
            i <= entries.len(),
            forall|j: int| 0 <= j < i ==> currency_lt(#[trigger] s[j].0, k@),
        decreases entries.len() - i,
    {
        let (lt, eq) = compare_currency(&entries[i].0, k);
        assert(s[i as int].0 == entries@[i as int].0@);
        if eq {
            return (true, i);
        }
        if !lt {
            proof {
                lemma_currency_order();
                assert(currency_lt(k@, s[i as int].0));
                assert forall|j: int| i <= j < entries.len() implies currency_lt(
                    k@,
                    #[trigger] s[j].0,
                ) by {
                    if j > i {
                        assert(currency_lt(s[i as int].0, s[j].0));
                    }
                }
                assert(!has_key(s, k@)) by {
                    if has_key(s, k@) {
                        let j = choose|j: int| 0 <= j < s.len() && #[trigger] s[j].0 == k@;
                        if j < i {
                            assert(currency_lt(s[j].0, k@));
                        } else {
                            assert(currency_lt(k@, s[j].0));
                        }
                    }
                }
            }
            return (false, i);
        }
        i = i + 1;
    }
    proof {
        lemma_currency_order();
        assert(!has_key(s, k@)) by {
            if has_key(s, k@) {
                let j = choose|j: int| 0 <= j < s.len() && #[trigger] s[j].0 == k@;
                assert(currency_lt(s[j].0, k@));
            }
        }
    }
    (false, i)
}

impl<V: Copy> CurrencyMap<V> {
    pub fn new() -> (m: Self)
        ensures
            m@ == Map::<CurrencyView, V>::empty(),
            m.entries_view().len() == 0,
    {
        let m = CurrencyMap { entries: Vec::new() };
        assert(m@ =~= Map::<CurrencyView, V>::empty());
        m
    }

    /// The number of currencies held; the entries are always in strictly
    /// increasing currency order, so each currency occurs once.
    pub fn len(&self) -> (n: usize)
        ensures
            n == self.entries_view().len(),
            strictly_sorted(self.entries_view()),
            keys_distinct(self.entries_view()),
    {
        proof {
            use_type_invariant(self);
            lemma_sorted_distinct(self.entries_view());
        }
        self.entries.len()
    }

    pub fn is_empty(&self) -> (r: bool)
        ensures
            r == (self@ == Map::<CurrencyView, V>::empty()),
            r == (self.entries_view().len() == 0),
    {
        proof {
            use_type_invariant(self);
            lemma_sorted_distinct(self.entries_view());
            if self.entries.len() > 0 {
                lemma_seq_to_map_index(self.entries_view(), 0);
            } else {
                assert(self@ =~= Map::<CurrencyView, V>::empty());
            }
        }
        self.entries.len() == 0
    }

    /// The currency and value of the `i`th entry in currency order.
    pub fn entry_at(&self, i: usize) -> (r: (&Currency, V))
        requires
            i < self.entries_view().len(),
        ensures
            (r.0@, r.1) == self.entries_view()[i as int],
            self@.contains_key(r.0@),
            self@[r.0@] == r.1,
    {
        proof {
            use_type_invariant(self);
            lemma_sorted_distinct(self.entries_view());
            lemma_seq_to_map_index(self.entries_view(), i as int);
        }
        (&self.entries[i].0, self.entries[i].1)
    }

    /// The value held for `currency`, if any.
    pub fn get(&self, currency: &Currency) -> (r: Option<&V>)
        ensures
            match r {
                Some(v) => self@.contains_key(currency@) && self@[currency@] == *v,
                None => !self@.contains_key(currency@),
            },
    {
        proof {
            use_type_invariant(self);
            lemma_sorted_distinct(self.entries_view());
        }
        let (found, i) = locate(&self.entries, currency);
        if found {
            proof {
                lemma_seq_to_map_index(self.entries_view(), i as int);
            }
            Some(&self.entries[i].1)
        } else {
            None
        }
    }

    /// The value held for `currency`, or `zero` when there is none.
    pub fn value_or(&self, currency: &Currency, zero: V) -> (r: V)
        ensures
            r == if self@.contains_key(currency@) {
                self@[currency@]
            } else {
                zero
            },
    {
        match self.get(currency) {
            Some(v) => *v,
            None => zero,
        }
    }

    /// Sets the value held for `currency`, adding the currency if it is new.
    pub fn insert(&mut self, currency: Currency, value: V)
        ensures
            final(self)@ == old(self)@.insert(currency@, value),
    {
        proof {
            use_type_invariant(&*self);
            lemma_currency_order();
        }
        let ghost s = self.entries_view();
        let ghost k = currency@;
        let mut entries: Vec<(Currency, V)> = Vec::new();
        std::mem::swap(&mut entries, &mut self.entries);
        assert(entries_of(entries@) == s);
        proof {
            lemma_sorted_distinct(s);
        }
        let (found, i) = locate(&entries, &currency);
        if found {
            entries.set(i, (currency, value));
            proof {
                lemma_seq_to_map_update(s, i as int, value);
                assert(entries_of(entries@) =~= s.update(i as int, (k, value)));
                let t = entries_of(entries@);
                assert forall|a: int, b: int|
                    #![trigger t[a], t[b]]
                    0 <= a < b < t.len() implies currency_lt(t[a].0, t[b].0) by {
                    assert(s[a].0 == t[a].0 && s[b].0 == t[b].0);
                }
            }
            self.entries = entries;
        } else {
            entries.insert(i, (currency, value));
            proof {
                lemma_seq_to_map_insert(s, i as int, k, value);
                assert(entries_of(entries@) =~= s.insert(i as int, (k, value)));
                let t = entries_of(entries@);
                assert forall|a: int, b: int|
                    #![trigger t[a], t[b]]
                    0 <= a < b < t.len() implies currency_lt(t[a].0, t[b].0) by {
                    if b < i {
                        assert(t[a] == s[a] && t[b] == s[b]);
                    } else if b == i {
                        assert(t[a] == s[a]);
                    } else if a == i {
                        assert(t[b] == s[b - 1]);
                    } else if a < i {
                        assert(t[a] == s[a] && t[b] == s[b - 1]);
                    } else {
                        assert(t[a] == s[a - 1] && t[b] == s[b - 1]);
                    }
                }
            }
            self.entries = entries;
        }
    }

    /// A copy of this map.
    pub fn duplicate(&self) -> (r: Self)
        ensures
            r@ == self@,
            r.entries_view() == self.entries_view(),
    {
        proof {
            use_type_invariant(self);
        }
        let mut entries: Vec<(Currency, V)> = Vec::new();
        for i in 0..self.entries.len()
            invariant
                entries_of(entries@) == self.entries_view().take(i as int),
                strictly_sorted(self.entries_view()),
        {
            let c = copy_currency(&self.entries[i].0);
            let v = self.entries[i].1;
            let ghost before = entries@;
            entries.push((c, v));
            assert(entries@ == before.push((c, v)));
            assert(self.entries_view()[i as int] == (c@, v));
            assert(entries_of(entries@) =~= entries_of(before).push((c@, v)));
            assert(entries_of(entries@) =~= self.entries_view().take(i + 1));
        }
        assert(self.entries_view().take(self.entries.len() as int) =~= self.entries_view());
        CurrencyMap { entries }
    }
}

/// An amount counts when it lies within the optional bounds.
pub open spec fn within(v: int, min: Option<i64>, max: Option<i64>) -> bool {
    (min matches Some(lo) ==> lo <= v) && (max matches Some(hi) ==> v <= hi)
}

/// The amounts of `a` that count, in order.
pub open spec fn kept(a: Seq<(CurrencyView, int)>, min: Option<i64>, max: Option<i64>) -> Seq<
    (CurrencyView, int),
>
    decreases a.len(),
{
    if a.len() == 0 {
        a
    } else if within(a.last().1, min, max) {
        kept(a.drop_last(), min, max).push(a.last())
    } else {
        kept(a.drop_last(), min, max)
    }
}

/// The sum of the amounts of `a` in currency `k`.
pub open spec fn sum_for(a: Seq<(CurrencyView, int)>, k: CurrencyView) -> int
    decreases a.len(),
{
    if a.len() == 0 {
        0
    } else {
        sum_for(a.drop_last(), k) + if a.last().0 == k {
            a.last().1
        } else {
            0
        }
    }
}

/// The number of amounts of `a` in currency `k`.
pub open spec fn count_for(a: Seq<(CurrencyView, int)>, k: CurrencyView) -> int
    decreases a.len(),
{
    if a.len() == 0 {
        0
    } else {
        count_for(a.drop_last(), k) + if a.last().0 == k {
            1int
        } else {
            0
        }
    }
}

/// The total held for `k`, zero when there is none.
pub open spec fn total_in(m: Map<CurrencyView, i64>, k: CurrencyView) -> int {
    if m.contains_key(k) {
        m[k] as int
    } else {
        0
    }
}

/// The count held for `k`, zero when there is none.
pub open spec fn count_in(m: Map<CurrencyView, u64>, k: CurrencyView) -> int {
    if m.contains_key(k) {
        m[k] as int
    } else {
        0
    }
}

/// `new` holds the totals of `old` plus the amounts of `a`, per currency; a
/// currency is present when it was before or `a` has an amount in it.
pub open spec fn totals_after(
    old: Map<CurrencyView, i64>,
    new: Map<CurrencyView, i64>,
    a: Seq<(CurrencyView, int)>,
) -> bool {
    &&& forall|k: CurrencyView|
        #[trigger] new.contains_key(k) <==> (old.contains_key(k) || count_for(a, k) > 0)
    &&& forall|k: CurrencyView|
        #[trigger] new.contains_key(k) ==> new[k] == total_in(old, k) + sum_for(a, k)
}

/// `new` holds the counts of `old` plus the number of amounts of `a`, per
/// currency; a currency is present when it was before or `a` has an amount in
/// it.
pub open spec fn counts_after(
    old: Map<CurrencyView, u64>,
    new: Map<CurrencyView, u64>,
    a: Seq<(CurrencyView, int)>,
) -> bool {
    &&& forall|k: CurrencyView|
        #[trigger] new.contains_key(k) <==> (old.contains_key(k) || count_for(a, k) > 0)
    &&& forall|k: CurrencyView|
        #[trigger] new.contains_key(k) ==> new[k] == count_in(old, k) + count_for(a, k)
}

/// Adding the counted amounts of `a` one by one to the totals `t` and the
/// counts `c` never leaves `i64` (totals) or `u64` (counts).
pub open spec fn tally_fits(
    t: Map<CurrencyView, i64>,
    c: Map<CurrencyView, u64>,
    a: Seq<(CurrencyView, int)>,
    min: Option<i64>,
    max: Option<i64>,
) -> bool {
    &&& forall|j: int, k: CurrencyView|
        0 <= j <= a.len() ==> i64::MIN <= total_in(t, k) + #[trigger] sum_for(
            kept(a.take(j), min, max),
            k,
        ) <= i64::MAX
    &&& forall|k: CurrencyView| count_in(c, k) + #[trigger] count_for(kept(a, min, max), k) <= u64::MAX
}

pub proof fn lemma_count_zero_sum_zero(a: Seq<(CurrencyView, int)>, k: CurrencyView)
    ensures
        count_for(a, k) >= 0,
        count_for(a, k) == 0 ==> sum_for(a, k) == 0,
    decreases a.len(),
{
    if a.len() > 0 {
        lemma_count_zero_sum_zero(a.drop_last(), k);
    }
}

/// Counting a longer prefix never gives fewer amounts.
pub proof fn lemma_count_prefix(
    a: Seq<(CurrencyView, int)>,
    j: int,
    min: Option<i64>,
    max: Option<i64>,
    k: CurrencyView,
)
    requires
        0 <= j <= a.len(),
    ensures
        count_for(kept(a.take(j), min, max), k) <= count_for(kept(a, min, max), k),
    decreases a.len() - j,
{
    if j < a.len() {
        lemma_count_prefix(a, j + 1, min, max, k);
        assert(a.take(j + 1).drop_last() =~= a.take(j));
        let x = kept(a.take(j), min, max);
        if within(a[j].1, min, max) {
            assert(x.push(a[j]).drop_last() =~= x);
        }
    } else {
        assert(a.take(j) =~= a);
    }
}

/// One more amount: how the counted amounts of a prefix grow.
pub proof fn lemma_kept_step(
    a: Seq<(CurrencyView, int)>,
    j: int,
    min: Option<i64>,
    max: Option<i64>,
)
    requires
        0 <= j < a.len(),
    ensures
        kept(a.take(j + 1), min, max) == if within(a[j].1, min, max) {
            kept(a.take(j), min, max).push(a[j])
        } else {
            kept(a.take(j), min, max)
        },
        forall|k: CurrencyView|
            #![trigger sum_for(kept(a.take(j + 1), min, max), k)]
            #![trigger count_for(kept(a.take(j + 1), min, max), k)]
            sum_for(kept(a.take(j + 1), min, max), k) == sum_for(kept(a.take(j), min, max), k) + if within(a[j].1, min, max) && a[j].0 == k {
                a[j].1
            } else {
                0
            } && count_for(kept(a.take(j + 1), min, max), k) == count_for(kept(a.take(j), min, max), k) + if within(a[j].1, min, max) && a[j].0 == k {
                1int
            } else {
                0
            },
{
    assert(a.take(j + 1).drop_last() =~= a.take(j));
    assert(a.take(j + 1).last() == a[j]);
    let x = kept(a.take(j), min, max);
    assert(x.push(a[j]).drop_last() =~= x);
}

/// Adds the counted amounts of `amounts` to `totals` and `counts`. Returns
/// `false`, leaving both unchanged, when a sum would leave its integer type.
fn tally_amounts(
    amounts: &Vec<(Currency, i64)>,
    min: Option<i64>,
    max: Option<i64>,
    totals: &mut CurrencyMap<i64>,
    counts: &mut CurrencyMap<u64>,
) -> (ok: bool)
    ensures
        ok == tally_fits(old(totals)@, old(counts)@, amounts_view(amounts@), min, max),
        ok ==> totals_after(old(totals)@, final(totals)@, kept(amounts_view(amounts@), min, max)),
        ok ==> counts_after(old(counts)@, final(counts)@, kept(amounts_view(amounts@), min, max)),
        !ok ==> final(totals)@ == old(totals)@ && final(counts)@ == old(counts)@,
{
    let ghost a = amounts_view(amounts@);
    let ghost t0 = totals@;
    let ghost c0 = counts@;
    let mut t = totals.duplicate();
    let mut c = counts.duplicate();
    assert(a.take(0) =~= Seq::<(CurrencyView, int)>::empty());
    for idx in 0..amounts.len()
        invariant
            a == amounts_view(amounts@),
            t0 == old(totals)@,
            c0 == old(counts)@,
            totals@ == t0,
            counts@ == c0,
            totals_after(t0, t@, kept(a.take(idx as int), min, max)),
            counts_after(c0, c@, kept(a.take(idx as int), min, max)),
            forall|j: int, k: CurrencyView|
                0 <= j <= idx ==> i64::MIN <= total_in(t0, k) + #[trigger] sum_for(
                    kept(a.take(j), min, max),
                    k,
                ) <= i64::MAX,
    {
        let ghost x = kept(a.take(idx as int), min, max);
        proof {
            lemma_kept_step(a, idx as int, min, max);
        }
        let cur = &amounts[idx].0;
        let v = amounts[idx].1;
        assert(a[idx as int] == (cur@, v as int));
        let counted = match min {
            Some(lo) => lo <= v,
            None => true,
        } && match max {
            Some(hi) => v <= hi,
            None => true,
        };
        if counted {
            proof {
                lemma_count_zero_sum_zero(x, cur@);
            }
            let before = t.value_or(cur, 0);
            assert(before == total_in(t0, cur@) + sum_for(x, cur@));
            match before.checked_add(v) {
                None => {
                    assert(!tally_fits(t0, c0, a, min, max)) by {
                        assert(sum_for(kept(a.take(idx + 1), min, max), cur@) == sum_for(x, cur@) + v);
                    }
                    return false;
                },
                Some(sum) => {
                    t.insert(copy_currency(cur), sum);
                },
            }
            let n = c.value_or(cur, 0);
            assert(n == count_in(c0, cur@) + count_for(x, cur@));
            if n == u64::MAX {
                assert(!tally_fits(t0, c0, a, min, max)) by {
                    lemma_count_prefix(a, idx + 1, min, max, cur@);
                    assert(count_for(kept(a.take(idx + 1), min, max), cur@) == count_for(x, cur@) + 1);
                }
                return false;
            }
            c.insert(copy_currency(cur), n + 1);
        }
        proof {
            let y = kept(a.take(idx + 1), min, max);
            assert forall|k: CurrencyView| #[trigger] t@.contains_key(k) <==> (t0.contains_key(k)
                || count_for(y, k) > 0) by {
                lemma_count_zero_sum_zero(x, k);
            }
            assert forall|k: CurrencyView| #[trigger] c@.contains_key(k) <==> (c0.contains_key(k)
                || count_for(y, k) > 0) by {
                lemma_count_zero_sum_zero(x, k);
            }
            assert forall|k: CurrencyView| #[trigger] t@.contains_key(k) implies t@[k] == total_in(
                t0,
                k,
            ) + sum_for(y, k) by {
                lemma_count_zero_sum_zero(x, k);
            }
            assert forall|j: int, k: CurrencyView|
                0 <= j <= idx + 1 implies i64::MIN <= total_in(t0, k) + #[trigger] sum_for(
                kept(a.take(j), min, max),
                k,
            ) <= i64::MAX by {
                if j == idx + 1 {
                    lemma_count_zero_sum_zero(x, k);
                    assert(sum_for(kept(a.take(idx as int), min, max), k) == sum_for(x, k));
                }
            }
        }
    }
    proof {
        assert(a.take(amounts.len() as int) =~= a);
        assert forall|k: CurrencyView| count_in(c0, k) + #[trigger] count_for(kept(a, min, max), k)
            <= u64::MAX by {
            lemma_count_zero_sum_zero(kept(a, min, max), k);
            if c@.contains_key(k) {
                assert(c@[k] <= u64::MAX);
            }
        }
    }
    *totals = t;
    *counts = c;
    true
}

/// Why a line could not be added to the totals. In both cases plain
/// integer arithmetic would have overflowed.
#[derive(Debug)]
pub enum ScanError {
    /// A number in the line does not fit in an `i64` number of cents.
    AmountTooLarge,
    /// A total would leave `i64`, or a count `u64`.
    TotalOutOfRange,
}

/// Adds every amount of one line that lies within `args.min`/`args.max` to
/// the totals and counts of its currency. On an error nothing changes.
pub fn scan(
    line: &str,
    args: &Args,
    totals: &mut CurrencyMap<i64>,
    counts: &mut CurrencyMap<u64>,
) -> (r: Result<(), ScanError>)
    ensures
        ({
            let a = line_amounts(line@, args.map@);
            &&& (r matches Err(ScanError::AmountTooLarge)) <==> !amounts_fit(line@)
            &&& (r matches Err(ScanError::TotalOutOfRange)) <==> amounts_fit(line@) && !tally_fits(
                old(totals)@,
                old(counts)@,
                a,
                args.min,
                args.max,
            )
            &&& r is Ok ==> totals_after(old(totals)@, final(totals)@, kept(a, args.min, args.max))
            &&& r is Ok ==> counts_after(old(counts)@, final(counts)@, kept(a, args.min, args.max))
            &&& r is Err ==> final(totals)@ == old(totals)@ && final(counts)@ == old(counts)@
        }),
{
    let chars = chars_of(line);
    match find_amounts_in(&chars, &args.map) {
        None => Err(ScanError::AmountTooLarge),
        Some(found) => {
            if tally_amounts(&found, args.min, args.max, totals, counts) {
                Ok(())
            } else {
                Err(ScanError::TotalOutOfRange)
            }
        },
    }
}

/// `new` holds, per currency, the total of `old` plus the total of `more`.
pub open spec fn totals_merged(
    old: Map<CurrencyView, i64>,
    new: Map<CurrencyView, i64>,
    more: Map<CurrencyView, i64>,
) -> bool {
    &&& forall|k: CurrencyView|
        #[trigger] new.contains_key(k) <==> (old.contains_key(k) || more.contains_key(k))
    &&& forall|k: CurrencyView|
        #[trigger] new.contains_key(k) ==> new[k] == total_in(old, k) + total_in(more, k)
}

/// `new` holds, per currency, the count of `old` plus the count of `more`.
pub open spec fn counts_merged(
    old: Map<CurrencyView, u64>,
    new: Map<CurrencyView, u64>,
    more: Map<CurrencyView, u64>,
) -> bool {
    &&& forall|k: CurrencyView|
        #[trigger] new.contains_key(k) <==> (old.contains_key(k) || more.contains_key(k))
    &&& forall|k: CurrencyView|
        #[trigger] new.contains_key(k) ==> new[k] == count_in(old, k) + count_in(more, k)
}

/// Every merged total stays in `i64` and every merged count in `u64`.
pub open spec fn merge_fits(
    totals: Map<CurrencyView, i64>,
    counts: Map<CurrencyView, u64>,
    file_totals: Map<CurrencyView, i64>,
    file_counts: Map<CurrencyView, u64>,
) -> bool {
    &&& forall|k: CurrencyView|
        i64::MIN <= #[trigger] total_in(totals, k) + total_in(file_totals, k) <= i64::MAX
    &&& forall|k: CurrencyView| #[trigger] count_in(counts, k) + count_in(file_counts, k) <= u64::MAX
}

/// Whether `merge_into` can fold `file_totals`/`file_counts` into
/// `totals`/`counts` without leaving the integer types.
pub fn can_merge(
    totals: &CurrencyMap<i64>,
    counts: &CurrencyMap<u64>,
    file_totals: &CurrencyMap<i64>,
    file_counts: &CurrencyMap<u64>,
) -> (r: bool)
    ensures
        r == merge_fits(totals@, counts@, file_totals@, file_counts@),
{
    let n = file_totals.len();
    let ghost ft = file_totals.entries_view();
    for i in 0..n
        invariant
            n == ft.len(),
            ft == file_totals.entries_view(),
            keys_distinct(ft),
            forall|j: int|
                0 <= j < i ==> i64::MIN <= #[trigger] total_in(totals@, ft[j].0) + total_in(
                    file_totals@,
                    ft[j].0,
                ) <= i64::MAX,
    {
        let (cur, v) = file_totals.entry_at(i);
        let before = totals.value_or(cur, 0);
        if before.checked_add(v).is_none() {
            assert(!(i64::MIN <= total_in(totals@, cur@) + total_in(file_totals@, cur@)
                <= i64::MAX));
            return false;
        }
    }
    let m = file_counts.len();
    let ghost fc = file_counts.entries_view();
    for i in 0..m
        invariant
            m == fc.len(),
            fc == file_counts.entries_view(),
            keys_distinct(fc),
            forall|j: int|
                0 <= j < i ==> #[trigger] count_in(counts@, fc[j].0) + count_in(
                    file_counts@,
                    fc[j].0,
                ) <= u64::MAX,
    {
        let (cur, v) = file_counts.entry_at(i);
        let before = counts.value_or(cur, 0);
        if before.checked_add(v).is_none() {
            assert(!(count_in(counts@, cur@) + count_in(file_counts@, cur@) <= u64::MAX));
            return false;
        }
    }
    proof {
        assert forall|k: CurrencyView|
            i64::MIN <= #[trigger] total_in(totals@, k) + total_in(file_totals@, k) <= i64::MAX by {
            if file_totals@.contains_key(k) {
                let j = choose|j: int| 0 <= j < ft.len() && #[trigger] ft[j].0 == k;
                assert(total_in(totals@, ft[j].0) + total_in(file_totals@, ft[j].0) <= i64::MAX);
            }
        }
        assert forall|k: CurrencyView| #[trigger] count_in(counts@, k) + count_in(file_counts@, k)
            <= u64::MAX by {
            if file_counts@.contains_key(k) {
                let j = choose|j: int| 0 <= j < fc.len() && #[trigger] fc[j].0 == k;
                assert(count_in(counts@, fc[j].0) + count_in(file_counts@, fc[j].0) <= u64::MAX);
            }
        }
    }
    true
}

/// Folds one file's totals/counts into the running combined totals, used to
/// build the "overall" summary after a --per-file breakdown without
/// re-reading every file a second time.
pub fn merge_into(
    totals: &mut CurrencyMap<i64>,
    counts: &mut CurrencyMap<u64>,
    file_totals: &CurrencyMap<i64>,
    file_counts: &CurrencyMap<u64>,
)
    requires
        merge_fits(old(totals)@, old(counts)@, file_totals@, file_counts@),
    ensures
        totals_merged(old(totals)@, final(totals)@, file_totals@),
        counts_merged(old(counts)@, final(counts)@, file_counts@),
{
    let ghost t0 = totals@;
    let ghost c0 = counts@;
    let n = file_totals.len();
    let ghost ft = file_totals.entries_view();
    for i in 0..n
        invariant
            n == ft.len(),
            ft == file_totals.entries_view(),
            keys_distinct(ft),
            merge_fits(t0, c0, file_totals@, file_counts@),
            forall|k: CurrencyView|
                #[trigger] totals@.contains_key(k) <==> (t0.contains_key(k) || has_key(
                    ft.take(i as int),
                    k,
                )),
            forall|k: CurrencyView|
                #[trigger] totals@.contains_key(k) ==> totals@[k] == total_in(t0, k) + if has_key(
                    ft.take(i as int),
                    k,
                ) {
                    file_totals@[k] as int
                } else {
                    0
                },
    {
        let (cur, v) = file_totals.entry_at(i);
        let ghost k = cur@;
        assert(ft[i as int].0 == k);
        assert(!has_key(ft.take(i as int), k)) by {
            if has_key(ft.take(i as int), k) {
                let j = choose|j: int| 0 <= j < i && #[trigger] ft.take(i as int)[j].0 == k;
                assert(ft[j].0 == ft[i as int].0);
            }
        }
        let before = totals.value_or(cur, 0);
        assert(before == total_in(t0, k));
        assert(i64::MIN <= total_in(t0, k) + total_in(file_totals@, k) <= i64::MAX);
        totals.insert(copy_currency(cur), before + v);
        proof {
            let p = ft.take(i as int);
            let q = ft.take(i + 1);
            assert(q =~= p.push(ft[i as int]));
            assert forall|x: CurrencyView| has_key(q, x) <==> (has_key(p, x) || x == k) by {
                if has_key(q, x) {
                    let j = choose|j: int| 0 <= j < q.len() && #[trigger] q[j].0 == x;
                    if j < i {
                        assert(p[j].0 == x);
                    }
                }
                if has_key(p, x) {
                    let j = choose|j: int| 0 <= j < p.len() && #[trigger] p[j].0 == x;
                    assert(q[j].0 == x);
                }
                if x == k {
                    assert(q[i as int].0 == x);
                }
            }
        }
    }
    let m = file_counts.len();
    let ghost fc = file_counts.entries_view();
    for i in 0..m
        invariant
            m == fc.len(),
            fc == file_counts.entries_view(),
            keys_distinct(fc),
            merge_fits(t0, c0, file_totals@, file_counts@),
            forall|k: CurrencyView|
                #[trigger] counts@.contains_key(k) <==> (c0.contains_key(k) || has_key(
                    fc.take(i as int),
                    k,
                )),
            forall|k: CurrencyView|
                #[trigger] counts@.contains_key(k) ==> counts@[k] == count_in(c0, k) + if has_key(
                    fc.take(i as int),
                    k,
                ) {
                    file_counts@[k] as int
                } else {
                    0
                },
    {
        let (cur, v) = file_counts.entry_at(i);
        let ghost k = cur@;
        assert(fc[i as int].0 == k);
        assert(!has_key(fc.take(i as int), k)) by {
            if has_key(fc.take(i as int), k) {
                let j = choose|j: int| 0 <= j < i && #[trigger] fc.take(i as int)[j].0 == k;
                assert(fc[j].0 == fc[i as int].0);
            }
        }
        let before = counts.value_or(cur, 0);
        assert(before == count_in(c0, k));
        assert(count_in(c0, k) + count_in(file_counts@, k) <= u64::MAX);
        counts.insert(copy_currency(cur), before + v);
        proof {
            let p = fc.take(i as int);
            let q = fc.take(i + 1);
            assert(q =~= p.push(fc[i as int]));
            assert forall|x: CurrencyView| has_key(q, x) <==> (has_key(p, x) || x == k) by {
                if has_key(q, x) {
                    let j = choose|j: int| 0 <= j < q.len() && #[trigger] q[j].0 == x;
                    if j < i {
                        assert(p[j].0 == x);
                    }
                }
                if has_key(p, x) {
                    let j = choose|j: int| 0 <= j < p.len() && #[trigger] p[j].0 == x;
                    assert(q[j].0 == x);
                }
                if x == k {
                    assert(q[i as int].0 == x);
                }
            }
        }
    }
    assert(ft.take(n as int) =~= ft);
    assert(fc.take(m as int) =~= fc);
}

} // verus!
