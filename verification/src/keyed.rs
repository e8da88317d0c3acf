//! Finite maps held as sequences of key/value pairs with distinct keys.

use vstd::prelude::*;

verus! {

/// `k` is the key of some pair of `s`.
pub open spec fn has_key<K, V>(s: Seq<(K, V)>, k: K) -> bool {
    exists|i: int| 0 <= i < s.len() && #[trigger] s[i].0 == k
}

/// No key occurs twice in `s`.
pub open spec fn keys_distinct<K, V>(s: Seq<(K, V)>) -> bool {
    forall|i: int, j: int|
        #![trigger s[i], s[j]]
        0 <= i < s.len() && 0 <= j < s.len() && s[i].0 == s[j].0 ==> i == j
}

/// The map that sends each key of `s` to the value paired with it.
pub open spec fn seq_to_map<K, V>(s: Seq<(K, V)>) -> Map<K, V> {
    Map::new(
        |k: K| has_key(s, k),
        |k: K| s[choose|i: int| 0 <= i < s.len() && #[trigger] s[i].0 == k].1,
    )
}

/// In a sequence with distinct keys, the pair at `i` is what the map holds
/// for its key.
pub proof fn lemma_seq_to_map_index<K, V>(s: Seq<(K, V)>, i: int)
    requires
        keys_distinct(s),
        0 <= i < s.len(),
    ensures
        seq_to_map(s).contains_key(s[i].0),
        seq_to_map(s)[s[i].0] == s[i].1,
{
    let k = s[i].0;
    assert(has_key(s, k));
    let j = choose|j: int| 0 <= j < s.len() && #[trigger] s[j].0 == k;
    assert(s[j].0 == s[i].0);
    assert(j == i);
}

/// Replacing the value of an existing key.
pub proof fn lemma_seq_to_map_update<K, V>(s: Seq<(K, V)>, i: int, v: V)
    requires
        keys_distinct(s),
        0 <= i < s.len(),
    ensures
        keys_distinct(s.update(i, (s[i].0, v))),
        seq_to_map(s.update(i, (s[i].0, v))) == seq_to_map(s).insert(s[i].0, v),
{
    let k = s[i].0;
    let t = s.update(i, (k, v));
    assert(forall|j: int| 0 <= j < s.len() ==> #[trigger] t[j].0 == s[j].0);
    assert(keys_distinct(t));
    let m = seq_to_map(s).insert(k, v);
    assert forall|x: K| seq_to_map(t).contains_key(x) <==> m.contains_key(x) by {
        if has_key(t, x) {
            let j = choose|j: int| 0 <= j < t.len() && #[trigger] t[j].0 == x;
            assert(s[j].0 == x);
        }
        if has_key(s, x) {
            let j = choose|j: int| 0 <= j < s.len() && #[trigger] s[j].0 == x;
            assert(t[j].0 == x);
        }
        if x == k {
            assert(t[i].0 == x);
        }
    }
    assert forall|x: K| #[trigger] seq_to_map(t).contains_key(x) implies seq_to_map(t)[x] == m[x] by {
        let j = choose|j: int| 0 <= j < t.len() && #[trigger] t[j].0 == x;
        lemma_seq_to_map_index(t, j);
        if j != i {
            lemma_seq_to_map_index(s, j);
        }
    }
    assert(seq_to_map(t) =~= m);
}

/// Inserting a pair with a new key at any position.
pub proof fn lemma_seq_to_map_insert<K, V>(s: Seq<(K, V)>, p: int, k: K, v: V)
    requires
        keys_distinct(s),
        0 <= p <= s.len(),
        !has_key(s, k),
    ensures
        keys_distinct(s.insert(p, (k, v))),
        seq_to_map(s.insert(p, (k, v))) == seq_to_map(s).insert(k, v),
{
    let t = s.insert(p, (k, v));
    assert(forall|j: int| 0 <= j < p ==> #[trigger] t[j] == s[j]);
    assert(forall|j: int| p < j < t.len() ==> #[trigger] t[j] == s[j - 1]);
    assert forall|a: int, b: int|
        #![trigger t[a], t[b]]
        0 <= a < t.len() && 0 <= b < t.len() && t[a].0 == t[b].0 implies a == b by {
        if a == p && b != p {
            let bb = if b < p { b } else { b - 1 };
            assert(s[bb].0 == k);
        } else if b == p && a != p {
            let aa = if a < p { a } else { a - 1 };
            assert(s[aa].0 == k);
        } else if a != p && b != p {
            let aa = if a < p { a } else { a - 1 };
            let bb = if b < p { b } else { b - 1 };
            assert(s[aa] == t[a]);
            assert(s[bb] == t[b]);
        }
    }
    let m = seq_to_map(s).insert(k, v);
    assert forall|x: K| seq_to_map(t).contains_key(x) <==> m.contains_key(x) by {
        if has_key(t, x) {
            let j = choose|j: int| 0 <= j < t.len() && #[trigger] t[j].0 == x;
            if j < p {
                assert(s[j].0 == x);
            } else if j > p {
                assert(s[j - 1].0 == x);
            }
        }
        if has_key(s, x) {
            let j = choose|j: int| 0 <= j < s.len() && #[trigger] s[j].0 == x;
            if j < p {
                assert(t[j].0 == x);
            } else {
                assert(t[j + 1].0 == x);
            }
        }
        if x == k {
            assert(t[p].0 == x);
        }
    }
    assert forall|x: K| #[trigger] seq_to_map(t).contains_key(x) implies seq_to_map(t)[x] == m[x] by {
        let j = choose|j: int| 0 <= j < t.len() && #[trigger] t[j].0 == x;
        lemma_seq_to_map_index(t, j);
        if j < p {
            lemma_seq_to_map_index(s, j);
        } else if j > p {
            lemma_seq_to_map_index(s, j - 1);
        }
    }
    assert(seq_to_map(t) =~= m);
}

} // verus!
