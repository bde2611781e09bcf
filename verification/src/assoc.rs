//! Association lists: sequences of key/value pairs in insertion order, the
//! model of the tables that the report formats keep.
use vstd::prelude::*;

verus! {

/// Entry `i` of `s` has key `k`.
pub open spec fn key_at<K, V>(s: Seq<(K, V)>, k: K, i: int) -> bool {
    0 <= i < s.len() && s[i].0 == k
}

/// Some entry of `s` has key `k`.
pub open spec fn has_key<K, V>(s: Seq<(K, V)>, k: K) -> bool {
    exists|i: int| key_at(s, k, i)
}

/// No key occurs twice in `s`.
pub open spec fn keys_unique<K, V>(s: Seq<(K, V)>) -> bool {
    forall|i: int, j: int| 0 <= i < s.len() && 0 <= j < s.len() && s[i].0 == s[j].0 ==> i == j
}

/// The position of key `k` in `s`.
pub open spec fn index_of<K, V>(s: Seq<(K, V)>, k: K) -> int {
    choose|i: int| key_at(s, k, i)
}

/// The value stored under `k`.
pub open spec fn value_of<K, V>(s: Seq<(K, V)>, k: K) -> V {
    s[index_of(s, k)].1
}

/// `s` with an entry `(k, d)` appended when `k` is not present yet.
pub open spec fn touch<K, V>(s: Seq<(K, V)>, k: K, d: V) -> Seq<(K, V)> {
    if has_key(s, k) {
        s
    } else {
        s.push((k, d))
    }
}

/// `s` with the value under `k` (which must be present) replaced by `v`.
pub open spec fn set_value<K, V>(s: Seq<(K, V)>, k: K, v: V) -> Seq<(K, V)> {
    s.update(index_of(s, k), (k, v))
}

/// The keys of `s`, in order.
pub open spec fn keys_of<K, V>(s: Seq<(K, V)>) -> Seq<K> {
    s.map_values(|p: (K, V)| p.0)
}

/// With unique keys, the entry that holds `k` is the one `index_of` names.
pub proof fn lemma_index_of<K, V>(s: Seq<(K, V)>, k: K, i: int)
    requires
        keys_unique(s),
        key_at(s, k, i),
    ensures
        index_of(s, k) == i,
        has_key(s, k),
        value_of(s, k) == s[i].1,
{
    let j = index_of(s, k);
    assert(key_at(s, k, j));
}

/// `touch` keeps keys unique, and afterwards the key is present.
pub proof fn lemma_touch<K, V>(s: Seq<(K, V)>, k: K, d: V)
    requires
        keys_unique(s),
    ensures
        keys_unique(touch(s, k, d)),
        has_key(touch(s, k, d), k),
        forall|x: K| has_key(s, x) ==> has_key(touch(s, k, d), x),
        forall|x: K| has_key(touch(s, k, d), x) ==> has_key(s, x) || x == k,
        !has_key(s, k) ==> value_of(touch(s, k, d), k) == d,
        has_key(s, k) ==> touch(s, k, d) == s,
        touch(s, k, d).len() == s.len() + (if has_key(s, k) {
            0int
        } else {
            1int
        }),
{
    let t = touch(s, k, d);
    if !has_key(s, k) {
        assert(key_at(t, k, s.len() as int));
        assert forall|x: K| has_key(s, x) implies has_key(t, x) by {
            let i = choose|i: int| key_at(s, x, i);
            assert(key_at(t, x, i));
        }
        assert forall|x: K| has_key(t, x) implies has_key(s, x) || x == k by {
            let i = choose|i: int| key_at(t, x, i);
            if i < s.len() {
                assert(key_at(s, x, i));
            }
        }
        assert forall|i: int, j: int|
            0 <= i < t.len() && 0 <= j < t.len() && t[i].0 == t[j].0 implies i == j by {
            if i < s.len() && j == s.len() {
                assert(key_at(s, k, i));
            }
            if j < s.len() && i == s.len() {
                assert(key_at(s, k, j));
            }
        }
        lemma_index_of(t, k, s.len() as int);
    } else {
        let i = choose|i: int| key_at(s, k, i);
        assert(key_at(t, k, i));
    }
}

/// `set_value` keeps the keys (and so their uniqueness) and stores the value.
pub proof fn lemma_set_value<K, V>(s: Seq<(K, V)>, k: K, v: V)
    requires
        keys_unique(s),
        has_key(s, k),
    ensures
        keys_unique(set_value(s, k, v)),
        set_value(s, k, v).len() == s.len(),
        forall|i: int| 0 <= i < s.len() ==> (#[trigger] set_value(s, k, v)[i]).0 == s[i].0,
        index_of(set_value(s, k, v), k) == index_of(s, k),
        value_of(set_value(s, k, v), k) == v,
        keys_of(set_value(s, k, v)) == keys_of(s),
        forall|x: K| #[trigger] has_key(set_value(s, k, v), x) == has_key(s, x),
{
    let i = index_of(s, k);
    assert(key_at(s, k, i));
    let t = set_value(s, k, v);
    assert(key_at(t, k, i));
    assert forall|a: int, b: int|
        0 <= a < t.len() && 0 <= b < t.len() && t[a].0 == t[b].0 implies a == b by {
        assert(s[a].0 == t[a].0);
        assert(s[b].0 == t[b].0);
    }
    lemma_index_of(t, k, i);
    assert(keys_of(t) =~= keys_of(s));
    assert forall|x: K| #[trigger] has_key(t, x) == has_key(s, x) by {
        if has_key(t, x) {
            let j = choose|j: int| key_at(t, x, j);
            assert(key_at(s, x, j));
        }
        if has_key(s, x) {
            let j = choose|j: int| key_at(s, x, j);
            assert(key_at(t, x, j));
        }
    }
}

/// The sum of `f` over the values of `s`.
pub open spec fn sum_by<K, V>(s: Seq<(K, V)>, f: spec_fn(V) -> int) -> int
    decreases s.len(),
{
    if s.len() == 0 {
        0
    } else {
        sum_by(s.drop_last(), f) + f(s.last().1)
    }
}

/// Replacing one entry changes the sum by the difference of the two values.
pub proof fn lemma_sum_by_update<K, V>(s: Seq<(K, V)>, f: spec_fn(V) -> int, i: int, e: (K, V))
    requires
        0 <= i < s.len(),
    ensures
        sum_by(s.update(i, e), f) == sum_by(s, f) - f(s[i].1) + f(e.1),
    decreases s.len(),
{
    let t = s.update(i, e);
    if i == s.len() - 1 {
        assert(t.drop_last() =~= s.drop_last());
    } else {
        assert(t.drop_last() =~= s.drop_last().update(i, e));
        lemma_sum_by_update(s.drop_last(), f, i, e);
    }
}

/// `touch` adds the default value to the sum when it adds an entry.
pub proof fn lemma_sum_by_touch<K, V>(s: Seq<(K, V)>, f: spec_fn(V) -> int, k: K, d: V)
    ensures
        sum_by(touch(s, k, d), f) == sum_by(s, f) + (if has_key(s, k) {
            0
        } else {
            f(d)
        }),
{
    if !has_key(s, k) {
        assert(s.push((k, d)).drop_last() =~= s);
    }
}

/// `set_value` changes the sum by the difference between the new value and the old.
pub proof fn lemma_sum_by_set_value<K, V>(s: Seq<(K, V)>, f: spec_fn(V) -> int, k: K, v: V)
    requires
        has_key(s, k),
    ensures
        sum_by(set_value(s, k, v), f) == sum_by(s, f) - f(value_of(s, k)) + f(v),
{
    let i = index_of(s, k);
    assert(key_at(s, k, i));
    lemma_sum_by_update(s, f, i, (k, v));
}

/// With values that count nothing negative, the sum is at least each of them, and at
/// least zero.
pub proof fn lemma_sum_by_bounds<K, V>(s: Seq<(K, V)>, f: spec_fn(V) -> int)
    requires
        forall|j: int| 0 <= j < s.len() ==> f(#[trigger] s[j].1) >= 0,
    ensures
        sum_by(s, f) >= 0,
        forall|j: int| 0 <= j < s.len() ==> f(#[trigger] s[j].1) <= sum_by(s, f),
    decreases s.len(),
{
    if s.len() > 0 {
        let t = s.drop_last();
        assert forall|j: int| 0 <= j < t.len() implies f(#[trigger] t[j].1) >= 0 by {
            assert(t[j] == s[j]);
        }
        lemma_sum_by_bounds(t, f);
        assert(f(s[s.len() - 1].1) >= 0);
        assert forall|j: int| 0 <= j < s.len() implies f(#[trigger] s[j].1) <= sum_by(s, f) by {
            if j < t.len() {
                assert(t[j] == s[j]);
                assert(f(t[j].1) <= sum_by(t, f));
            }
        }
    }
}

/// The value under a key after `touch` with a default that counts nothing is at most
/// the sum of the values.
pub proof fn lemma_touched_value_le_sum<K, V>(s: Seq<(K, V)>, f: spec_fn(V) -> int, k: K, d: V)
    requires
        forall|j: int| 0 <= j < s.len() ==> f(#[trigger] s[j].1) >= 0,
        f(d) == 0,
    ensures
        0 <= f(value_of(touch(s, k, d), k)) <= sum_by(s, f),
{
    lemma_sum_by_bounds(s, f);
    if has_key(s, k) {
        let i = index_of(s, k);
        assert(key_at(s, k, i));
    } else {
        let t = s.push((k, d));
        assert(key_at(t, k, s.len() as int));
        let i = index_of(t, k);
        assert(key_at(t, k, i));
        if i < s.len() {
            assert(t[i] == s[i]);
            assert(key_at(s, k, i));
        }
    }
}

} // verus!
