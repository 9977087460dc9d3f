//! Strict-recency (LRU) cache: a bounded store of key-value entries kept in
//! recency order, most recently used first; when a new key arrives at
//! capacity, the least recently used entry is evicted.

use vstd::prelude::*;
use crate::list::List;
use crate::list::moved_before;
use crate::Cache;

verus! {

/// Whether some entry of `s` carries key `k`.
pub open spec fn has_key<V>(s: Seq<(u64, V)>, k: u64) -> bool {
    exists|i: int| 0 <= i < s.len() && s[i].0 == k
}

/// The position of the entry carrying key `k`; unique when keys are distinct.
pub open spec fn key_pos<V>(s: Seq<(u64, V)>, k: u64) -> int {
    choose|i: int| 0 <= i < s.len() && s[i].0 == k
}

/// Every key occurs in at most one entry of `s`.
pub open spec fn distinct_keys<V>(s: Seq<(u64, V)>) -> bool {
    forall|i: int, j: int| 0 <= i < j < s.len() ==> s[i].0 != s[j].0
}

/// The recency sequence after a hit on `k`: the entry moves to the front,
/// everything else keeps its order. A miss changes nothing.
pub open spec fn lru_get_model<V>(s: Seq<(u64, V)>, k: u64) -> Seq<(u64, V)> {
    if has_key(s, k) {
        seq![s[key_pos(s, k)]] + s.remove(key_pos(s, k))
    } else {
        s
    }
}

/// The recency sequence after inserting `(k, v)`: an existing entry for `k`
/// takes the new value and moves to the front; a new key enters at the
/// front, evicting the last entry when the cache is full.
pub open spec fn lru_insert_model<V>(s: Seq<(u64, V)>, cap: int, k: u64, v: V) -> Seq<(u64, V)> {
    if has_key(s, k) {
        seq![(k, v)] + s.remove(key_pos(s, k))
    } else if s.len() < cap {
        seq![(k, v)] + s
    } else {
        seq![(k, v)] + s.drop_last()
    }
}

/// The recency sequence after removing `k`: its entry disappears, everything
/// else keeps its order.
pub open spec fn lru_remove_model<V>(s: Seq<(u64, V)>, k: u64) -> Seq<(u64, V)> {
    if has_key(s, k) {
        s.remove(key_pos(s, k))
    } else {
        s
    }
}

/// An entry of `s` at position `i` carries key `k` exactly when `k`'s unique
/// position is `i`.
pub proof fn lemma_key_pos_unique<V>(s: Seq<(u64, V)>, k: u64, i: int)
    requires
        distinct_keys(s),
        0 <= i < s.len(),
        s[i].0 == k,
    ensures
        has_key(s, k),
        key_pos(s, k) == i,
{
    assert(has_key(s, k));
    let p = key_pos(s, k);
    assert(0 <= p < s.len() && s[p].0 == k);
    if p < i {
        assert(s[p].0 != s[i].0);
    } else if i < p {
        assert(s[i].0 != s[p].0);
    }
}

/// Removing an entry keeps the remaining keys distinct and cannot introduce
/// a key that was not there.
pub proof fn lemma_distinct_remove<V>(s: Seq<(u64, V)>, i: int)
    requires
        distinct_keys(s),
        0 <= i < s.len(),
    ensures
        distinct_keys(s.remove(i)),
        forall|k: u64| has_key(s.remove(i), k) ==> has_key(s, k),
{
    let t = s.remove(i);
    assert forall|a: int, b: int| 0 <= a < b < t.len() implies t[a].0 != t[b].0 by {
        assert(t[a] == (if a < i { s[a] } else { s[a + 1] }));
        assert(t[b] == (if b < i { s[b] } else { s[b + 1] }));
    }
    assert forall|k: u64| has_key(t, k) implies has_key(s, k) by {
        let j = choose|j: int| 0 <= j < t.len() && t[j].0 == k;
        assert(t[j] == (if j < i { s[j] } else { s[j + 1] }));
    }
}

/// Prepending an entry with a key not yet present keeps keys distinct.
pub proof fn lemma_distinct_cons<V>(s: Seq<(u64, V)>, k: u64, v: V)
    requires
        distinct_keys(s),
        !has_key(s, k),
    ensures
        distinct_keys(seq![(k, v)] + s),
{
    let t = seq![(k, v)] + s;
    assert forall|a: int, b: int| 0 <= a < b < t.len() implies t[a].0 != t[b].0 by {
        if a == 0 {
            assert(t[b] == s[b - 1]);
            assert(s[b - 1].0 != k);
        } else {
            assert(t[a] == s[a - 1]);
            assert(t[b] == s[b - 1]);
        }
    }
}

/// Dropping the last entry keeps keys distinct and cannot introduce a key.
pub proof fn lemma_distinct_drop_last<V>(s: Seq<(u64, V)>)
    requires
        distinct_keys(s),
        s.len() > 0,
    ensures
        distinct_keys(s.drop_last()),
        forall|k: u64| has_key(s.drop_last(), k) ==> has_key(s, k),
{
    let t = s.drop_last();
    assert forall|a: int, b: int| 0 <= a < b < t.len() implies t[a].0 != t[b].0 by {
        assert(t[a] == s[a]);
        assert(t[b] == s[b]);
    }
    assert forall|k: u64| has_key(t, k) implies has_key(s, k) by {
        let j = choose|j: int| 0 <= j < t.len() && t[j].0 == k;
        assert(t[j] == s[j]);
    }
}

/// The value stored for `k` in `s`; meaningful when `has_key(s, k)`.
pub open spec fn value_of<V>(s: Seq<(u64, V)>, k: u64) -> V {
    s[key_pos(s, k)].1
}

/// Moving the entry at position `i` to the front, with `e` carrying the
/// same key, changes no other association: the same keys answer
/// afterwards, the moved key with `e`'s value and every other key with its
/// old value.
pub proof fn lemma_assoc_move_front<V>(s: Seq<(u64, V)>, i: int, e: (u64, V))
    requires
        distinct_keys(s),
        0 <= i < s.len(),
        e.0 == s[i].0,
    ensures
        forall|q: u64| has_key(seq![e] + s.remove(i), q) == has_key(s, q),
        forall|q: u64|
            q != e.0 && has_key(s, q) ==> value_of(seq![e] + s.remove(i), q) == value_of(s, q),
        value_of(seq![e] + s.remove(i), e.0) == e.1,
{
    let t = seq![e] + s.remove(i);
    lemma_distinct_remove(s, i);
    assert(!has_key(s.remove(i), e.0)) by {
        if has_key(s.remove(i), e.0) {
            let j = choose|j: int| 0 <= j < s.remove(i).len() && s.remove(i)[j].0 == e.0;
            assert(s.remove(i)[j] == (if j < i {
                s[j]
            } else {
                s[j + 1]
            }));
        }
    }
    lemma_distinct_cons(s.remove(i), e.0, e.1);
    assert(seq![(e.0, e.1)] + s.remove(i) =~= t);
    assert forall|q: u64| has_key(t, q) == has_key(s, q) by {
        if has_key(t, q) {
            let j = choose|j: int| 0 <= j < t.len() && t[j].0 == q;
            if j > 0 {
                assert(t[j] == s.remove(i)[j - 1]);
                assert(s.remove(i)[j - 1] == (if j - 1 < i {
                    s[j - 1]
                } else {
                    s[j]
                }));
            }
            assert(has_key(s, q));
        }
        if has_key(s, q) {
            let j = choose|j: int| 0 <= j < s.len() && s[j].0 == q;
            if j == i {
                assert(t[0].0 == q);
            } else if j < i {
                assert(t[j + 1] == s.remove(i)[j]);
                assert(s.remove(i)[j] == s[j]);
                assert(t[j + 1].0 == q);
            } else {
                assert(t[j] == s.remove(i)[j - 1]);
                assert(s.remove(i)[j - 1] == s[j]);
                assert(t[j].0 == q);
            }
            assert(has_key(t, q));
        }
    }
    assert forall|q: u64| q != e.0 && has_key(s, q) implies value_of(t, q) == value_of(s, q) by {
        let j = key_pos(s, q);
        assert(0 <= j < s.len() && s[j].0 == q);
        assert(j != i);
        if j < i {
            assert(t[j + 1] == s.remove(i)[j]);
            assert(s.remove(i)[j] == s[j]);
            lemma_key_pos_unique(t, q, j + 1);
        } else {
            assert(t[j] == s.remove(i)[j - 1]);
            assert(s.remove(i)[j - 1] == s[j]);
            lemma_key_pos_unique(t, q, j);
        }
    }
    assert(t[0] == e);
    lemma_key_pos_unique(t, e.0, 0);
}

/// Prepending an entry with a fresh key adds exactly that association and
/// changes no other.
pub proof fn lemma_assoc_cons<V>(s: Seq<(u64, V)>, k: u64, v: V)
    requires
        distinct_keys(s),
        !has_key(s, k),
    ensures
        forall|q: u64| has_key(seq![(k, v)] + s, q) == (q == k || has_key(s, q)),
        forall|q: u64|
            q != k && has_key(s, q) ==> value_of(seq![(k, v)] + s, q) == value_of(s, q),
        value_of(seq![(k, v)] + s, k) == v,
{
    let t = seq![(k, v)] + s;
    lemma_distinct_cons(s, k, v);
    assert forall|q: u64| has_key(t, q) == (q == k || has_key(s, q)) by {
        if has_key(t, q) {
            let j = choose|j: int| 0 <= j < t.len() && t[j].0 == q;
            if j > 0 {
                assert(t[j] == s[j - 1]);
                assert(has_key(s, q));
            }
        }
        if q == k {
            assert(t[0].0 == q);
            assert(has_key(t, q));
        }
        if has_key(s, q) {
            let j = choose|j: int| 0 <= j < s.len() && s[j].0 == q;
            assert(t[j + 1].0 == q);
            assert(has_key(t, q));
        }
    }
    assert forall|q: u64| q != k && has_key(s, q) implies value_of(t, q) == value_of(s, q) by {
        let j = key_pos(s, q);
        assert(0 <= j < s.len() && s[j].0 == q);
        assert(t[j + 1] == s[j]);
        lemma_key_pos_unique(t, q, j + 1);
    }
    assert(t[0] == (k, v));
    lemma_key_pos_unique(t, k, 0);
}

/// Dropping the last entry removes exactly that association and changes no
/// other.
pub proof fn lemma_assoc_drop_last<V>(s: Seq<(u64, V)>)
    requires
        distinct_keys(s),
        s.len() > 0,
    ensures
        forall|q: u64| q != s.last().0 ==> has_key(s.drop_last(), q) == has_key(s, q),
        forall|q: u64|
            q != s.last().0 && has_key(s, q) ==> value_of(s.drop_last(), q) == value_of(s, q),
        !has_key(s.drop_last(), s.last().0),
{
    let t = s.drop_last();
    lemma_distinct_drop_last(s);
    assert forall|q: u64| q != s.last().0 implies has_key(t, q) == has_key(s, q) by {
        if has_key(t, q) {
            let j = choose|j: int| 0 <= j < t.len() && t[j].0 == q;
            assert(t[j] == s[j]);
            assert(has_key(s, q));
        }
        if has_key(s, q) {
            let j = choose|j: int| 0 <= j < s.len() && s[j].0 == q;
            assert(j != s.len() - 1);
            assert(t[j].0 == q);
            assert(has_key(t, q));
        }
    }
    assert forall|q: u64| q != s.last().0 && has_key(s, q) implies value_of(t, q) == value_of(
        s,
        q,
    ) by {
        let j = key_pos(s, q);
        assert(0 <= j < s.len() && s[j].0 == q);
        assert(j != s.len() - 1);
        assert(t[j] == s[j]);
        lemma_key_pos_unique(t, q, j);
    }
    if has_key(t, s.last().0) {
        let j = choose|j: int| 0 <= j < t.len() && t[j].0 == s.last().0;
        assert(t[j] == s[j]);
        assert(s[j].0 != s[s.len() - 1].0);
    }
}

/// Removing the entry at position `i` changes no other association: every
/// other key still answers, with the same value.
pub proof fn lemma_assoc_remove<V>(s: Seq<(u64, V)>, i: int)
    requires
        distinct_keys(s),
        0 <= i < s.len(),
    ensures
        forall|q: u64| q != s[i].0 ==> has_key(s.remove(i), q) == has_key(s, q),
        forall|q: u64|
            q != s[i].0 && has_key(s, q) ==> value_of(s.remove(i), q) == value_of(s, q),
{
    let t = s.remove(i);
    lemma_distinct_remove(s, i);
    assert forall|q: u64| q != s[i].0 implies has_key(t, q) == has_key(s, q) by {
        if has_key(t, q) {
            let j = choose|j: int| 0 <= j < t.len() && t[j].0 == q;
            assert(t[j] == (if j < i {
                s[j]
            } else {
                s[j + 1]
            }));
            assert(has_key(s, q));
        }
        if has_key(s, q) {
            let j = choose|j: int| 0 <= j < s.len() && s[j].0 == q;
            assert(j != i);
            if j < i {
                assert(t[j] == s[j]);
            } else {
                assert(t[j - 1] == s[j]);
            }
            assert(has_key(t, q));
        }
    }
    assert forall|q: u64| q != s[i].0 && has_key(s, q) implies value_of(t, q) == value_of(
        s,
        q,
    ) by {
        let j = key_pos(s, q);
        assert(0 <= j < s.len() && s[j].0 == q);
        assert(j != i);
        if j < i {
            assert(t[j] == s[j]);
            lemma_key_pos_unique(t, q, j);
        } else {
            assert(t[j - 1] == s[j]);
            lemma_key_pos_unique(t, q, j - 1);
        }
    }
}

/// A key that no entry of `s` carries is not found.
pub proof fn lemma_no_key<V>(s: Seq<(u64, V)>, k: u64)
    requires
        forall|i: int| 0 <= i < s.len() ==> s[i].0 != k,
    ensures
        !has_key(s, k),
{
    if has_key(s, k) {
        let j = choose|j: int| 0 <= j < s.len() && s[j].0 == k;
        assert(s[j].0 != k);
    }
}

/// The keys of `ks` never repeat.
pub open spec fn distinct_u64(ks: Seq<u64>) -> bool {
    forall|i: int, j: int| 0 <= i < j < ks.len() ==> ks[i] != ks[j]
}

/// No key of `ks` is already present in `s`.
pub open spec fn fresh_keys<V>(s: Seq<(u64, V)>, ks: Seq<u64>) -> bool {
    forall|i: int| 0 <= i < ks.len() ==> !has_key(s, ks[i])
}

/// The cache contents after inserting each key of `ks` with the matching
/// value of `vs`, in order, with no intervening lookup.
pub open spec fn lru_insert_all_model<V>(
    s: Seq<(u64, V)>,
    cap: int,
    ks: Seq<u64>,
    vs: Seq<V>,
) -> Seq<(u64, V)>
    decreases ks.len(),
{
    if ks.len() == 0 {
        s
    } else {
        lru_insert_all_model(
            lru_insert_model(s, cap, ks[0], vs[0]),
            cap,
            ks.drop_first(),
            vs.drop_first(),
        )
    }
}

/// Law (recency): a run of fresh distinct keys that overfills the cache by
/// exactly one evicts the least recently used entry — the last entry of the
/// starting state, or the first key of the run when the cache started
/// empty — and no later lookup of that key can succeed.
pub proof fn lemma_lru_fill_evicts<V>(s: Seq<(u64, V)>, cap: int, ks: Seq<u64>, vs: Seq<V>)
    requires
        distinct_keys(s),
        distinct_u64(ks),
        fresh_keys(s, ks),
        ks.len() >= 1,
        vs.len() == ks.len(),
        s.len() + ks.len() == cap + 1,
        cap >= 1,
    ensures
        !has_key(
            lru_insert_all_model(s, cap, ks, vs),
            if s.len() > 0 {
                s.last().0
            } else {
                ks[0]
            },
        ),
    decreases ks.len(),
{
    let k0 = ks[0];
    let v0 = vs[0];
    assert(!has_key(s, k0));
    let s1 = lru_insert_model(s, cap, k0, v0);
    let r = lru_insert_all_model(s, cap, ks, vs);
    assert(r == lru_insert_all_model(s1, cap, ks.drop_first(), vs.drop_first()));
    if ks.len() == 1 {
        assert(s.len() == cap);
        assert(s1 == seq![(k0, v0)] + s.drop_last());
        assert(r == s1);
        let victim = s.last().0;
        assert(s[s.len() - 1].0 == victim);
        assert(has_key(s, victim));
        assert(k0 != victim);
        assert(!has_key(s1, victim)) by {
            if has_key(s1, victim) {
                let j = choose|j: int| 0 <= j < s1.len() && s1[j].0 == victim;
                if j > 0 {
                    assert(s1[j] == s.drop_last()[j - 1]);
                    assert(s.drop_last()[j - 1] == s[j - 1]);
                    assert(s[j - 1].0 != s[s.len() - 1].0);
                }
            }
        }
    } else {
        assert(s.len() < cap);
        assert(s1 == seq![(k0, v0)] + s);
        lemma_distinct_cons(s, k0, v0);
        let ks1 = ks.drop_first();
        let vs1 = vs.drop_first();
        assert(forall|x: int| 0 <= x < ks1.len() ==> ks1[x] == ks[x + 1]);
        assert(distinct_u64(ks1));
        assert forall|x: int| 0 <= x < ks1.len() implies !has_key(s1, ks1[x]) by {
            assert(ks1[x] == ks[x + 1]);
            assert(!has_key(s, ks[x + 1]));
            assert(ks[x + 1] != k0);
            if has_key(s1, ks1[x]) {
                let j = choose|j: int| 0 <= j < s1.len() && s1[j].0 == ks1[x];
                if j > 0 {
                    assert(s1[j] == s[j - 1]);
                    assert(has_key(s, ks1[x]));
                }
            }
        }
        lemma_lru_fill_evicts(s1, cap, ks1, vs1);
        assert(s1.len() > 0);
        assert(s1.last() == (if s.len() > 0 {
            s.last()
        } else {
            (k0, v0)
        }));
    }
}

/// Law (recency): inserting capacity + 1 distinct keys into an empty cache
/// with no intervening lookup evicts the first key, which no later lookup
/// finds.
pub proof fn lemma_lru_recency<V>(cap: int, ks: Seq<u64>, vs: Seq<V>)
    requires
        cap >= 1,
        distinct_u64(ks),
        ks.len() == cap + 1,
        vs.len() == ks.len(),
    ensures
        !has_key(lru_insert_all_model(Seq::<(u64, V)>::empty(), cap, ks, vs), ks[0]),
{
    lemma_lru_fill_evicts(Seq::<(u64, V)>::empty(), cap, ks, vs);
}

/// Law (access refresh): with capacity two, after inserting two keys and
/// then looking up the first, inserting a third distinct key evicts the
/// second key, not the first.
pub proof fn lemma_lru_access_refresh<V>(k1: u64, k2: u64, k3: u64, v1: V, v2: V, v3: V)
    requires
        k1 != k2,
        k1 != k3,
        k2 != k3,
    ensures
        ({
            let s1 = lru_insert_model(Seq::<(u64, V)>::empty(), 2, k1, v1);
            let s2 = lru_insert_model(s1, 2, k2, v2);
            let s3 = lru_get_model(s2, k1);
            let s4 = lru_insert_model(s3, 2, k3, v3);
            !has_key(s4, k2) && has_key(s4, k1) && has_key(s4, k3)
        }),
{
    let s0 = Seq::<(u64, V)>::empty();
    lemma_no_key(s0, k1);
    let s1 = lru_insert_model(s0, 2, k1, v1);
    assert(s1 =~= seq![(k1, v1)]);
    lemma_no_key(s1, k2);
    let s2 = lru_insert_model(s1, 2, k2, v2);
    assert(s2 =~= seq![(k2, v2), (k1, v1)]);
    assert(distinct_keys(s2));
    lemma_key_pos_unique(s2, k1, 1);
    let s3 = lru_get_model(s2, k1);
    assert(s3 =~= seq![(k1, v1), (k2, v2)]);
    lemma_no_key(s3, k3);
    let s4 = lru_insert_model(s3, 2, k3, v3);
    assert(s4 =~= seq![(k3, v3), (k1, v1)]);
    lemma_no_key(s4, k2);
    assert(s4[1].0 == k1);
    assert(s4[0].0 == k3);
}

/// Law (update returns old value): the insert itself hands back the old
/// value (stated by `insert`'s contract); this law adds that a lookup after
/// re-inserting a present key finds the new value.
pub proof fn lemma_lru_update_then_get<V>(s: Seq<(u64, V)>, cap: int, k: u64, v2: V)
    requires
        distinct_keys(s),
        has_key(s, k),
    ensures
        ({
            let s2 = lru_insert_model(s, cap, k, v2);
            has_key(s2, k) && s2[key_pos(s2, k)].1 == v2
        }),
{
    let i = key_pos(s, k);
    let s2 = lru_insert_model(s, cap, k, v2);
    assert(s2 == seq![(k, v2)] + s.remove(i));
    lemma_distinct_remove(s, i);
    assert(!has_key(s.remove(i), k)) by {
        if has_key(s.remove(i), k) {
            let j = choose|j: int| 0 <= j < s.remove(i).len() && s.remove(i)[j].0 == k;
            assert(s.remove(i)[j] == (if j < i {
                s[j]
            } else {
                s[j + 1]
            }));
        }
    }
    lemma_distinct_cons(s.remove(i), k, v2);
    assert(s2[0].0 == k);
    lemma_key_pos_unique(s2, k, 0);
}

/// Law (removal idempotence): removing an absent key changes nothing, and
/// after removing a present key a second removal finds nothing and changes
/// nothing.
pub proof fn lemma_lru_remove_idempotent<V>(s: Seq<(u64, V)>, k: u64)
    requires
        distinct_keys(s),
    ensures
        !has_key(s, k) ==> lru_remove_model(s, k) == s,
        !has_key(lru_remove_model(s, k), k),
        lru_remove_model(lru_remove_model(s, k), k) == lru_remove_model(s, k),
{
    if has_key(s, k) {
        let i = key_pos(s, k);
        lemma_distinct_remove(s, i);
        assert(!has_key(s.remove(i), k)) by {
            if has_key(s.remove(i), k) {
                let j = choose|j: int| 0 <= j < s.remove(i).len() && s.remove(i)[j].0 == k;
                assert(s.remove(i)[j] == (if j < i {
                    s[j]
                } else {
                    s[j + 1]
                }));
            }
        }
    }
}

/// Law (emptiness agreement): an empty cache answers no lookup, and a
/// lookup of an absent key changes nothing.
pub proof fn lemma_lru_empty_no_hit<V>(s: Seq<(u64, V)>, k: u64)
    requires
        s.len() == 0,
    ensures
        !has_key(s, k),
        lru_get_model(s, k) == s,
{
    lemma_no_key(s, k);
}

struct Item<V> {
    key: u64,
    value: V,
}

impl<V> Item<V> {
    fn new(key: u64, value: V) -> (r: Item<V>)
        ensures
            r.key == key,
            r.value == value,
    {
        Item { key, value }
    }
}

/// The LRU cache: one list of entries in recency order plus a fixed
/// positive capacity.
pub struct LRUCache<V> {
    list: List<Item<V>>,
    cap: usize,
}

impl<V> LRUCache<V> {
    /// The entries of the cache, most recently used first.
    pub closed spec fn entries(&self) -> Seq<(u64, V)> {
        self.list@.map_values(|it: Item<V>| (it.key, it.value))
    }

    /// The fixed capacity chosen at construction.
    pub closed spec fn capacity(&self) -> int {
        self.cap as int
    }

    /// Keys are distinct, the entry count never exceeds the capacity, and
    /// the capacity is positive.
    pub open spec fn wf(&self) -> bool {
        &&& distinct_keys(self.entries())
        &&& self.entries().len() <= self.capacity()
        &&& self.capacity() >= 1
    }

    /// A zero capacity is a usage error and is rejected; any other capacity
    /// yields an empty cache.
    pub fn with_capacity(cap: usize) -> (r: Option<LRUCache<V>>)
        ensures
            cap == 0 ==> r is None,
            cap > 0 ==> (r matches Some(c) && c.wf() && c.entries() == Seq::<(u64, V)>::empty()
                && c.capacity() == cap),
    {
        if cap == 0 {
            None
        } else {
            let c = LRUCache { list: List::new(), cap };
            proof {
                assert(c.entries() =~= Seq::<(u64, V)>::empty());
            }
            Some(c)
        }
    }

    /// Position of the entry carrying `k`, if any.
    fn find(&self, k: u64) -> (r: Option<usize>)
        requires
            distinct_keys(self.entries()),
        ensures
            match r {
                Some(i) => has_key(self.entries(), k) && key_pos(self.entries(), k) == i as int
                    && i < self.entries().len(),
                None => !has_key(self.entries(), k),
            },
    {
        let n: usize = self.list.len();
        let mut i: usize = 0;
        while i < n
            invariant
                n == self.entries().len(),
                i <= n,
                distinct_keys(self.entries()),
                forall|j: int| 0 <= j < i ==> self.entries()[j].0 != k,
            decreases n - i,
        {
            if self.list.get(i).key == k {
                proof {
                    assert(self.entries()[i as int].0 == k);
                    lemma_key_pos_unique(self.entries(), k, i as int);
                }
                return Some(i);
            }
            proof {
                assert(self.entries()[i as int].0 != k);
            }
            i = i + 1;
        }
        None
    }

    /// Marks the node at `node` as most recently used by moving it to the
    /// front of the recency list.
    fn update(&mut self, node: usize)
        requires
            node < old(self).entries().len(),
        ensures
            final(self).capacity() == old(self).capacity(),
            final(self).entries() == seq![old(self).entries()[node as int]] + old(
                self,
            ).entries().remove(node as int),
    {
        if self.list.is_empty() {
            return ;
        }
        let b = self.list.begin_node();
        self.list.splice_self_front(b, node);
        proof {
            let ol = old(self).list@;
            assert(self.list@ == moved_before(ol, 0, node as int));
            if node == 0 {
                assert(self.list@ =~= seq![ol[0]] + ol.remove(0));
            }
            assert(self.entries() =~= seq![old(self).entries()[node as int]] + old(
                self,
            ).entries().remove(node as int));
        }
    }

    /// On a hit, returns the stored value and marks the entry as most
    /// recently used; a miss changes nothing.
    pub fn get(&mut self, k: &u64) -> (r: Option<V>) where V: Copy
        requires
            old(self).wf(),
        ensures
            final(self).wf(),
            final(self).capacity() == old(self).capacity(),
            final(self).entries() == lru_get_model(old(self).entries(), *k),
            has_key(old(self).entries(), *k) ==> r == Some(
                old(self).entries()[key_pos(old(self).entries(), *k)].1,
            ),
            !has_key(old(self).entries(), *k) ==> r is None,
    {
        match self.find(*k) {
            None => None,
            Some(i) => {
                let v: V = self.list.get(i).value;
                self.update(i);
                proof {
                    let s = old(self).entries();
                    lemma_distinct_remove(s, key_pos(s, *k));
                    lemma_distinct_cons(s.remove(key_pos(s, *k)), *k, s[key_pos(s, *k)].1);
                    assert(seq![s[key_pos(s, *k)]] + s.remove(key_pos(s, *k)) =~= seq![
                        (*k, s[key_pos(s, *k)].1),
                    ] + s.remove(key_pos(s, *k)));
                }
                Some(v)
            },
        }
    }

    /// Stores `v` under `k`. An existing entry takes the new value, moves to
    /// the front, and yields its previous value; a new key enters at the
    /// front, evicting the least recently used entry when the cache is full.
    pub fn insert(&mut self, k: u64, v: V) -> (r: Option<V>)
        requires
            old(self).wf(),
        ensures
            final(self).wf(),
            final(self).capacity() == old(self).capacity(),
            final(self).entries() == lru_insert_model(
                old(self).entries(),
                old(self).capacity(),
                k,
                v,
            ),
            has_key(old(self).entries(), k) ==> r == Some(
                old(self).entries()[key_pos(old(self).entries(), k)].1,
            ),
            !has_key(old(self).entries(), k) ==> r is None,
    {
        match self.find(k) {
            Some(i) => {
                self.update(i);
                proof {
                    assert(self.list@.len() == self.entries().len());
                    assert(self.entries()[0] == old(self).entries()[i as int]);
                    assert(self.entries()[0] == (self.list@[0].key, self.list@[0].value));
                }
                let ghost mid = self.list@;
                let old_item = self.list.replace_at(0, Item::new(k, v));
                proof {
                    let s = old(self).entries();
                    let i0 = key_pos(s, k);
                    let target = seq![(k, v)] + s.remove(i0);
                    assert(old_item == mid[0]);
                    assert(old_item.value == s[i as int].1);
                    assert forall|j: int| 0 <= j < target.len() implies self.entries()[j]
                        == target[j] by {
                        assert(self.entries()[j] == (self.list@[j].key, self.list@[j].value));
                        if j > 0 {
                            assert(self.list@[j] == mid[j]);
                            assert((mid[j].key, mid[j].value) == (seq![s[i0]] + s.remove(i0))[j]);
                        }
                    }
                    assert(self.entries() =~= target);
                    lemma_distinct_remove(s, i0);
                    lemma_distinct_cons(s.remove(i0), k, v);
                }
                Some(old_item.value)
            },
            None => {
                proof {
                    let s = old(self).entries();
                    if s.len() >= self.capacity() {
                        lemma_distinct_drop_last(s);
                    }
                }
                if self.list.len() == self.cap {
                    let _ = self.list.pop_back();
                }
                self.list.push_front(Item::new(k, v));
                proof {
                    let s = old(self).entries();
                    if s.len() < old(self).capacity() {
                        assert(self.entries() =~= seq![(k, v)] + s);
                        lemma_distinct_cons(s, k, v);
                    } else {
                        assert(self.entries() =~= seq![(k, v)] + s.drop_last());
                        lemma_distinct_cons(s.drop_last(), k, v);
                    }
                }
                None
            },
        }
    }

    /// Removes the entry for `k`, yielding its value; removing an absent key
    /// changes nothing.
    pub fn remove(&mut self, k: &u64) -> (r: Option<V>)
        requires
            old(self).wf(),
        ensures
            final(self).wf(),
            final(self).capacity() == old(self).capacity(),
            final(self).entries() == lru_remove_model(old(self).entries(), *k),
            has_key(old(self).entries(), *k) ==> r == Some(
                old(self).entries()[key_pos(old(self).entries(), *k)].1,
            ),
            !has_key(old(self).entries(), *k) ==> r is None,
    {
        match self.find(*k) {
            Some(i) => {
                let it = self.list.remove_node(i);
                proof {
                    let s = old(self).entries();
                    assert(self.entries() =~= s.remove(key_pos(s, *k)));
                    lemma_distinct_remove(s, key_pos(s, *k));
                }
                Some(it.value)
            },
            None => None,
        }
    }

    /// True exactly when the cache holds no entry.
    pub fn is_emtpy(&self) -> (r: bool)
        ensures
            r == (self.entries().len() == 0),
    {
        self.list.is_empty()
    }
}

impl<V: Copy> Cache<V> for LRUCache<V> {
    open spec fn cache_has(&self, k: u64) -> bool {
        has_key(self.entries(), k)
    }

    open spec fn cache_value(&self, k: u64) -> V {
        self.entries()[key_pos(self.entries(), k)].1
    }

    open spec fn cache_len(&self) -> int {
        self.entries().len() as int
    }

    open spec fn cache_capacity(&self) -> int {
        self.capacity()
    }

    open spec fn cache_wf(&self) -> bool {
        self.wf()
    }

    fn get(&mut self, k: &u64) -> (r: Option<V>) {
        let r = self.get(k);
        proof {
            let s = old(self).entries();
            if has_key(s, *k) {
                let i = key_pos(s, *k);
                lemma_assoc_move_front(s, i, s[i]);
            }
        }
        r
    }

    fn insert(&mut self, k: u64, v: V) -> (r: Option<V>) {
        let r = self.insert(k, v);
        proof {
            let s = old(self).entries();
            assert(self.entries()[0] == (k, v));
            lemma_key_pos_unique(self.entries(), k, 0);
            if has_key(s, k) {
                lemma_assoc_move_front(s, key_pos(s, k), (k, v));
            } else if s.len() < old(self).capacity() {
                lemma_assoc_cons(s, k, v);
            } else {
                lemma_assoc_drop_last(s);
                lemma_distinct_drop_last(s);
                assert(!has_key(s.drop_last(), k)) by {
                    if has_key(s.drop_last(), k) {
                        let j = choose|j: int|
                            0 <= j < s.drop_last().len() && s.drop_last()[j].0 == k;
                        assert(s.drop_last()[j] == s[j]);
                    }
                }
                lemma_assoc_cons(s.drop_last(), k, v);
            }
        }
        r
    }

    fn remove(&mut self, k: &u64) -> (r: Option<V>) {
        let r = self.remove(k);
        proof {
            let s = old(self).entries();
            lemma_lru_remove_idempotent(s, *k);
            if has_key(s, *k) {
                lemma_assoc_remove(s, key_pos(s, *k));
            }
        }
        r
    }

    fn is_emtpy(&self) -> (r: bool) {
        self.is_emtpy()
    }
}

} // verus!
