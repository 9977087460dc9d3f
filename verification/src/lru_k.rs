//! Frequency-gated recency (LRU-K) cache: entries start in a probationary
//! queue held in first-seen order; once an entry has been accessed often
//! enough to reach the threshold it is promoted to a recency-ordered queue.
//! Eviction drains the probationary queue first, oldest first, and falls
//! back to the least recently used promoted entry only when no probationary
//! entry is left.

use vstd::prelude::*;
use crate::list::List;
use crate::list::moved_before;
use crate::lru::distinct_keys;
use crate::lru::has_key;
use crate::lru::key_pos;
use crate::lru::lemma_assoc_drop_last;
use crate::lru::lemma_distinct_cons;
use crate::lru::lemma_distinct_drop_last;
use crate::lru::lemma_distinct_remove;
use crate::lru::lemma_key_pos_unique;
use crate::Cache;

verus! {

/// Whether some probationary entry of `p` carries key `k`.
pub open spec fn prob_has_key<V>(p: Seq<(u64, u32, V)>, k: u64) -> bool {
    exists|i: int| 0 <= i < p.len() && p[i].0 == k
}

/// The position of the probationary entry carrying key `k`; unique when
/// keys are distinct.
pub open spec fn prob_key_pos<V>(p: Seq<(u64, u32, V)>, k: u64) -> int {
    choose|i: int| 0 <= i < p.len() && p[i].0 == k
}

/// Every key occurs in at most one probationary entry of `p`.
pub open spec fn prob_distinct_keys<V>(p: Seq<(u64, u32, V)>) -> bool {
    forall|i: int, j: int| 0 <= i < j < p.len() ==> p[i].0 != p[j].0
}

/// No key is both probationary and promoted.
pub open spec fn disjoint_keys<V>(p: Seq<(u64, u32, V)>, m: Seq<(u64, V)>) -> bool {
    forall|i: int, j: int| 0 <= i < p.len() && 0 <= j < m.len() ==> p[i].0 != m[j].0
}

/// A probationary access counter is zero or still below the threshold: the
/// access that reaches the threshold promotes the entry at once.
pub open spec fn prob_freqs_ok<V>(p: Seq<(u64, u32, V)>, kk: int) -> bool {
    forall|i: int| 0 <= i < p.len() ==> (p[i].1 < kk || p[i].1 == 0)
}

/// The two queues after eviction: the front (oldest) probationary entry
/// leaves; only when no probationary entry is left does the last (least
/// recently used) promoted entry leave.
pub open spec fn lruk_disuse_model<V>(p: Seq<(u64, u32, V)>, m: Seq<(u64, V)>) -> (Seq<
    (u64, u32, V),
>, Seq<(u64, V)>) {
    if p.len() > 0 {
        (p.drop_first(), m)
    } else if m.len() > 0 {
        (p, m.drop_last())
    } else {
        (p, m)
    }
}

/// The two queues after an access to `k` with threshold `kk`: a promoted
/// entry moves to the front of the promoted queue; a probationary entry
/// gains one access and is promoted when the count reaches the threshold,
/// keeping its probationary position otherwise; a miss changes nothing.
pub open spec fn lruk_access_model<V>(
    p: Seq<(u64, u32, V)>,
    m: Seq<(u64, V)>,
    kk: int,
    k: u64,
    v: V,
) -> (Seq<(u64, u32, V)>, Seq<(u64, V)>) {
    if has_key(m, k) {
        (p, seq![(k, v)] + m.remove(key_pos(m, k)))
    } else if prob_has_key(p, k) {
        let i = prob_key_pos(p, k);
        if p[i].1 + 1 >= kk {
            (p.remove(i), seq![(k, v)] + m)
        } else {
            (p.update(i, (k, (p[i].1 + 1) as u32, v)), m)
        }
    } else {
        (p, m)
    }
}

/// The two queues after a lookup of `k`: an access that keeps the stored
/// value.
pub open spec fn lruk_get_model<V>(p: Seq<(u64, u32, V)>, m: Seq<(u64, V)>, kk: int, k: u64) -> (
    Seq<(u64, u32, V)>,
    Seq<(u64, V)>,
) {
    lruk_access_model(p, m, kk, k, lruk_stored_value(p, m, k))
}

/// The value stored for `k`, wherever its entry lives.
pub open spec fn lruk_stored_value<V>(p: Seq<(u64, u32, V)>, m: Seq<(u64, V)>, k: u64) -> V {
    if has_key(m, k) {
        m[key_pos(m, k)].1
    } else {
        p[prob_key_pos(p, k)].2
    }
}

/// The two queues after inserting `(k, v)` with threshold `kk` and capacity
/// `cap`: an existing entry takes the new value and runs the access rule; a
/// new key enters at the back of the probationary queue with a zero access
/// count, after an eviction when the cache is full.
pub open spec fn lruk_insert_model<V>(
    p: Seq<(u64, u32, V)>,
    m: Seq<(u64, V)>,
    kk: int,
    cap: int,
    k: u64,
    v: V,
) -> (Seq<(u64, u32, V)>, Seq<(u64, V)>) {
    if has_key(m, k) || prob_has_key(p, k) {
        lruk_access_model(p, m, kk, k, v)
    } else {
        let pm = if p.len() + m.len() >= cap {
            lruk_disuse_model(p, m)
        } else {
            (p, m)
        };
        (pm.0.push((k, 0u32, v)), pm.1)
    }
}

/// The two queues after removing `k`: its entry leaves whichever queue
/// holds it; removing an absent key changes nothing.
pub open spec fn lruk_remove_model<V>(p: Seq<(u64, u32, V)>, m: Seq<(u64, V)>, k: u64) -> (Seq<
    (u64, u32, V),
>, Seq<(u64, V)>) {
    if has_key(m, k) {
        (p, m.remove(key_pos(m, k)))
    } else if prob_has_key(p, k) {
        (p.remove(prob_key_pos(p, k)), m)
    } else {
        (p, m)
    }
}

/// A probationary entry at position `i` carries key `k` exactly when `k`'s
/// unique probationary position is `i`.
pub proof fn lemma_prob_key_pos_unique<V>(p: Seq<(u64, u32, V)>, k: u64, i: int)
    requires
        prob_distinct_keys(p),
        0 <= i < p.len(),
        p[i].0 == k,
    ensures
        prob_has_key(p, k),
        prob_key_pos(p, k) == i,
{
    assert(prob_has_key(p, k));
    let q = prob_key_pos(p, k);
    assert(0 <= q < p.len() && p[q].0 == k);
    if q < i {
        assert(p[q].0 != p[i].0);
    } else if i < q {
        assert(p[i].0 != p[q].0);
    }
}

/// Removing a probationary entry preserves every part of the queues'
/// well-formedness and cannot introduce a key.
pub proof fn lemma_prob_remove<V>(p: Seq<(u64, u32, V)>, m: Seq<(u64, V)>, kk: int, i: int)
    requires
        prob_distinct_keys(p),
        disjoint_keys(p, m),
        prob_freqs_ok(p, kk),
        0 <= i < p.len(),
    ensures
        prob_distinct_keys(p.remove(i)),
        disjoint_keys(p.remove(i), m),
        prob_freqs_ok(p.remove(i), kk),
        forall|k: u64| prob_has_key(p.remove(i), k) ==> prob_has_key(p, k),
        !prob_has_key(p.remove(i), p[i].0),
{
    let t = p.remove(i);
    assert(forall|j: int| 0 <= j < t.len() ==> t[j] == (if j < i {
        p[j]
    } else {
        p[j + 1]
    }));
    assert forall|k: u64| prob_has_key(t, k) implies prob_has_key(p, k) by {
        let j = choose|j: int| 0 <= j < t.len() && t[j].0 == k;
        assert(t[j] == (if j < i { p[j] } else { p[j + 1] }));
    }
    if prob_has_key(t, p[i].0) {
        let j = choose|j: int| 0 <= j < t.len() && t[j].0 == p[i].0;
        assert(t[j] == (if j < i { p[j] } else { p[j + 1] }));
    }
}

/// Replacing a probationary entry in place, key unchanged and counter still
/// lawful, preserves every part of the queues' well-formedness.
pub proof fn lemma_prob_update<V>(
    p: Seq<(u64, u32, V)>,
    m: Seq<(u64, V)>,
    kk: int,
    i: int,
    e: (u64, u32, V),
)
    requires
        prob_distinct_keys(p),
        disjoint_keys(p, m),
        prob_freqs_ok(p, kk),
        0 <= i < p.len(),
        e.0 == p[i].0,
        e.1 < kk || e.1 == 0,
    ensures
        prob_distinct_keys(p.update(i, e)),
        disjoint_keys(p.update(i, e), m),
        prob_freqs_ok(p.update(i, e), kk),
{
}

/// A fresh key may join the back of the probationary queue with a zero
/// counter: every part of the queues' well-formedness is preserved.
pub proof fn lemma_prob_push<V>(p: Seq<(u64, u32, V)>, m: Seq<(u64, V)>, kk: int, k: u64, v: V)
    requires
        prob_distinct_keys(p),
        disjoint_keys(p, m),
        prob_freqs_ok(p, kk),
        !prob_has_key(p, k),
        !has_key(m, k),
    ensures
        prob_distinct_keys(p.push((k, 0u32, v))),
        disjoint_keys(p.push((k, 0u32, v)), m),
        prob_freqs_ok(p.push((k, 0u32, v)), kk),
{
    let t = p.push((k, 0u32, v));
    assert forall|a: int, b: int| 0 <= a < b < t.len() implies t[a].0 != t[b].0 by {
        if b == t.len() - 1 {
            assert(t[a] == p[a]);
        } else {
            assert(t[a] == p[a]);
            assert(t[b] == p[b]);
        }
    }
}

/// Moving the promoted entry at position `i` to the front of the promoted
/// queue, with `e` carrying the same key, preserves distinctness and the
/// disjointness of the two queues.
pub proof fn lemma_prom_move_front<V>(
    p: Seq<(u64, u32, V)>,
    m: Seq<(u64, V)>,
    i: int,
    e: (u64, V),
)
    requires
        distinct_keys(m),
        disjoint_keys(p, m),
        0 <= i < m.len(),
        e.0 == m[i].0,
    ensures
        distinct_keys(seq![e] + m.remove(i)),
        disjoint_keys(p, seq![e] + m.remove(i)),
{
    lemma_distinct_remove(m, i);
    lemma_distinct_cons(m.remove(i), e.0, e.1);
    assert(seq![(e.0, e.1)] + m.remove(i) =~= seq![e] + m.remove(i));
    let t = seq![e] + m.remove(i);
    assert forall|a: int, b: int|
        0 <= a < p.len() && 0 <= b < t.len() implies p[a].0 != t[b].0 by {
        if b > 0 {
            assert(t[b] == m.remove(i)[b - 1]);
            assert(m.remove(i)[b - 1] == (if b - 1 < i {
                m[b - 1]
            } else {
                m[b]
            }));
        }
    }
}

/// Promoting the probationary entry at position `i`, with `e` carrying its
/// key to the front of the promoted queue, preserves every part of the
/// queues' well-formedness.
pub proof fn lemma_promote<V>(p: Seq<(u64, u32, V)>, m: Seq<(u64, V)>, kk: int, i: int, e: (
    u64,
    V,
))
    requires
        prob_distinct_keys(p),
        distinct_keys(m),
        disjoint_keys(p, m),
        prob_freqs_ok(p, kk),
        0 <= i < p.len(),
        e.0 == p[i].0,
    ensures
        prob_distinct_keys(p.remove(i)),
        distinct_keys(seq![e] + m),
        disjoint_keys(p.remove(i), seq![e] + m),
        prob_freqs_ok(p.remove(i), kk),
{
    lemma_prob_remove(p, m, kk, i);
    assert(!has_key(m, e.0));
    lemma_distinct_cons(m, e.0, e.1);
    assert(seq![(e.0, e.1)] + m =~= seq![e] + m);
    let t = seq![e] + m;
    let q = p.remove(i);
    assert forall|a: int, b: int|
        0 <= a < q.len() && 0 <= b < t.len() implies q[a].0 != t[b].0 by {
        assert(q[a] == (if a < i { p[a] } else { p[a + 1] }));
        if b > 0 {
            assert(t[b] == m[b - 1]);
        }
    }
}

/// A key that no probationary entry of `p` carries is not found.
pub proof fn lemma_prob_no_key<V>(p: Seq<(u64, u32, V)>, k: u64)
    requires
        forall|i: int| 0 <= i < p.len() ==> p[i].0 != k,
    ensures
        !prob_has_key(p, k),
{
    if prob_has_key(p, k) {
        let j = choose|j: int| 0 <= j < p.len() && p[j].0 == k;
        assert(p[j].0 != k);
    }
}

/// Law (promotion gate): an access that still leaves the counter below the
/// threshold keeps the entry probationary, at its first-seen position, and
/// leaves the promoted queue untouched.
pub proof fn lemma_lruk_promotion_gate<V>(
    p: Seq<(u64, u32, V)>,
    m: Seq<(u64, V)>,
    kk: int,
    k: u64,
    v: V,
)
    requires
        prob_distinct_keys(p),
        distinct_keys(m),
        disjoint_keys(p, m),
        prob_freqs_ok(p, kk),
        prob_has_key(p, k),
        p[prob_key_pos(p, k)].1 + 1 < kk,
    ensures
        ({
            let pm = lruk_access_model(p, m, kk, k, v);
            prob_has_key(pm.0, k) && prob_key_pos(pm.0, k) == prob_key_pos(p, k) && pm.1 == m
        }),
{
    let i = prob_key_pos(p, k);
    assert(0 <= i < p.len() && p[i].0 == k);
    assert(!has_key(m, k)) by {
        if has_key(m, k) {
            let j = choose|j: int| 0 <= j < m.len() && m[j].0 == k;
            assert(p[i].0 != m[j].0);
        }
    }
    let e = (k, (p[i].1 + 1) as u32, v);
    let p2 = p.update(i, e);
    lemma_prob_update(p, m, kk, i, e);
    lemma_prob_key_pos_unique(p2, k, i);
}

/// Law (probationary evicted first): while the probationary queue is
/// non-empty, eviction removes its oldest entry and leaves every promoted
/// entry untouched, whatever the entries' access histories or values.
pub proof fn lemma_lruk_prob_evicted_first<V>(p: Seq<(u64, u32, V)>, m: Seq<(u64, V)>)
    requires
        p.len() > 0,
    ensures
        lruk_disuse_model(p, m).0 == p.drop_first(),
        lruk_disuse_model(p, m).1 == m,
{
}

/// Law (probationary FIFO): two fresh keys inserted in order into a cache
/// whose probationary queue is empty and which has room for both, neither
/// accessed since, sit in insertion order, and the next eviction removes
/// the earlier one and keeps the later one, regardless of their values.
pub proof fn lemma_lruk_prob_fifo<V>(
    m: Seq<(u64, V)>,
    kk: int,
    cap: int,
    a: u64,
    b: u64,
    va: V,
    vb: V,
)
    requires
        distinct_keys(m),
        a != b,
        !has_key(m, a),
        !has_key(m, b),
        m.len() + 2 <= cap,
    ensures
        ({
            let p0 = Seq::<(u64, u32, V)>::empty();
            let pm1 = lruk_insert_model(p0, m, kk, cap, a, va);
            let pm2 = lruk_insert_model(pm1.0, pm1.1, kk, cap, b, vb);
            let pm3 = lruk_disuse_model(pm2.0, pm2.1);
            pm2.0 == seq![(a, 0u32, va), (b, 0u32, vb)] && pm3.0 == seq![(b, 0u32, vb)] && pm3.1
                == m
        }),
{
    let p0 = Seq::<(u64, u32, V)>::empty();
    lemma_prob_no_key(p0, a);
    let pm1 = lruk_insert_model(p0, m, kk, cap, a, va);
    assert(pm1.0 == p0.push((a, 0u32, va)));
    assert(pm1.1 == m);
    lemma_prob_no_key(pm1.0, b);
    let pm2 = lruk_insert_model(pm1.0, pm1.1, kk, cap, b, vb);
    assert(pm2.0 == pm1.0.push((b, 0u32, vb)));
    assert(pm2.0 =~= seq![(a, 0u32, va), (b, 0u32, vb)]);
    assert(pm2.1 == m);
    let pm3 = lruk_disuse_model(pm2.0, pm2.1);
    assert(pm3.0 =~= seq![(b, 0u32, vb)]);
}

/// Law (update returns old value): the insert itself hands back the old
/// value (stated by `insert`'s contract); this law adds that after
/// re-inserting a present key, the stored value for that key is the new
/// one.
pub proof fn lemma_lruk_update_then_get<V>(
    p: Seq<(u64, u32, V)>,
    m: Seq<(u64, V)>,
    kk: int,
    cap: int,
    k: u64,
    v2: V,
)
    requires
        prob_distinct_keys(p),
        distinct_keys(m),
        disjoint_keys(p, m),
        prob_freqs_ok(p, kk),
        has_key(m, k) || prob_has_key(p, k),
    ensures
        ({
            let pm = lruk_insert_model(p, m, kk, cap, k, v2);
            (has_key(pm.1, k) || prob_has_key(pm.0, k)) && lruk_stored_value(pm.0, pm.1, k) == v2
        }),
{
    let pm = lruk_insert_model(p, m, kk, cap, k, v2);
    if has_key(m, k) {
        let i = key_pos(m, k);
        assert(pm.1 == seq![(k, v2)] + m.remove(i));
        lemma_prom_move_front(p, m, i, (k, v2));
        assert(pm.1[0].0 == k);
        lemma_key_pos_unique(pm.1, k, 0);
    } else {
        let i = prob_key_pos(p, k);
        assert(0 <= i < p.len() && p[i].0 == k);
        if p[i].1 + 1 >= kk {
            assert(pm.1 == seq![(k, v2)] + m);
            assert(pm.1[0].0 == k);
            lemma_promote(p, m, kk, i, (k, v2));
            lemma_key_pos_unique(pm.1, k, 0);
        } else {
            let e = (k, (p[i].1 + 1) as u32, v2);
            assert(pm.0 == p.update(i, e));
            assert(pm.1 == m);
            lemma_prob_update(p, m, kk, i, e);
            lemma_prob_key_pos_unique(pm.0, k, i);
        }
    }
}

/// Law (removal idempotence): removing an absent key changes nothing, and
/// after removing a present key a second removal finds nothing and changes
/// nothing.
pub proof fn lemma_lruk_remove_idempotent<V>(p: Seq<(u64, u32, V)>, m: Seq<(u64, V)>, k: u64)
    requires
        prob_distinct_keys(p),
        distinct_keys(m),
        disjoint_keys(p, m),
    ensures
        (!prob_has_key(p, k) && !has_key(m, k)) ==> lruk_remove_model(p, m, k) == (p, m),
        ({
            let pm = lruk_remove_model(p, m, k);
            !prob_has_key(pm.0, k) && !has_key(pm.1, k) && lruk_remove_model(pm.0, pm.1, k) == pm
        }),
{
    let pm = lruk_remove_model(p, m, k);
    if has_key(m, k) {
        let i = key_pos(m, k);
        assert(0 <= i < m.len() && m[i].0 == k);
        assert(pm.1 == m.remove(i));
        assert(!has_key(pm.1, k)) by {
            if has_key(pm.1, k) {
                let j = choose|j: int| 0 <= j < pm.1.len() && pm.1[j].0 == k;
                assert(pm.1[j] == (if j < i {
                    m[j]
                } else {
                    m[j + 1]
                }));
            }
        }
        assert(!prob_has_key(pm.0, k)) by {
            if prob_has_key(p, k) {
                let j = prob_key_pos(p, k);
                assert(p[j].0 != m[i].0);
            }
        }
    } else if prob_has_key(p, k) {
        let i = prob_key_pos(p, k);
        assert(0 <= i < p.len() && p[i].0 == k);
        assert(pm.0 == p.remove(i));
        assert(!prob_has_key(pm.0, k)) by {
            if prob_has_key(pm.0, k) {
                let j = choose|j: int| 0 <= j < pm.0.len() && pm.0[j].0 == k;
                assert(pm.0[j] == (if j < i {
                    p[j]
                } else {
                    p[j + 1]
                }));
            }
        }
    }
}

/// Removing the probationary entry at position `i` changes no other
/// association: every other key still answers, with the same value.
pub proof fn lemma_prob_assoc_remove<V>(p: Seq<(u64, u32, V)>, m: Seq<(u64, V)>, i: int)
    requires
        prob_distinct_keys(p),
        distinct_keys(m),
        disjoint_keys(p, m),
        0 <= i < p.len(),
    ensures
        forall|q: u64| q != p[i].0 ==> prob_has_key(p.remove(i), q) == prob_has_key(p, q),
        forall|q: u64|
            q != p[i].0 && (has_key(m, q) || prob_has_key(p, q)) ==> lruk_stored_value(
                p.remove(i),
                m,
                q,
            ) == lruk_stored_value(p, m, q),
{
    let t = p.remove(i);
    assert forall|a: int, b: int| 0 <= a < b < t.len() implies t[a].0 != t[b].0 by {
        assert(t[a] == (if a < i {
            p[a]
        } else {
            p[a + 1]
        }));
        assert(t[b] == (if b < i {
            p[b]
        } else {
            p[b + 1]
        }));
    }
    assert(prob_distinct_keys(t));
    assert forall|q: u64| q != p[i].0 implies prob_has_key(t, q) == prob_has_key(p, q) by {
        if prob_has_key(t, q) {
            let j = choose|j: int| 0 <= j < t.len() && t[j].0 == q;
            assert(t[j] == (if j < i {
                p[j]
            } else {
                p[j + 1]
            }));
            assert(prob_has_key(p, q));
        }
        if prob_has_key(p, q) {
            let j = choose|j: int| 0 <= j < p.len() && p[j].0 == q;
            assert(j != i);
            if j < i {
                assert(t[j] == p[j]);
            } else {
                assert(t[j - 1] == p[j]);
            }
            assert(prob_has_key(t, q));
        }
    }
    assert forall|q: u64|
        q != p[i].0 && (has_key(m, q) || prob_has_key(p, q)) implies lruk_stored_value(t, m, q)
        == lruk_stored_value(p, m, q) by {
        if !has_key(m, q) {
            let j = prob_key_pos(p, q);
            assert(0 <= j < p.len() && p[j].0 == q);
            assert(j != i);
            if j < i {
                assert(t[j] == p[j]);
                lemma_prob_key_pos_unique(t, q, j);
            } else {
                assert(t[j - 1] == p[j]);
                lemma_prob_key_pos_unique(t, q, j - 1);
            }
        }
    }
}

/// A fresh key joining the back of the probationary queue adds exactly its
/// own association and changes no other.
pub proof fn lemma_prob_assoc_push<V>(p: Seq<(u64, u32, V)>, m: Seq<(u64, V)>, k: u64, v: V)
    requires
        prob_distinct_keys(p),
        distinct_keys(m),
        disjoint_keys(p, m),
        !prob_has_key(p, k),
        !has_key(m, k),
    ensures
        forall|q: u64| prob_has_key(p.push((k, 0u32, v)), q) == (q == k || prob_has_key(p, q)),
        forall|q: u64|
            q != k && (has_key(m, q) || prob_has_key(p, q)) ==> lruk_stored_value(
                p.push((k, 0u32, v)),
                m,
                q,
            ) == lruk_stored_value(p, m, q),
        lruk_stored_value(p.push((k, 0u32, v)), m, k) == v,
{
    let t = p.push((k, 0u32, v));
    let last = t.len() - 1;
    assert(t[last] == (k, 0u32, v));
    assert forall|a: int, b: int| 0 <= a < b < t.len() implies t[a].0 != t[b].0 by {
        if b == last {
            assert(t[a] == p[a]);
        } else {
            assert(t[a] == p[a]);
            assert(t[b] == p[b]);
        }
    }
    assert(prob_distinct_keys(t));
    assert forall|q: u64| prob_has_key(t, q) == (q == k || prob_has_key(p, q)) by {
        if prob_has_key(t, q) {
            let j = choose|j: int| 0 <= j < t.len() && t[j].0 == q;
            if j != last {
                assert(t[j] == p[j]);
                assert(prob_has_key(p, q));
            }
        }
        if q == k {
            assert(t[last].0 == k);
            assert(prob_has_key(t, k));
        }
        if prob_has_key(p, q) {
            let j = choose|j: int| 0 <= j < p.len() && p[j].0 == q;
            assert(t[j].0 == q);
            assert(prob_has_key(t, q));
        }
    }
    assert forall|q: u64|
        q != k && (has_key(m, q) || prob_has_key(p, q)) implies lruk_stored_value(t, m, q)
        == lruk_stored_value(p, m, q) by {
        if !has_key(m, q) {
            let j = prob_key_pos(p, q);
            assert(0 <= j < p.len() && p[j].0 == q);
            assert(t[j] == p[j]);
            lemma_prob_key_pos_unique(t, q, j);
        }
    }
    lemma_prob_key_pos_unique(t, k, last);
}

/// An access to `k` that stores `v` changes no other association: the
/// access rule only reorders the promoted queue, moves one entry between
/// the queues, or bumps a counter, so the same keys answer afterwards, `k`
/// with `v` and every other key with its old value.
pub proof fn lemma_lruk_access_preserves<V>(
    p: Seq<(u64, u32, V)>,
    m: Seq<(u64, V)>,
    kk: int,
    k: u64,
    v: V,
)
    requires
        prob_distinct_keys(p),
        distinct_keys(m),
        disjoint_keys(p, m),
        prob_freqs_ok(p, kk),
        has_key(m, k) || prob_has_key(p, k),
    ensures
        ({
            let pm = lruk_access_model(p, m, kk, k, v);
            (forall|q: u64|
                (has_key(pm.1, q) || prob_has_key(pm.0, q)) == (has_key(m, q) || prob_has_key(
                    p,
                    q,
                ))) && (forall|q: u64|
                q != k && (has_key(m, q) || prob_has_key(p, q)) ==> lruk_stored_value(
                    pm.0,
                    pm.1,
                    q,
                ) == lruk_stored_value(p, m, q)) && lruk_stored_value(pm.0, pm.1, k) == v
        }),
{
    let pm = lruk_access_model(p, m, kk, k, v);
    let p2 = pm.0;
    let m2 = pm.1;
    if has_key(m, k) {
        let i = key_pos(m, k);
        assert(p2 == p);
        assert(m2 == seq![(k, v)] + m.remove(i));
        crate::lru::lemma_assoc_move_front(m, i, (k, v));
        assert forall|q: u64|
            q != k && (has_key(m, q) || prob_has_key(p, q)) implies lruk_stored_value(p2, m2, q)
            == lruk_stored_value(p, m, q) by {
            assert(has_key(m2, q) == has_key(m, q));
        }
        assert(has_key(m2, k));
    } else {
        let i = prob_key_pos(p, k);
        assert(0 <= i < p.len() && p[i].0 == k);
        if p[i].1 + 1 >= kk {
            // the entry is promoted: it leaves the probationary queue and
            // enters the promoted queue, same key and value
            assert(p2 == p.remove(i));
            assert(m2 == seq![(k, v)] + m);
            lemma_promote(p, m, kk, i, (k, v));
            lemma_prob_remove(p, m, kk, i);
            assert forall|q: u64|
                (has_key(m2, q) || prob_has_key(p2, q)) == (has_key(m, q) || prob_has_key(
                    p,
                    q,
                )) by {
                if q == k {
                    assert(m2[0].0 == k);
                    assert(has_key(m2, k));
                } else {
                    assert(has_key(m2, q) == has_key(m, q)) by {
                        if has_key(m2, q) {
                            let j = choose|j: int| 0 <= j < m2.len() && m2[j].0 == q;
                            assert(m2[j] == m[j - 1]);
                            assert(has_key(m, q));
                        }
                        if has_key(m, q) {
                            let j = choose|j: int| 0 <= j < m.len() && m[j].0 == q;
                            assert(m2[j + 1].0 == q);
                            assert(has_key(m2, q));
                        }
                    }
                    assert(prob_has_key(p2, q) == prob_has_key(p, q)) by {
                        if prob_has_key(p, q) {
                            let j = choose|j: int| 0 <= j < p.len() && p[j].0 == q;
                            assert(j != i);
                            if j < i {
                                assert(p2[j] == p[j]);
                            } else {
                                assert(p2[j - 1] == p[j]);
                            }
                            assert(prob_has_key(p2, q));
                        }
                    }
                }
            }
            assert(m2[0] == (k, v));
            lemma_key_pos_unique(m2, k, 0);
            assert(lruk_stored_value(p2, m2, k) == v);
            assert forall|q: u64|
                q != k && (has_key(m, q) || prob_has_key(p, q)) implies lruk_stored_value(
                p2,
                m2,
                q,
            ) == lruk_stored_value(p, m, q) by {
                if has_key(m, q) {
                    let j = key_pos(m, q);
                    assert(0 <= j < m.len() && m[j].0 == q);
                    assert(m2[j + 1] == m[j]);
                    lemma_key_pos_unique(m2, q, j + 1);
                } else {
                    assert(!has_key(m2, q)) by {
                        if has_key(m2, q) {
                            let j = choose|j: int| 0 <= j < m2.len() && m2[j].0 == q;
                            assert(m2[j] == m[j - 1]);
                        }
                    }
                    let j = prob_key_pos(p, q);
                    assert(0 <= j < p.len() && p[j].0 == q);
                    assert(j != i);
                    if j < i {
                        assert(p2[j] == p[j]);
                        lemma_prob_key_pos_unique(p2, q, j);
                    } else {
                        assert(p2[j - 1] == p[j]);
                        lemma_prob_key_pos_unique(p2, q, j - 1);
                    }
                }
            }
        } else {
            // only the counter and the value at `k` move: keys and
            // positions stay
            let e = (k, (p[i].1 + 1) as u32, v);
            assert(p2 == p.update(i, e));
            assert(m2 == m);
            lemma_prob_update(p, m, kk, i, e);
            assert(forall|j: int| 0 <= j < p2.len() ==> p2[j].0 == p[j].0);
            assert forall|q: u64|
                (has_key(m2, q) || prob_has_key(p2, q)) == (has_key(m, q) || prob_has_key(
                    p,
                    q,
                )) by {
                if prob_has_key(p2, q) {
                    let j = choose|j: int| 0 <= j < p2.len() && p2[j].0 == q;
                    assert(p[j].0 == q);
                    assert(prob_has_key(p, q));
                }
                if prob_has_key(p, q) {
                    let j = choose|j: int| 0 <= j < p.len() && p[j].0 == q;
                    assert(p2[j].0 == q);
                    assert(prob_has_key(p2, q));
                }
            }
            lemma_prob_key_pos_unique(p2, k, i);
            assert(lruk_stored_value(p2, m2, k) == v);
            assert forall|q: u64|
                q != k && (has_key(m, q) || prob_has_key(p, q)) implies lruk_stored_value(
                p2,
                m2,
                q,
            ) == lruk_stored_value(p, m, q) by {
                if !has_key(m, q) {
                    let j = prob_key_pos(p, q);
                    assert(0 <= j < p.len() && p[j].0 == q);
                    assert(p2[j].0 == q);
                    lemma_prob_key_pos_unique(p2, q, j);
                    assert(p2[j].2 == p[j].2);
                }
            }
        }
    }
}

/// Law (emptiness agreement): a cache with no entry in either queue
/// answers no lookup, and a lookup changes nothing.
pub proof fn lemma_lruk_empty_no_hit<V>(p: Seq<(u64, u32, V)>, m: Seq<(u64, V)>, kk: int, k: u64)
    requires
        p.len() == 0,
        m.len() == 0,
    ensures
        !prob_has_key(p, k),
        !has_key(m, k),
        lruk_get_model(p, m, kk, k) == (p, m),
{
    lemma_prob_no_key(p, k);
    crate::lru::lemma_no_key(m, k);
}

struct Item<V> {
    key: u64,
    value: V,
    freq: u32,
}

impl<V> Item<V> {
    fn new(key: u64, value: V) -> (r: Item<V>)
        ensures
            r.key == key,
            r.value == value,
            r.freq == 0,
    {
        Item { key, value, freq: 0 }
    }
}

/// The LRU-K cache: a probationary queue in first-seen order, a promoted
/// queue in recency order, a promotion threshold, and a fixed positive
/// capacity.
pub struct LRUkCache<V> {
    fcfo: List<Item<V>>,
    lru: List<Item<V>>,
    freq: u32,
    cap: usize,
}

impl<V> LRUkCache<V> {
    /// The probationary entries as (key, access count, value), oldest first.
    pub closed spec fn prob(&self) -> Seq<(u64, u32, V)> {
        self.fcfo@.map_values(|it: Item<V>| (it.key, it.freq, it.value))
    }

    /// The promoted entries as (key, value), most recently used first.
    pub closed spec fn prom(&self) -> Seq<(u64, V)> {
        self.lru@.map_values(|it: Item<V>| (it.key, it.value))
    }

    /// The fixed capacity chosen at construction.
    pub closed spec fn capacity(&self) -> int {
        self.cap as int
    }

    /// The access count an entry must reach to be promoted.
    pub closed spec fn threshold(&self) -> int {
        self.freq as int
    }

    /// Keys occur at most once across both queues, the entry count never
    /// exceeds the capacity, the capacity is positive, and probationary
    /// access counters are lawful.
    pub open spec fn wf(&self) -> bool {
        &&& prob_distinct_keys(self.prob())
        &&& distinct_keys(self.prom())
        &&& disjoint_keys(self.prob(), self.prom())
        &&& self.prob().len() + self.prom().len() <= self.capacity()
        &&& self.capacity() >= 1
        &&& prob_freqs_ok(self.prob(), self.threshold())
    }

    /// A zero capacity is a usage error and is rejected; any other capacity
    /// yields an empty cache with promotion threshold `freq`.
    pub fn with_capacity_freq(cap: usize, freq: u32) -> (r: Option<LRUkCache<V>>)
        ensures
            cap == 0 ==> r is None,
            cap > 0 ==> (r matches Some(c) && c.wf() && c.prob() == Seq::<(u64, u32, V)>::empty()
                && c.prom() == Seq::<(u64, V)>::empty() && c.capacity() == cap && c.threshold()
                == freq),
    {
        if cap == 0 {
            None
        } else {
            let c = LRUkCache { fcfo: List::new(), lru: List::new(), freq, cap };
            proof {
                assert(c.prob() =~= Seq::<(u64, u32, V)>::empty());
                assert(c.prom() =~= Seq::<(u64, V)>::empty());
            }
            Some(c)
        }
    }

    /// The number of entries held, across both queues.
    pub fn len(&self) -> (r: usize)
        requires
            self.wf(),
        ensures
            r == self.prob().len() + self.prom().len(),
    {
        proof {
            assert(self.fcfo@.len() == self.prob().len());
            assert(self.lru@.len() == self.prom().len());
        }
        self.fcfo.len() + self.lru.len()
    }

    /// Position of the probationary entry carrying `k`, if any.
    fn find_prob(&self, k: u64) -> (r: Option<usize>)
        requires
            prob_distinct_keys(self.prob()),
        ensures
            match r {
                Some(i) => prob_has_key(self.prob(), k) && prob_key_pos(self.prob(), k) == i as int
                    && i < self.prob().len(),
                None => !prob_has_key(self.prob(), k),
            },
    {
        let n: usize = self.fcfo.len();
        let mut i: usize = 0;
        while i < n
            invariant
                n == self.prob().len(),
                i <= n,
                prob_distinct_keys(self.prob()),
                forall|j: int| 0 <= j < i ==> self.prob()[j].0 != k,
            decreases n - i,
        {
            if self.fcfo.get(i).key == k {
                proof {
                    assert(self.prob()[i as int].0 == k);
                    lemma_prob_key_pos_unique(self.prob(), k, i as int);
                }
                return Some(i);
            }
            proof {
                assert(self.prob()[i as int].0 != k);
            }
            i = i + 1;
        }
        None
    }

    /// Position of the promoted entry carrying `k`, if any.
    fn find_prom(&self, k: u64) -> (r: Option<usize>)
        requires
            distinct_keys(self.prom()),
        ensures
            match r {
                Some(i) => has_key(self.prom(), k) && key_pos(self.prom(), k) == i as int && i
                    < self.prom().len(),
                None => !has_key(self.prom(), k),
            },
    {
        let n: usize = self.lru.len();
        let mut i: usize = 0;
        while i < n
            invariant
                n == self.prom().len(),
                i <= n,
                distinct_keys(self.prom()),
                forall|j: int| 0 <= j < i ==> self.prom()[j].0 != k,
            decreases n - i,
        {
            if self.lru.get(i).key == k {
                proof {
                    assert(self.prom()[i as int].0 == k);
                    lemma_key_pos_unique(self.prom(), k, i as int);
                }
                return Some(i);
            }
            proof {
                assert(self.prom()[i as int].0 != k);
            }
            i = i + 1;
        }
        None
    }

    /// Applies the access rule to the entry holding `k` while storing `v`
    /// as its value: a promoted entry moves to the front of the promoted
    /// queue; a probationary entry gains one access, keeps its first-seen
    /// position while its count stays below the threshold, and is promoted
    /// the moment the count reaches it. Yields the previous value.
    fn update(&mut self, k: u64, v: V) -> (r: V)
        requires
            old(self).wf(),
            has_key(old(self).prom(), k) || prob_has_key(old(self).prob(), k),
        ensures
            final(self).wf(),
            final(self).capacity() == old(self).capacity(),
            final(self).threshold() == old(self).threshold(),
            ({
                let pm = lruk_access_model(
                    old(self).prob(),
                    old(self).prom(),
                    old(self).threshold(),
                    k,
                    v,
                );
                final(self).prob() == pm.0 && final(self).prom() == pm.1
            }),
            r == lruk_stored_value(old(self).prob(), old(self).prom(), k),
    {
        if let Some(i) = self.find_prom(k) {
            let f: u32 = self.lru.get(i).freq;
            let old_item = self.lru.replace_at(i, Item { key: k, value: v, freq: f });
            let ghost mid = self.lru@;
            let b = self.lru.begin_node();
            self.lru.splice_self_front(b, i);
            proof {
                let m = old(self).prom();
                let target = seq![(k, v)] + m.remove(i as int);
                assert(old_item.value == m[i as int].1);
                assert(self.lru@ == moved_before(mid, 0, i as int));
                assert forall|j: int| 0 <= j < target.len() implies self.prom()[j]
                    == target[j] by {
                    assert(self.prom()[j] == (self.lru@[j].key, self.lru@[j].value));
                    if i == 0 {
                        assert(self.lru@[j] == mid[j]);
                    } else if j > 0 {
                        assert(self.lru@[j] == mid.remove(i as int)[j - 1]);
                        assert(mid.remove(i as int)[j - 1] == (if j - 1 < i as int {
                            mid[j - 1]
                        } else {
                            mid[j]
                        }));
                    }
                }
                assert(self.prom() =~= target);
                assert(self.prob() == old(self).prob());
                lemma_prom_move_front(old(self).prob(), m, i as int, (k, v));
            }
            old_item.value
        } else {
            let i: usize = self.find_prob(k).unwrap();
            let f: u32 = self.fcfo.get(i).freq;
            proof {
                assert(self.prob()[i as int].1 == f);
                assert(f < self.threshold() || f == 0);
            }
            if f + 1 >= self.freq {
                let old_item = self.fcfo.replace_at(i, Item { key: k, value: v, freq: f });
                let ghost pmid = self.fcfo@;
                let b = self.lru.begin_node();
                self.lru.splice_front(b, &mut self.fcfo, i);
                proof {
                    let p = old(self).prob();
                    let m = old(self).prom();
                    assert(old_item.value == p[i as int].2);
                    assert(self.fcfo@ == pmid.remove(i as int));
                    assert forall|j: int| 0 <= j < p.remove(i as int).len() implies self.prob()[j]
                        == p.remove(i as int)[j] by {
                        assert(self.prob()[j] == (self.fcfo@[j].key, self.fcfo@[j].freq,
                        self.fcfo@[j].value));
                        assert(self.fcfo@[j] == (if j < i as int {
                            pmid[j]
                        } else {
                            pmid[j + 1]
                        }));
                    }
                    assert(self.prob() =~= p.remove(i as int));
                    assert(self.prom() =~= seq![(k, v)] + m);
                    lemma_promote(p, m, old(self).threshold(), i as int, (k, v));
                }
                old_item.value
            } else {
                let old_item = self.fcfo.replace_at(i, Item { key: k, value: v, freq: f + 1 });
                proof {
                    let p = old(self).prob();
                    assert(old_item.value == p[i as int].2);
                    assert(self.prob() =~= p.update(i as int, (k, (f + 1) as u32, v)));
                    lemma_prob_update(
                        p,
                        old(self).prom(),
                        old(self).threshold(),
                        i as int,
                        (k, (f + 1) as u32, v),
                    );
                }
                old_item.value
            }
        }
    }

    /// On a hit, returns the stored value and runs the access rule: a
    /// promoted entry moves to the front of the promoted queue; a
    /// probationary entry gains one access and is promoted when its count
    /// reaches the threshold. A miss changes nothing.
    pub fn get(&mut self, k: &u64) -> (r: Option<V>) where V: Copy
        requires
            old(self).wf(),
        ensures
            final(self).wf(),
            final(self).capacity() == old(self).capacity(),
            final(self).threshold() == old(self).threshold(),
            ({
                let pm = lruk_get_model(
                    old(self).prob(),
                    old(self).prom(),
                    old(self).threshold(),
                    *k,
                );
                final(self).prob() == pm.0 && final(self).prom() == pm.1
            }),
            has_key(old(self).prom(), *k) || prob_has_key(old(self).prob(), *k) ==> r == Some(
                lruk_stored_value(old(self).prob(), old(self).prom(), *k),
            ),
            !has_key(old(self).prom(), *k) && !prob_has_key(old(self).prob(), *k) ==> r is None,
    {
        if let Some(i) = self.find_prom(*k) {
            let v: V = self.lru.get(i).value;
            let prev = self.update(*k, v);
            Some(prev)
        } else if let Some(i) = self.find_prob(*k) {
            let v: V = self.fcfo.get(i).value;
            let prev = self.update(*k, v);
            Some(prev)
        } else {
            None
        }
    }

    /// Stores `v` under `k`. An existing entry takes the new value and runs
    /// the same access rule as a lookup, yielding its previous value; a new
    /// key enters at the back of the probationary queue with a zero access
    /// count, after an eviction when the cache is full.
    pub fn insert(&mut self, k: u64, v: V) -> (r: Option<V>)
        requires
            old(self).wf(),
        ensures
            final(self).wf(),
            final(self).capacity() == old(self).capacity(),
            final(self).threshold() == old(self).threshold(),
            ({
                let pm = lruk_insert_model(
                    old(self).prob(),
                    old(self).prom(),
                    old(self).threshold(),
                    old(self).capacity(),
                    k,
                    v,
                );
                final(self).prob() == pm.0 && final(self).prom() == pm.1
            }),
            has_key(old(self).prom(), k) || prob_has_key(old(self).prob(), k) ==> r == Some(
                lruk_stored_value(old(self).prob(), old(self).prom(), k),
            ),
            !has_key(old(self).prom(), k) && !prob_has_key(old(self).prob(), k) ==> r is None,
    {
        let hit: bool = match self.find_prom(k) {
            Some(_) => true,
            None => self.find_prob(k).is_some(),
        };
        if hit {
            let prev = self.update(k, v);
            Some(prev)
        } else {
            let n: usize = self.len();
            if n == self.cap {
                let _ = self.disuse();
            }
            let ghost pmid = self.prob();
            let ghost mmid = self.prom();
            self.fcfo.push_back(Item::new(k, v));
            proof {
                let p = old(self).prob();
                let m = old(self).prom();
                let kk = old(self).threshold();
                assert(self.prob() =~= pmid.push((k, 0u32, v)));
                assert(self.prom() == mmid);
                if pmid != p {
                    assert(pmid =~= p.remove(0));
                    lemma_prob_remove(p, m, kk, 0);
                }
                assert(!prob_has_key(pmid, k));
                assert(!has_key(mmid, k)) by {
                    if has_key(mmid, k) {
                        let j = choose|j: int| 0 <= j < mmid.len() && mmid[j].0 == k;
                        if mmid != m {
                            assert(mmid =~= m.drop_last());
                            assert(mmid[j] == m[j]);
                        }
                        assert(has_key(m, k));
                    }
                }
                lemma_prob_push(pmid, mmid, kk, k, v);
            }
            None
        }
    }

    /// Evicts one entry: the oldest probationary entry if any, otherwise
    /// the least recently used promoted entry; yields nothing when the
    /// cache is empty.
    fn disuse(&mut self) -> (r: Option<()>)
        requires
            old(self).wf(),
        ensures
            final(self).wf(),
            final(self).capacity() == old(self).capacity(),
            final(self).threshold() == old(self).threshold(),
            ({
                let pm = lruk_disuse_model(old(self).prob(), old(self).prom());
                final(self).prob() == pm.0 && final(self).prom() == pm.1
            }),
            r is Some <==> old(self).prob().len() + old(self).prom().len() > 0,
    {
        if !self.fcfo.is_empty() {
            proof {
                assert(self.fcfo@.len() == self.prob().len());
            }
            let _ = self.fcfo.pop_front();
            proof {
                let p = old(self).prob();
                assert(self.prob() =~= p.drop_first());
                assert(p.drop_first() =~= p.remove(0));
                lemma_prob_remove(p, old(self).prom(), old(self).threshold(), 0);
            }
            Some(())
        } else {
            proof {
                assert(self.lru@.len() == self.prom().len());
            }
            match self.lru.pop_back() {
                Some(_) => {
                    proof {
                        let m = old(self).prom();
                        assert(self.prom() =~= m.drop_last());
                        lemma_distinct_drop_last(m);
                        assert(self.prob() == old(self).prob());
                        let t = m.drop_last();
                        assert forall|a: int, b: int|
                            0 <= a < self.prob().len() && 0 <= b < t.len() implies self.prob()[a].0
                            != t[b].0 by {
                            assert(t[b] == m[b]);
                        }
                    }
                    Some(())
                },
                None => None,
            }
        }
    }

    /// Removes the entry for `k` from whichever queue holds it, yielding
    /// its value; removing an absent key changes nothing.
    pub fn remove(&mut self, k: &u64) -> (r: Option<V>)
        requires
            old(self).wf(),
        ensures
            final(self).wf(),
            final(self).capacity() == old(self).capacity(),
            final(self).threshold() == old(self).threshold(),
            ({
                let pm = lruk_remove_model(old(self).prob(), old(self).prom(), *k);
                final(self).prob() == pm.0 && final(self).prom() == pm.1
            }),
            has_key(old(self).prom(), *k) || prob_has_key(old(self).prob(), *k) ==> r == Some(
                lruk_stored_value(old(self).prob(), old(self).prom(), *k),
            ),
            !has_key(old(self).prom(), *k) && !prob_has_key(old(self).prob(), *k) ==> r is None,
    {
        if let Some(i) = self.find_prom(*k) {
            let it = self.lru.remove_node(i);
            proof {
                let m = old(self).prom();
                assert(it.value == m[i as int].1);
                assert(self.prom() =~= m.remove(i as int));
                lemma_distinct_remove(m, i as int);
                assert(self.prob() == old(self).prob());
                let t = m.remove(i as int);
                assert forall|a: int, b: int|
                    0 <= a < self.prob().len() && 0 <= b < t.len() implies self.prob()[a].0
                    != t[b].0 by {
                    assert(t[b] == (if b < i as int {
                        m[b]
                    } else {
                        m[b + 1]
                    }));
                }
            }
            Some(it.value)
        } else if let Some(i) = self.find_prob(*k) {
            let it = self.fcfo.remove_node(i);
            proof {
                let p = old(self).prob();
                assert(it.value == p[i as int].2);
                assert(self.prob() =~= p.remove(i as int));
                lemma_prob_remove(p, old(self).prom(), old(self).threshold(), i as int);
            }
            Some(it.value)
        } else {
            None
        }
    }

    /// True exactly when neither queue holds an entry.
    pub fn is_emtpy(&self) -> (r: bool)
        ensures
            r == (self.prob().len() + self.prom().len() == 0),
    {
        self.fcfo.is_empty() && self.lru.is_empty()
    }

    /// The number of probationary entries.
    pub fn fcfo_len(&self) -> (r: usize)
        ensures
            r == self.prob().len(),
    {
        self.fcfo.len()
    }

    /// The number of promoted entries.
    pub fn lru_len(&self) -> (r: usize)
        ensures
            r == self.prom().len(),
    {
        self.lru.len()
    }

    /// The value of the oldest probationary entry, if any.
    pub fn fcfo_front(&self) -> (r: Option<V>) where V: Copy
        ensures
            self.prob().len() == 0 ==> r is None,
            self.prob().len() > 0 ==> r == Some(self.prob()[0].2),
    {
        match self.fcfo.front() {
            Some(it) => Some(it.value),
            None => None,
        }
    }

    /// The value of the most recently used promoted entry, if any.
    pub fn lru_front(&self) -> (r: Option<V>) where V: Copy
        ensures
            self.prom().len() == 0 ==> r is None,
            self.prom().len() > 0 ==> r == Some(self.prom()[0].1),
    {
        match self.lru.front() {
            Some(it) => Some(it.value),
            None => None,
        }
    }
}

impl<V: Copy> Cache<V> for LRUkCache<V> {
    open spec fn cache_has(&self, k: u64) -> bool {
        has_key(self.prom(), k) || prob_has_key(self.prob(), k)
    }

    open spec fn cache_value(&self, k: u64) -> V {
        lruk_stored_value(self.prob(), self.prom(), k)
    }

    open spec fn cache_len(&self) -> int {
        self.prob().len() + self.prom().len() as int
    }

    open spec fn cache_capacity(&self) -> int {
        self.capacity()
    }

    open spec fn cache_wf(&self) -> bool {
        self.wf()
    }

    fn get(&mut self, k: &u64) -> (r: Option<V>) {
        let r = self.get(k);
        proof {
            let p = old(self).prob();
            let m = old(self).prom();
            if has_key(m, *k) || prob_has_key(p, *k) {
                lemma_lruk_access_preserves(
                    p,
                    m,
                    old(self).threshold(),
                    *k,
                    lruk_stored_value(p, m, *k),
                );
            }
        }
        r
    }

    fn insert(&mut self, k: u64, v: V) -> (r: Option<V>) {
        let r = self.insert(k, v);
        proof {
            let p = old(self).prob();
            let m = old(self).prom();
            let kk = old(self).threshold();
            let cap = old(self).capacity();
            if has_key(m, k) || prob_has_key(p, k) {
                lemma_lruk_update_then_get(p, m, kk, cap, k, v);
                lemma_lruk_access_preserves(p, m, kk, k, v);
            } else {
                let pmid = if p.len() + m.len() >= cap {
                    lruk_disuse_model(p, m).0
                } else {
                    p
                };
                let mmid = if p.len() + m.len() >= cap {
                    lruk_disuse_model(p, m).1
                } else {
                    m
                };
                assert(self.prob() == pmid.push((k, 0u32, v)));
                assert(self.prom() == mmid);
                if pmid != p {
                    // the oldest probationary entry was evicted first
                    assert(pmid == p.drop_first());
                    assert(pmid =~= p.remove(0));
                    lemma_prob_remove(p, m, kk, 0);
                    lemma_prob_assoc_remove(p, m, 0);
                } else if mmid != m {
                    // no probationary entry was left: the least recently
                    // used promoted entry was evicted
                    lemma_distinct_drop_last(m);
                    lemma_assoc_drop_last(m);
                }
                assert(!prob_has_key(pmid, k));
                assert(!has_key(mmid, k)) by {
                    if has_key(mmid, k) {
                        let j = choose|j: int| 0 <= j < mmid.len() && mmid[j].0 == k;
                        if mmid != m {
                            assert(mmid == m.drop_last());
                            assert(mmid[j] == m[j]);
                        }
                        assert(has_key(m, k));
                    }
                }
                assert(disjoint_keys(pmid, mmid)) by {
                    if mmid != m {
                        assert(pmid == p);
                        assert forall|a: int, b: int|
                            0 <= a < pmid.len() && 0 <= b < mmid.len() implies pmid[a].0
                            != mmid[b].0 by {
                            assert(mmid[b] == m[b]);
                        }
                    }
                }
                lemma_prob_assoc_push(pmid, mmid, k, v);
            }
        }
        r
    }

    fn remove(&mut self, k: &u64) -> (r: Option<V>) {
        let r = self.remove(k);
        proof {
            let p = old(self).prob();
            let m = old(self).prom();
            lemma_lruk_remove_idempotent(p, m, *k);
            if has_key(m, *k) {
                crate::lru::lemma_assoc_remove(m, key_pos(m, *k));
            } else if prob_has_key(p, *k) {
                lemma_prob_assoc_remove(p, m, prob_key_pos(p, *k));
            }
        }
        r
    }

    fn is_emtpy(&self) -> (r: bool) {
        self.is_emtpy()
    }
}

} // verus!
