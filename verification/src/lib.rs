//! Bounded-capacity in-process key-value caches with two eviction policies:
//! strict recency (LRU) and frequency-gated recency (LRU-K).
//!
//! The caches are built on [`list::List`], an ordered list of owned nodes
//! addressed by position handles, which supports removal of an arbitrary
//! node and splicing of a node from one list into another.

use vstd::prelude::*;

pub mod list;
pub mod lru;
pub mod lru_k;

verus! {

/// Common interface of the caches.
///
/// `cache_wf` is the well-formedness condition that construction establishes
/// and every operation preserves. The full effect of each operation on the
/// order of the entries, and so on who is evicted next, is stated by the
/// inherent methods of each implementing type; this interface pins down what
/// is held: which keys answer, with which values, and within which bounds.
pub trait Cache<V: Copy>: Sized {
    /// Whether an entry for `k` is present.
    spec fn cache_has(&self, k: u64) -> bool;

    /// The value stored for `k`; meaningful when `cache_has(k)`.
    spec fn cache_value(&self, k: u64) -> V;

    /// The number of entries held.
    spec fn cache_len(&self) -> int;

    /// The fixed capacity chosen at construction.
    spec fn cache_capacity(&self) -> int;

    /// The well-formedness that construction establishes and every
    /// operation preserves.
    spec fn cache_wf(&self) -> bool;

    /// A lookup answers exactly the present keys, with the stored value,
    /// and changes no association: the same keys answer afterwards, with
    /// the same values.
    fn get(&mut self, k: &u64) -> (r: Option<V>)
        requires
            old(self).cache_wf(),
        ensures
            final(self).cache_wf(),
            final(self).cache_capacity() == old(self).cache_capacity(),
            final(self).cache_len() == old(self).cache_len(),
            forall|q: u64| final(self).cache_has(q) == old(self).cache_has(q),
            forall|q: u64|
                old(self).cache_has(q) ==> final(self).cache_value(q) == old(self).cache_value(q),
            r == (if old(self).cache_has(*k) {
                Some(old(self).cache_value(*k))
            } else {
                None::<V>
            }),
    ;

    /// After an insert the key is present with the new value, the previous
    /// value (if any) is handed back, and the entry count stays within the
    /// capacity. No key appears but `k`; a re-insert of a present key drops
    /// none; and every key still present keeps its value.
    fn insert(&mut self, k: u64, v: V) -> (r: Option<V>)
        requires
            old(self).cache_wf(),
        ensures
            final(self).cache_wf(),
            final(self).cache_capacity() == old(self).cache_capacity(),
            final(self).cache_len() <= final(self).cache_capacity(),
            final(self).cache_has(k),
            final(self).cache_value(k) == v,
            forall|q: u64| final(self).cache_has(q) ==> q == k || old(self).cache_has(q),
            old(self).cache_has(k) ==> (forall|q: u64|
                final(self).cache_has(q) == old(self).cache_has(q)),
            forall|q: u64|
                q != k && old(self).cache_has(q) && final(self).cache_has(q)
                    ==> final(self).cache_value(q) == old(self).cache_value(q),
            r == (if old(self).cache_has(k) {
                Some(old(self).cache_value(k))
            } else {
                None::<V>
            }),
    ;

    /// After a removal the key is absent and the removed value (if any) is
    /// handed back; every other key is untouched.
    fn remove(&mut self, k: &u64) -> (r: Option<V>)
        requires
            old(self).cache_wf(),
        ensures
            final(self).cache_wf(),
            final(self).cache_capacity() == old(self).cache_capacity(),
            !final(self).cache_has(*k),
            final(self).cache_len() == old(self).cache_len() - (if old(self).cache_has(*k) {
                1int
            } else {
                0int
            }),
            forall|q: u64| q != *k ==> final(self).cache_has(q) == old(self).cache_has(q),
            forall|q: u64|
                q != *k && old(self).cache_has(q) ==> final(self).cache_value(q) == old(
                    self,
                ).cache_value(q),
            r == (if old(self).cache_has(*k) {
                Some(old(self).cache_value(*k))
            } else {
                None::<V>
            }),
    ;

    /// True exactly when no entry is held.
    fn is_emtpy(&self) -> (r: bool)
        requires
            self.cache_wf(),
        ensures
            r == (self.cache_len() == 0),
    ;
}

} // verus!
