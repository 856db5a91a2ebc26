//! The uniqueness layer: a thin wrapper over the cache that collapses values
//! sharing a caller-defined identity into a single entry.
//!
//! A secondary index maps each value identity to the cache key currently
//! holding it.  Inserting a value whose identity is already live refreshes
//! and returns the existing key; eviction and removal delete the identity's
//! index entry so a later insert of an equal identity starts fresh.
use vstd::prelude::*;

use crate::tlru::{self, TLRUCache, Record, has_key, key_pos, expired_prefix_len};
use crate::{Dup, KeyEq};

verus! {

/// A value with a stable, caller-defined identity, used solely for
/// deduplication.
pub trait Key {
    /// The identity type.
    type K;

    /// The identity of this value, in the logic.
    spec fn spec_id(&self) -> Self::K;

    /// The identity of this value.
    fn id(&self) -> (r: Self::K)
        ensures
            r == self.spec_id(),
    ;
}

impl Key for i32 {
    type K = i32;

    open spec fn spec_id(&self) -> i32 {
        *self
    }

    fn id(&self) -> (r: i32) {
        *self
    }
}

impl Key for u64 {
    type K = u64;

    open spec fn spec_id(&self) -> u64 {
        *self
    }

    fn id(&self) -> (r: u64) {
        *self
    }
}

impl Key for (i32, i32) {
    type K = i32;

    open spec fn spec_id(&self) -> i32 {
        self.0
    }

    fn id(&self) -> (r: i32) {
        self.0
    }
}

/// Some record of `s` holds a value with identity `id`.
pub open spec fn has_id<K, V: Key>(s: Seq<Record<K, V>>, id: <V as Key>::K) -> bool {
    exists|j: int| 0 <= j < s.len() && s[j].value.spec_id() == id
}

/// The position of the record of `s` holding identity `id`.
pub open spec fn id_pos<K, V: Key>(s: Seq<Record<K, V>>, id: <V as Key>::K) -> int {
    choose|j: int| 0 <= j < s.len() && s[j].value.spec_id() == id
}

/// No two records of `s` hold values with the same identity.
pub open spec fn ids_distinct<K, V: Key>(s: Seq<Record<K, V>>) -> bool {
    forall|j1: int, j2: int|
        0 <= j1 < j2 < s.len() ==> s[j1].value.spec_id() != s[j2].value.spec_id()
}

/// The deduplicating cache: the identity index and the cache it wraps.
pub struct UniqueTLRUCache<K, V: Key> {
    value_ids: Vec<(<V as Key>::K, K)>,
    cache: TLRUCache<K, V>,
}

impl<K, V: Key> View for UniqueTLRUCache<K, V> {
    type V = Seq<Record<K, V>>;

    closed spec fn view(&self) -> Seq<Record<K, V>> {
        self.cache@
    }
}

impl<K, V: Key> UniqueTLRUCache<K, V> {
    /// The expiry the cache was created with, in milliseconds.
    pub closed spec fn spec_expiry(&self) -> u64 {
        self.cache.spec_expiry()
    }

    /// The highest access stamp handed out so far.
    pub closed spec fn spec_latest(&self) -> u64 {
        self.cache.spec_latest()
    }

    /// The entry at position `j` has its identity and key on the index.
    spec fn listed(&self, j: int) -> bool {
        exists|i: int|
            0 <= i < self.value_ids@.len() && (#[trigger] self.value_ids@[i]).0
                == self@[j].value.spec_id() && self.value_ids@[i].1 == self@[j].key
    }

    /// The index entry at `i` names a live entry of matching identity.
    spec fn entry_live(&self, i: int) -> bool {
        exists|j: int|
            0 <= j < self@.len() && (#[trigger] self@[j]).key == self.value_ids@[i].1
                && self@[j].value.spec_id() == self.value_ids@[i].0
    }

    /// Index identities are pairwise distinct.
    spec fn ids_unique(&self) -> bool {
        forall|i1: int, i2: int|
            0 <= i1 < i2 < self.value_ids@.len() ==> self.value_ids@[i1].0
                != self.value_ids@[i2].0
    }

    /// Every live entry is on the index.
    spec fn all_listed(&self) -> bool {
        forall|j: int| 0 <= j < self@.len() ==> #[trigger] self.listed(j)
    }

    /// Every index entry names a live entry.
    spec fn all_live(&self) -> bool {
        forall|i: int| 0 <= i < self.value_ids@.len() ==> #[trigger] self.entry_live(i)
    }

    /// The layer invariant: the wrapped cache is lawful, index identities
    /// are distinct, every live entry is on the index, and every index
    /// entry points at a live entry of its identity.
    pub closed spec fn inv(&self) -> bool {
        &&& self.cache.inv()
        &&& self.ids_unique()
        &&& self.all_listed()
        &&& self.all_live()
    }

    /// No two live entries hold values of the same identity.
    pub proof fn lemma_ids_distinct(&self)
        requires
            self.inv(),
        ensures
            ids_distinct(self@),
            tlru::keys_distinct(self@),
    {
        self.cache.lemma_keys_distinct();
        assert forall|j1: int, j2: int|
            0 <= j1 < j2 < self@.len() implies self@[j1].value.spec_id()
            != self@[j2].value.spec_id() by {
            assert(self.listed(j1));
            assert(self.listed(j2));
            let i1 = choose|i: int|
                0 <= i < self.value_ids@.len() && (#[trigger] self.value_ids@[i]).0
                    == self@[j1].value.spec_id() && self.value_ids@[i].1 == self@[j1].key;
            let i2 = choose|i: int|
                0 <= i < self.value_ids@.len() && (#[trigger] self.value_ids@[i]).0
                    == self@[j2].value.spec_id() && self.value_ids@[i].1 == self@[j2].key;
            if self@[j1].value.spec_id() == self@[j2].value.spec_id() {
                assert(i1 == i2);
                assert(self@[j1].key == self@[j2].key);
            }
        }
    }

    /// Any record that holds identity `id` stands exactly at `id_pos`.
    proof fn lemma_at_id_pos(&self, j: int)
        requires
            self.inv(),
            0 <= j < self@.len(),
        ensures
            has_id(self@, self@[j].value.spec_id()),
            id_pos(self@, self@[j].value.spec_id()) == j,
    {
        self.lemma_ids_distinct();
        assert(0 <= j < self@.len() && self@[j].value.spec_id() == self@[j].value.spec_id());
        let j2 = id_pos(self@, self@[j].value.spec_id());
        if j2 != j {
            assert(self@[j2].value.spec_id() == self@[j].value.spec_id());
        }
    }

    /// When every current entry matches some earlier entry in key and value,
    /// and the index has not changed, every current entry is still listed.
    proof fn lemma_records_still_listed(&self, pre: Self)
        requires
            pre.all_listed(),
            self.value_ids@ == pre.value_ids@,
            forall|j: int|
                0 <= j < self@.len() ==> exists|q: int|
                    0 <= q < pre@.len() && (#[trigger] self@[j]).key == pre@[q].key
                        && self@[j].value == pre@[q].value,
        ensures
            self.all_listed(),
    {
        assert forall|j: int| 0 <= j < self@.len() implies #[trigger] self.listed(j) by {
            let q = choose|q: int|
                0 <= q < pre@.len() && (#[trigger] self@[j]).key == pre@[q].key
                    && self@[j].value == pre@[q].value;
            assert(pre.listed(q));
        }
    }

    /// When every earlier entry survives with its key and value, and the
    /// index has not changed, every index entry still names a live one.
    proof fn lemma_entries_still_live(&self, pre: Self)
        requires
            pre.all_live(),
            self.value_ids@ == pre.value_ids@,
            forall|q: int|
                0 <= q < pre@.len() ==> exists|j: int|
                    0 <= j < self@.len() && (#[trigger] pre@[q]).key == self@[j].key
                        && pre@[q].value == self@[j].value,
        ensures
            self.all_live(),
    {
        assert forall|i: int|
            0 <= i < self.value_ids@.len() implies #[trigger] self.entry_live(i) by {
            assert(pre.entry_live(i));
            let q = choose|q: int|
                0 <= q < pre@.len() && (#[trigger] pre@[q]).key == pre.value_ids@[i].1
                    && pre@[q].value.spec_id() == pre.value_ids@[i].0;
        }
    }

    /// Removing the index entry of an identity that no live entry holds
    /// keeps identities distinct and every live entry listed.
    proof fn lemma_unlist(&self, pre: Self, p: int)
        requires
            pre.ids_unique(),
            pre.all_listed(),
            self.cache == pre.cache,
            0 <= p < pre.value_ids@.len(),
            self.value_ids@ == pre.value_ids@.remove(p),
            forall|j: int|
                0 <= j < pre@.len() ==> (#[trigger] pre@[j]).value.spec_id()
                    != pre.value_ids@[p].0,
        ensures
            self.ids_unique(),
            self.all_listed(),
    {
        assert forall|i1: int, i2: int|
            0 <= i1 < i2 < self.value_ids@.len() implies self.value_ids@[i1].0
            != self.value_ids@[i2].0 by {
            let q1: int = if i1 < p {
                i1
            } else {
                i1 + 1
            };
            let q2: int = if i2 < p {
                i2
            } else {
                i2 + 1
            };
            assert(self.value_ids@[i1] == pre.value_ids@[q1]);
            assert(self.value_ids@[i2] == pre.value_ids@[q2]);
        }
        assert forall|j: int| 0 <= j < self@.len() implies #[trigger] self.listed(j) by {
            assert(pre.listed(j));
            let i = choose|i: int|
                0 <= i < pre.value_ids@.len() && (#[trigger] pre.value_ids@[i]).0
                    == pre@[j].value.spec_id() && pre.value_ids@[i].1 == pre@[j].key;
            assert(i != p);
            if i < p {
                assert(self.value_ids@[i] == pre.value_ids@[i]);
            } else {
                assert(self.value_ids@[i - 1] == pre.value_ids@[i]);
            }
        }
    }
}

impl<K: KeyEq, V: Dup + Key> UniqueTLRUCache<K, V> where <V as Key>::K: KeyEq {
    /// An empty deduplicating cache that expires entries `expiry`
    /// milliseconds after their last access.
    pub fn new(expiry: u64) -> (c: Self)
        ensures
            c.inv(),
            c@ == Seq::<Record<K, V>>::empty(),
            c.spec_expiry() == expiry,
            c.spec_latest() == 0,
    {
        UniqueTLRUCache { value_ids: Vec::new(), cache: TLRUCache::new(expiry) }
    }

    /// The index entry carrying identity `id`, if any.
    fn find_id(&self, id: &<V as Key>::K) -> (r: Option<usize>)
        ensures
            match r {
                Some(i) => i < self.value_ids@.len() && self.value_ids@[i as int].0 == *id,
                None => forall|i: int|
                    0 <= i < self.value_ids@.len() ==> (#[trigger] self.value_ids@[i]).0 != *id,
            },
    {
        let mut i: usize = 0;
        while i < self.value_ids.len()
            invariant
                0 <= i <= self.value_ids@.len(),
                forall|i2: int| 0 <= i2 < i ==> (#[trigger] self.value_ids@[i2]).0 != *id,
            decreases self.value_ids@.len() - i,
        {
            if self.value_ids[i].0.key_eq(id) {
                return Some(i);
            }
            i = i + 1;
        }
        None
    }

    /// The value under `key`, refreshed and moved to the tail as in the
    /// wrapped cache; absent keys leave everything untouched.
    pub fn fetch(&mut self, key: &K) -> (r: Option<V>)
        requires
            old(self).inv(),
        ensures
            final(self).inv(),
            final(self).spec_expiry() == old(self).spec_expiry(),
            final(self).spec_latest() >= old(self).spec_latest(),
            !has_key(old(self)@, *key) ==> r is None && *final(self) == *old(self),
            has_key(old(self)@, *key) ==> ({
                let j = key_pos(old(self)@, *key);
                &&& r == Some(old(self)@[j].value)
                &&& final(self)@ == old(self)@.remove(j).push(
                    (Record {
                        key: *key,
                        value: old(self)@[j].value,
                        access: final(self).spec_latest(),
                    }),
                )
            }),
    {
        let ghost pre = *self;
        let r = self.cache.fetch(key);
        proof {
            if has_key(pre@, *key) {
                let j = key_pos(pre@, *key);
                assert(0 <= j < pre@.len() && pre@[j].key == *key);
                self.lemma_inv_after_touch(pre, j, self.cache.spec_latest());
            }
        }
        r
    }

    /// After the record at `j` of `pre` was moved to the tail with its key
    /// and value kept, the invariant holds again.
    #[verifier::rlimit(100)]
    proof fn lemma_inv_after_touch(&self, pre: Self, j: int, a: u64)
        requires
            pre.inv(),
            0 <= j < pre@.len(),
            self.cache.inv(),
            self.value_ids@ == pre.value_ids@,
            self@ == pre@.remove(j).push(
                (Record { key: pre@[j].key, value: pre@[j].value, access: a }),
            ),
        ensures
            self.inv(),
    {
        assert(self@.len() == pre@.len());
        assert forall|j2: int|
            0 <= j2 < self@.len() implies exists|q: int|
                0 <= q < pre@.len() && (#[trigger] self@[j2]).key == pre@[q].key
                    && self@[j2].value == pre@[q].value by {
            if j2 == self@.len() - 1 {
                assert(self@[j2].key == pre@[j].key && self@[j2].value == pre@[j].value);
            } else {
                let q: int = if j2 < j {
                    j2
                } else {
                    j2 + 1
                };
                assert(self@[j2] == pre@.remove(j)[j2]);
                assert(pre@.remove(j)[j2] == pre@[q]);
            }
        }
        self.lemma_records_still_listed(pre);
        assert forall|q: int|
            0 <= q < pre@.len() implies exists|j2: int|
                0 <= j2 < self@.len() && (#[trigger] pre@[q]).key == self@[j2].key
                    && pre@[q].value == self@[j2].value by {
            if q == j {
                assert(pre@[q].key == self@[self@.len() - 1].key && pre@[q].value
                    == self@[self@.len() - 1].value);
            } else {
                let j2: int = if q < j {
                    q
                } else {
                    q - 1
                };
                assert(self@[j2] == pre@.remove(j)[j2]);
                assert(pre@.remove(j)[j2] == pre@[q]);
            }
        }
        self.lemma_entries_still_live(pre);
    }

    /// After the record at `j` of `pre` and its index entry at `p` were both
    /// deleted, the invariant holds again.
    proof fn lemma_inv_after_delete(&self, pre: Self, j: int, p: int)
        requires
            pre.inv(),
            0 <= j < pre@.len(),
            0 <= p < pre.value_ids@.len(),
            pre.value_ids@[p].0 == pre@[j].value.spec_id(),
            self.cache.inv(),
            self.value_ids@ == pre.value_ids@.remove(p),
            self@ == pre@.remove(j),
        ensures
            self.inv(),
    {
        pre.lemma_ids_distinct();
        let mid = UniqueTLRUCache { value_ids: pre.value_ids, cache: self.cache };
        assert(mid@ == self@);
        assert forall|j2: int|
            0 <= j2 < mid@.len() implies exists|q: int|
                0 <= q < pre@.len() && (#[trigger] mid@[j2]).key == pre@[q].key
                    && mid@[j2].value == pre@[q].value by {
            let q: int = if j2 < j {
                j2
            } else {
                j2 + 1
            };
            assert(mid@[j2] == pre@[q]);
        }
        mid.lemma_records_still_listed(pre);
        assert forall|j2: int|
            0 <= j2 < mid@.len() implies (#[trigger] mid@[j2]).value.spec_id()
            != mid.value_ids@[p].0 by {
            let q: int = if j2 < j {
                j2
            } else {
                j2 + 1
            };
            assert(mid@[j2] == pre@[q]);
            assert(q != j);
            assert(pre@[q].value.spec_id() != pre@[j].value.spec_id());
        }
        self.lemma_unlist(mid, p);
        assert forall|i: int|
            0 <= i < self.value_ids@.len() implies #[trigger] self.entry_live(i) by {
            let ip: int = if i < p {
                i
            } else {
                i + 1
            };
            assert(self.value_ids@[i] == pre.value_ids@[ip]);
            assert(pre.entry_live(ip));
            let q = choose|q: int|
                0 <= q < pre@.len() && (#[trigger] pre@[q]).key == pre.value_ids@[ip].1
                    && pre@[q].value.spec_id() == pre.value_ids@[ip].0;
            assert(q != j) by {
                if q == j {
                    assert(pre.value_ids@[ip].0 == pre@[j].value.spec_id());
                    assert(pre.value_ids@[p].0 == pre@[j].value.spec_id());
                    assert(ip == p);
                }
            }
            let j2: int = if q < j {
                q
            } else {
                q - 1
            };
            assert(self@[j2] == pre@[q]);
        }
    }

    /// Remove the entry under `key` and its identity's index entry,
    /// returning the value; absent keys leave everything untouched.
    pub fn remove(&mut self, key: &K) -> (r: Option<V>)
        requires
            old(self).inv(),
        ensures
            final(self).inv(),
            final(self).spec_expiry() == old(self).spec_expiry(),
            final(self).spec_latest() == old(self).spec_latest(),
            !has_key(old(self)@, *key) ==> r is None && *final(self) == *old(self),
            has_key(old(self)@, *key) ==> ({
                let j = key_pos(old(self)@, *key);
                &&& r == Some(old(self)@[j].value)
                &&& final(self)@ == old(self)@.remove(j)
            }),
    {
        let ghost pre = *self;
        match self.cache.remove(key) {
            None => None,
            Some(val) => {
                let ghost j = key_pos(pre@, *key);
                proof {
                    assert(0 <= j < pre@.len() && pre@[j].key == *key);
                }
                let vid = val.id();
                match self.find_id(&vid) {
                    Some(p) => {
                        self.value_ids.remove(p);
                        proof {
                            self.lemma_inv_after_delete(pre, j, p as int);
                        }
                    },
                    None => {
                        proof {
                            assert(pre.all_listed());
                            assert(pre.listed(j));
                            let iw = choose|i: int|
                                0 <= i < pre.value_ids@.len() && (#[trigger] pre.value_ids@[i]).0
                                    == pre@[j].value.spec_id() && pre.value_ids@[i].1
                                    == pre@[j].key;
                            assert(self.value_ids@[iw].0 == vid);
                            assert(false);
                        }
                    },
                }
                Some(val)
            },
        }
    }

    /// Remove the entry holding a value of the same identity as `value`,
    /// returning the stored value; an absent identity leaves everything
    /// untouched.
    pub fn remove_value(&mut self, value: &V) -> (r: Option<V>)
        requires
            old(self).inv(),
        ensures
            final(self).inv(),
            final(self).spec_expiry() == old(self).spec_expiry(),
            final(self).spec_latest() == old(self).spec_latest(),
            !has_id(old(self)@, value.spec_id()) ==> r is None && *final(self) == *old(self),
            has_id(old(self)@, value.spec_id()) ==> ({
                let j = id_pos(old(self)@, value.spec_id());
                &&& r == Some(old(self)@[j].value)
                &&& final(self)@ == old(self)@.remove(j)
            }),
    {
        let vid = value.id();
        match self.find_id(&vid) {
            None => {
                proof {
                    if has_id(self@, value.spec_id()) {
                        let j = id_pos(self@, value.spec_id());
                        assert(0 <= j < self@.len() && self@[j].value.spec_id()
                            == value.spec_id());
                        assert(self.listed(j));
                    }
                }
                None
            },
            Some(p) => {
                let k: K = self.value_ids[p].1.dup();
                let ghost pre = *self;
                let ghost j = choose|j: int|
                    0 <= j < pre@.len() && (#[trigger] pre@[j]).key == pre.value_ids@[p as int].1
                        && pre@[j].value.spec_id() == pre.value_ids@[p as int].0;
                proof {
                    assert(pre.entry_live(p as int));
                    assert(0 <= j < pre@.len() && pre@[j].key == k && pre@[j].value.spec_id()
                        == vid);
                    pre.lemma_at_id_pos(j);
                    pre.cache.lemma_keys_distinct();
                    assert(has_key(pre@, k));
                    let j2 = key_pos(pre@, k);
                    assert(0 <= j2 < pre@.len() && pre@[j2].key == k);
                    if j2 != j {
                        assert(pre@[j2].key != pre@[j].key);
                    }
                    assert(key_pos(pre@, k) == j);
                }
                let r = self.cache.remove(&k);
                proof {
                    assert(r == Some(pre@[j].value));
                }
                self.value_ids.remove(p);
                proof {
                    self.lemma_inv_after_delete(pre, j, p as int);
                }
                r
            },
        }
    }

    /// Insert `value` under a key drawn from the generator, unless a value
    /// of the same identity is already live: then that entry is refreshed
    /// and its key returned, and `value` is discarded.  The result is absent
    /// only if a vast retry budget found no fresh key, which cannot happen
    /// with a generator that only yields fresh keys.
    pub fn insert_new<KF: Fn() -> K>(&mut self, generate_random_key: KF, value: V) -> (r: Option<
        K,
    >)
        requires
            old(self).inv(),
            call_requires(generate_random_key, ()),
        ensures
            final(self).inv(),
            final(self).spec_expiry() == old(self).spec_expiry(),
            final(self).spec_latest() >= old(self).spec_latest(),
            has_id(old(self)@, value.spec_id()) ==> ({
                let j = id_pos(old(self)@, value.spec_id());
                &&& r == Some(old(self)@[j].key)
                &&& final(self)@ == old(self)@.remove(j).push(
                    (Record {
                        key: old(self)@[j].key,
                        value: old(self)@[j].value,
                        access: final(self).spec_latest(),
                    }),
                )
            }),
            !has_id(old(self)@, value.spec_id()) ==> (match r {
                Some(k) => {
                    &&& !has_key(old(self)@, k)
                    &&& call_ensures(generate_random_key, (), k)
                    &&& final(self)@ == old(self)@.push(
                        (Record { key: k, value, access: final(self).spec_latest() }),
                    )
                },
                None => *final(self) == *old(self),
            }),
            (forall|k: K|
                call_ensures(generate_random_key, (), k) ==> !has_key(old(self)@, k))
                ==> r is Some,
    {
        let vid = value.id();
        match self.find_id(&vid) {
            Some(p) => {
                let k: K = self.value_ids[p].1.dup();
                let ghost pre = *self;
                let ghost j = choose|j: int|
                    0 <= j < pre@.len() && (#[trigger] pre@[j]).key == pre.value_ids@[p as int].1
                        && pre@[j].value.spec_id() == pre.value_ids@[p as int].0;
                proof {
                    assert(pre.entry_live(p as int));
                    assert(0 <= j < pre@.len() && pre@[j].key == k && pre@[j].value.spec_id()
                        == vid);
                    pre.lemma_at_id_pos(j);
                    pre.cache.lemma_keys_distinct();
                    assert(has_key(pre@, k));
                    let j2 = key_pos(pre@, k);
                    assert(0 <= j2 < pre@.len() && pre@[j2].key == k);
                    if j2 != j {
                        assert(pre@[j2].key != pre@[j].key);
                    }
                    assert(key_pos(pre@, k) == j);
                }
                match self.cache.fetch(&k) {
                    Some(_) => {
                        proof {
                            self.lemma_inv_after_touch(pre, j, self.cache.spec_latest());
                        }
                        Some(k)
                    },
                    None => {
                        // never reached: the index only lists live keys
                        proof {
                            assert(false);
                        }
                        None
                    },
                }
            },
            None => {
                proof {
                    if has_id(self@, value.spec_id()) {
                        let j = id_pos(self@, value.spec_id());
                        assert(0 <= j < self@.len() && self@[j].value.spec_id()
                            == value.spec_id());
                        assert(self.listed(j));
                    }
                }
                let ghost pre = *self;
                match self.cache.insert_new(generate_random_key, value) {
                    None => None,
                    Some(k) => {
                        let kd: K = k.dup();
                        self.value_ids.push((vid, kd));
                        proof {
                            self.lemma_inv_after_fresh(pre, k, vid);
                        }
                        Some(k)
                    },
                }
            },
        }
    }

    /// After a fresh entry of key `k` and identity `vid` was appended and
    /// put on the index, the invariant holds again.
    proof fn lemma_inv_after_fresh(&self, pre: Self, k: K, vid: <V as Key>::K)
        requires
            pre.inv(),
            self.cache.inv(),
            forall|i: int| 0 <= i < pre.value_ids@.len() ==> (#[trigger] pre.value_ids@[i]).0
                != vid,
            self@.len() == pre@.len() + 1,
            self@ == pre@.push(
                (Record {
                    key: k,
                    value: self@[self@.len() - 1].value,
                    access: self@[self@.len() - 1].access,
                }),
            ),
            self@[self@.len() - 1].value.spec_id() == vid,
            self.value_ids@ == pre.value_ids@.push((vid, k)),
        ensures
            self.inv(),
    {
        let n = self.value_ids@.len();
        assert forall|i1: int, i2: int|
            0 <= i1 < i2 < n implies self.value_ids@[i1].0 != self.value_ids@[i2].0 by {
            if i2 == n - 1 {
                assert(self.value_ids@[i1] == pre.value_ids@[i1]);
            } else {
                assert(self.value_ids@[i1] == pre.value_ids@[i1]);
                assert(self.value_ids@[i2] == pre.value_ids@[i2]);
            }
        }
        assert forall|j: int| 0 <= j < self@.len() implies #[trigger] self.listed(j) by {
            if j == self@.len() - 1 {
                assert(self.value_ids@[n - 1].0 == self@[j].value.spec_id()
                    && self.value_ids@[n - 1].1 == self@[j].key);
            } else {
                assert(self@[j] == pre@[j]);
                assert(pre.listed(j));
                let i = choose|i: int|
                    0 <= i < pre.value_ids@.len() && (#[trigger] pre.value_ids@[i]).0
                        == pre@[j].value.spec_id() && pre.value_ids@[i].1 == pre@[j].key;
                assert(self.value_ids@[i] == pre.value_ids@[i]);
            }
        }
        assert forall|i: int| 0 <= i < n implies #[trigger] self.entry_live(i) by {
            if i == n - 1 {
                assert((#[trigger] self@[self@.len() - 1]).key == self.value_ids@[i].1
                    && self@[self@.len() - 1].value.spec_id() == self.value_ids@[i].0);
            } else {
                assert(pre.entry_live(i));
                let q = choose|q: int|
                    0 <= q < pre@.len() && (#[trigger] pre@[q]).key == pre.value_ids@[i].1
                        && pre@[q].value.spec_id() == pre.value_ids@[i].0;
                assert(self@[q] == pre@[q]);
            }
        }
    }

    /// Evict every expired entry and drop the index entry of each evicted
    /// record's identity.
    pub fn vacuum(&mut self)
        requires
            old(self).inv(),
        ensures
            final(self).inv(),
            final(self).spec_expiry() == old(self).spec_expiry(),
            final(self).spec_latest() >= old(self).spec_latest(),
            final(self)@ == old(self)@.skip(
                expired_prefix_len(
                    old(self)@,
                    final(self).spec_latest(),
                    old(self).spec_expiry(),
                ),
            ),
    {
        let ghost pre = *self;
        proof {
            pre.lemma_ids_distinct();
        }
        let evicted = self.cache.vacuum();
        let ghost m = expired_prefix_len(pre@, self.cache.spec_latest(), pre.spec_expiry());
        let ghost cache_after = self.cache;
        proof {
            pre.cache.lemma_recency();
            tlru::lemma_expired_prefix(pre@, self.cache.spec_latest(), pre.spec_expiry());
            assert(0 <= m <= pre@.len());
            assert(evicted@ == pre@.take(m));
            assert(self@ == pre@.skip(m));
            assert(evicted@.len() == m);
            assert forall|j2: int|
                0 <= j2 < self@.len() implies exists|q: int|
                    0 <= q < pre@.len() && (#[trigger] self@[j2]).key == pre@[q].key
                        && self@[j2].value == pre@[q].value by {
                assert(self@[j2] == pre@[m + j2]);
            }
            self.lemma_records_still_listed(pre);
            assert forall|e: int|
                0 <= e < self.value_ids@.len() implies #[trigger] self.entry_live(e) || (
            exists|q: int|
                0 <= q < evicted@.len() && evicted@[q].value.spec_id()
                    == self.value_ids@[e].0) by {
                assert(pre.entry_live(e));
                let q = choose|q: int|
                    0 <= q < pre@.len() && (#[trigger] pre@[q]).key == pre.value_ids@[e].1
                        && pre@[q].value.spec_id() == pre.value_ids@[e].0;
                if q < m {
                    assert(evicted@[q] == pre@[q]);
                } else {
                    assert(self@[q - m] == pre@[q]);
                    assert(self.entry_live(e));
                }
            }
        }
        let mut i: usize = 0;
        while i < evicted.len()
            invariant
                0 <= i <= evicted@.len(),
                self.cache == cache_after,
                self.cache.inv(),
                self.ids_unique(),
                self.all_listed(),
                evicted@ == pre@.take(m),
                self@ == pre@.skip(m),
                m == evicted@.len(),
                0 <= m <= pre@.len(),
                ids_distinct(pre@),
                forall|e: int|
                    0 <= e < self.value_ids@.len() ==> #[trigger] self.entry_live(e) || (
                    exists|q: int|
                        i <= q < evicted@.len() && evicted@[q].value.spec_id()
                            == self.value_ids@[e].0),
            decreases evicted@.len() - i,
        {
            let vid = evicted[i].value.id();
            proof {
                assert(evicted@[i as int] == pre@[i as int]);
            }
            match self.find_id(&vid) {
                Some(p) => {
                    let ghost mid = *self;
                    self.value_ids.remove(p);
                    proof {
                        assert(self@ == mid@);
                        assert forall|j2: int|
                            0 <= j2 < mid@.len() implies (#[trigger] mid@[j2]).value.spec_id()
                            != mid.value_ids@[p as int].0 by {
                            assert(mid@[j2] == pre@[m + j2]);
                            assert(pre@[i as int].value.spec_id() != pre@[m
                                + j2].value.spec_id());
                        }
                        self.lemma_unlist(mid, p as int);
                        assert forall|e: int|
                            0 <= e < self.value_ids@.len() implies #[trigger] self.entry_live(e)
                            || (exists|q: int|
                            i + 1 <= q < evicted@.len() && evicted@[q].value.spec_id()
                                == self.value_ids@[e].0) by {
                            let ep: int = if e < p {
                                e
                            } else {
                                e + 1
                            };
                            assert(self.value_ids@[e] == mid.value_ids@[ep]);
                            if mid.entry_live(ep) {
                                let q = choose|q: int|
                                    0 <= q < mid@.len() && (#[trigger] mid@[q]).key
                                        == mid.value_ids@[ep].1 && mid@[q].value.spec_id()
                                        == mid.value_ids@[ep].0;
                                assert(self.entry_live(e));
                            } else {
                                let q = choose|q: int|
                                    i <= q < evicted@.len() && evicted@[q].value.spec_id()
                                        == mid.value_ids@[ep].0;
                                assert(q != i) by {
                                    if q == i {
                                        assert(mid.value_ids@[ep].0 == vid);
                                        assert(mid.value_ids@[p as int].0 == vid);
                                        assert(ep == p as int);
                                    }
                                }
                            }
                        }
                    }
                },
                None => {
                    proof {
                        assert forall|e: int|
                            0 <= e < self.value_ids@.len() implies #[trigger] self.entry_live(e)
                            || (exists|q: int|
                            i + 1 <= q < evicted@.len() && evicted@[q].value.spec_id()
                                == self.value_ids@[e].0) by {
                            if !self.entry_live(e) {
                                let q = choose|q: int|
                                    i <= q < evicted@.len() && evicted@[q].value.spec_id()
                                        == self.value_ids@[e].0;
                                assert(q != i) by {
                                    if q == i {
                                        assert(self.value_ids@[e].0 == vid);
                                    }
                                }
                            }
                        }
                    }
                },
            }
            i = i + 1;
        }
        proof {
            assert(self.all_live());
        }
    }

    /// The recency ordering: stamps are non-decreasing front to back, and
    /// none exceeds the newest stamp.
    pub proof fn lemma_recency(&self)
        requires
            self.inv(),
        ensures
            tlru::sorted_by_access(self@),
            forall|j: int| 0 <= j < self@.len() ==> (#[trigger] self@[j].access)
                <= self.spec_latest(),
    {
        self.cache.lemma_recency();
    }

    /// A touched entry is refreshed: it stands at the tail and carries a
    /// stamp no older than any other entry's.
    pub proof fn lemma_tail_newest(&self)
        requires
            self.inv(),
            self@.len() > 0,
        ensures
            forall|j: int|
                0 <= j < self@.len() ==> (#[trigger] self@[j].access) <= self@[self@.len()
                    - 1].access,
    {
        self.cache.lemma_tail_newest();
    }

    /// A snapshot of the entries, oldest access first.
    pub fn iter(&self) -> (it: Iter<Record<K, V>>)
        requires
            self.inv(),
        ensures
            it@ == self@,
    {
        Iter { iter: self.cache.iter() }
    }
}

/// A front-to-back snapshot of the cache's records.
pub struct Iter<T> {
    iter: tlru::Iter<T>,
}

impl<T> View for Iter<T> {
    type V = Seq<T>;

    closed spec fn view(&self) -> Seq<T> {
        self.iter@
    }
}

impl<T> Iter<T> {
    /// The next record, oldest access first.
    pub fn next(&mut self) -> (r: Option<T>)
        ensures
            old(self)@.len() > 0 ==> r == Some(old(self)@[0]) && final(self)@ == old(
                self,
            )@.drop_first(),
            old(self)@.len() == 0 ==> r is None && final(self)@ == old(self)@,
    {
        self.iter.next()
    }
}

} // verus!
