//! The cache layer: a key-addressable store with recency tracking and
//! time-based eviction.
//!
//! Every entry sits in the ordering structure; a key index maps each key to
//! the handle of its element.  Insert and fetch move the touched entry to the
//! tail with a fresh stamp, so the sequence of stamps read front to back never
//! decreases, and `vacuum` can stop at the first entry that is not expired.
use vstd::prelude::*;

use crate::queue::Queue;
use crate::{Dup, KeyEq};

verus! {

/// One cache entry: its key, its value, and the stamp of its last access
/// in clock milliseconds.
pub struct Record<K, V> {
    pub key: K,
    pub value: V,
    pub access: u64,
}

impl<K: Dup, V: Dup> Dup for Record<K, V> {
    fn dup(&self) -> (r: Self) {
        Record { key: self.key.dup(), value: self.value.dup(), access: self.access }
    }
}

/// Some record of `s` carries `key`.
pub open spec fn has_key<K, V>(s: Seq<Record<K, V>>, key: K) -> bool {
    exists|j: int| 0 <= j < s.len() && s[j].key == key
}

/// The position of the record of `s` that carries `key`.
pub open spec fn key_pos<K, V>(s: Seq<Record<K, V>>, key: K) -> int {
    choose|j: int| 0 <= j < s.len() && s[j].key == key
}

/// No two records of `s` carry the same key.
pub open spec fn keys_distinct<K, V>(s: Seq<Record<K, V>>) -> bool {
    forall|j1: int, j2: int| 0 <= j1 < j2 < s.len() ==> s[j1].key != s[j2].key
}

/// The stamps of `s` never decrease from front to back.
pub open spec fn sorted_by_access<K, V>(s: Seq<Record<K, V>>) -> bool {
    forall|j1: int, j2: int| 0 <= j1 <= j2 < s.len() ==> s[j1].access <= s[j2].access
}

/// An entry stamped `access` is expired at `now` under `expiry`: its elapsed
/// time reaches the expiry (inclusive).
pub open spec fn expired(access: u64, now: u64, expiry: u64) -> bool {
    now - access >= expiry
}

/// How many leading records of `s` are expired at `now` under `expiry`.
pub open spec fn expired_prefix_len<K, V>(s: Seq<Record<K, V>>, now: u64, expiry: u64) -> int
    decreases s.len(),
{
    if s.len() == 0 {
        0
    } else if expired(s[0].access, now, expiry) {
        1 + expired_prefix_len(s.drop_first(), now, expiry)
    } else {
        0
    }
}

/// On a stamp-sorted sequence the expired records are exactly the leading
/// `expired_prefix_len` ones: everything before that point is expired and
/// nothing from it on is.
pub proof fn lemma_expired_prefix<K, V>(s: Seq<Record<K, V>>, now: u64, expiry: u64)
    requires
        sorted_by_access(s),
    ensures
        0 <= expired_prefix_len(s, now, expiry) <= s.len(),
        forall|j: int|
            0 <= j < expired_prefix_len(s, now, expiry) ==> expired(
                #[trigger] s[j].access,
                now,
                expiry,
            ),
        forall|j: int|
            expired_prefix_len(s, now, expiry) <= j < s.len() ==> !expired(
                #[trigger] s[j].access,
                now,
                expiry,
            ),
    decreases s.len(),
{
    if s.len() == 0 {
    } else if expired(s[0].access, now, expiry) {
        let rest = s.drop_first();
        assert(sorted_by_access(rest)) by {
            assert forall|j1: int, j2: int|
                0 <= j1 <= j2 < rest.len() implies rest[j1].access <= rest[j2].access by {
                assert(rest[j1] == s[j1 + 1]);
                assert(rest[j2] == s[j2 + 1]);
            }
        }
        lemma_expired_prefix(rest, now, expiry);
        let m = expired_prefix_len(s, now, expiry);
        assert forall|j: int| 0 <= j < m implies expired(#[trigger] s[j].access, now, expiry) by {
            if j > 0 {
                assert(rest[j - 1] == s[j]);
            }
        }
        assert forall|j: int| m <= j < s.len() implies !expired(
            #[trigger] s[j].access,
            now,
            expiry,
        ) by {
            assert(rest[j - 1] == s[j]);
        }
    } else {
        assert forall|j: int| 0 <= j < s.len() implies !expired(
            #[trigger] s[j].access,
            now,
            expiry,
        ) by {
            assert(s[0].access <= s[j].access);
        }
    }
}

/// Reads the process-wide clock in milliseconds.
///
/// Relies on mock_instant's `global::MockClock::time`: the reading is
/// whatever that injectable clock has been advanced to, converted to
/// milliseconds.  Nothing is promised of the value: the cache clamps every
/// reading to keep its own stamps monotonic.
#[verifier::external_body]
fn clock_millis() -> u64 {
    mock_instant::global::MockClock::time().as_millis() as u64
}

/// The cache: a fixed expiry, a key index, the recency order, and the
/// highest stamp handed out so far.
pub struct TLRUCache<K, V> {
    expiry: u64,
    store: Vec<(K, usize)>,
    order: Queue<Record<K, V>>,
    latest: u64,
}

impl<K, V> View for TLRUCache<K, V> {
    type V = Seq<Record<K, V>>;

    closed spec fn view(&self) -> Seq<Record<K, V>> {
        self.order@
    }
}

impl<K, V> TLRUCache<K, V> {
    /// The expiry the cache was created with, in milliseconds.
    pub closed spec fn spec_expiry(&self) -> u64 {
        self.expiry
    }

    /// The highest access stamp handed out so far.
    pub closed spec fn spec_latest(&self) -> u64 {
        self.latest
    }

    /// Some index entry holds handle `h`.
    pub closed spec fn indexed(&self, h: usize) -> bool {
        exists|i: int| 0 <= i < self.store@.len() && (#[trigger] self.store@[i]).1 == h
    }

    /// The cache invariant: index and order are in bijection, and the
    /// stamps never decrease from front to back nor exceed `spec_latest`.
    pub closed spec fn inv(&self) -> bool {
        &&& self.order.wf()
        &&& forall|i: int|
            0 <= i < self.store@.len() ==> self.order.linked((#[trigger] self.store@[i]).1)
                && self.order.value_at(self.store@[i].1).key == self.store@[i].0
        &&& forall|i1: int, i2: int|
            0 <= i1 < i2 < self.store@.len() ==> self.store@[i1].0 != self.store@[i2].0
        &&& forall|j: int|
            0 <= j < self.order.handles().len() ==> self.indexed(
                #[trigger] self.order.handles()[j],
            )
        &&& forall|j: int| 0 <= j < self@.len() ==> (#[trigger] self@[j].access) <= self.latest
        &&& sorted_by_access(self@)
    }

    /// Every key appears at most once among the entries.
    pub proof fn lemma_keys_distinct(&self)
        requires
            self.inv(),
        ensures
            keys_distinct(self@),
    {
        self.order.lemma_view();
        self.order.lemma_handles_distinct();
        assert forall|j1: int, j2: int|
            0 <= j1 < j2 < self@.len() implies self@[j1].key != self@[j2].key by {
            let h1 = self.order.handles()[j1];
            let h2 = self.order.handles()[j2];
            assert(self.indexed(h1));
            assert(self.indexed(h2));
            let i1 = choose|i: int| 0 <= i < self.store@.len() && (#[trigger] self.store@[i]).1
                == h1;
            let i2 = choose|i: int| 0 <= i < self.store@.len() && (#[trigger] self.store@[i]).1
                == h2;
            assert(self@[j1] == self.order.value_at(h1));
            assert(self@[j2] == self.order.value_at(h2));
            if self@[j1].key == self@[j2].key {
                assert(self.store@[i1].0 == self.store@[i2].0);
                assert(i1 == i2);
                assert(h1 == h2);
            }
        }
    }

    /// The recency ordering: stamps are non-decreasing front to back, and
    /// none exceeds the newest stamp.
    pub proof fn lemma_recency(&self)
        requires
            self.inv(),
        ensures
            sorted_by_access(self@),
            forall|j: int| 0 <= j < self@.len() ==> (#[trigger] self@[j].access)
                <= self.spec_latest(),
    {
    }

    /// A touched entry is refreshed: it stands at the tail and carries a
    /// stamp no older than any other entry's.
    pub proof fn lemma_tail_newest(&self)
        requires
            self.inv(),
            self@.len() > 0,
        ensures
            forall|j: int|
                0 <= j < self@.len() ==> (#[trigger] self@[j].access) <= self@[self@.len()
                    - 1].access,
    {
    }

    /// An index entry's key is carried by some entry of the view.
    proof fn lemma_entry_has_key(&self, i: int)
        requires
            self.inv(),
            0 <= i < self.store@.len(),
        ensures
            has_key(self@, self.store@[i].0),
    {
        self.order.lemma_view();
        let h = self.store@[i].1;
        assert(self.order.linked(h));
        let q = self.order.handles().index_of(h);
        assert(self.order.handles().contains(h));
        assert(0 <= q < self.order.handles().len() && self.order.handles()[q] == h);
        assert(self@[q] == self.order.value_at(h));
        assert(self@[q].key == self.store@[i].0);
    }

    /// Any record that carries `key` stands exactly at `key_pos`.
    proof fn lemma_at_key_pos(&self, j: int)
        requires
            self.inv(),
            0 <= j < self@.len(),
        ensures
            has_key(self@, self@[j].key),
            key_pos(self@, self@[j].key) == j,
    {
        self.lemma_keys_distinct();
        assert(0 <= j < self@.len() && self@[j].key == self@[j].key);
        let j2 = key_pos(self@, self@[j].key);
        if j2 != j {
            assert(self@[j2].key == self@[j].key);
        }
    }
}

impl<K: KeyEq, V: Dup> TLRUCache<K, V> {
    /// An empty cache that expires entries `expiry` milliseconds after
    /// their last access.
    pub fn new(expiry: u64) -> (c: Self)
        ensures
            c.inv(),
            c@ == Seq::<Record<K, V>>::empty(),
            c.spec_expiry() == expiry,
            c.spec_latest() == 0,
    {
        TLRUCache { expiry, store: Vec::new(), order: Queue::new(), latest: 0 }
    }

    /// A clock reading no older than any stamp handed out so far.
    fn read_now(&self) -> (t: u64)
        ensures
            t >= self.spec_latest(),
    {
        let c: u64 = clock_millis();
        if c < self.latest {
            self.latest
        } else {
            c
        }
    }

    /// The index entry carrying `key`, if any.
    fn find(&self, key: &K) -> (r: Option<usize>)
        requires
            self.inv(),
        ensures
            match r {
                Some(i) => i < self.store@.len() && self.store@[i as int].0 == *key,
                None => !has_key(self@, *key) && forall|i: int|
                    0 <= i < self.store@.len() ==> (#[trigger] self.store@[i]).0 != *key,
            },
    {
        let mut i: usize = 0;
        while i < self.store.len()
            invariant
                self.inv(),
                0 <= i <= self.store@.len(),
                forall|i2: int| 0 <= i2 < i ==> (#[trigger] self.store@[i2]).0 != *key,
            decreases self.store@.len() - i,
        {
            if self.store[i].0.key_eq(key) {
                return Some(i);
            }
            i = i + 1;
        }
        proof {
            self.order.lemma_view();
            assert forall|j: int| 0 <= j < self@.len() implies (#[trigger] self@[j]).key
                != *key by {
                let h = self.order.handles()[j];
                assert(self.indexed(h));
                let i2 = choose|i2: int|
                    0 <= i2 < self.store@.len() && (#[trigger] self.store@[i2]).1 == h;
                assert(self@[j] == self.order.value_at(h));
                assert(self.store@[i2].0 != *key);
            }
        }
        None
    }

    /// Move the entry of index slot `i` to the tail with a fresh stamp and
    /// the given value.
    fn touch(&mut self, i: usize, value: V)
        requires
            old(self).inv(),
            i < old(self).store@.len(),
        ensures
            final(self).inv(),
            final(self).spec_expiry() == old(self).spec_expiry(),
            final(self).spec_latest() >= old(self).spec_latest(),
            final(self).store@.map_values(|e: (K, usize)| e.0) == old(self).store@.map_values(
                |e: (K, usize)| e.0,
            ),
            has_key(old(self)@, old(self).store@[i as int].0),
            final(self)@ == old(self)@.remove(key_pos(old(self)@, old(self).store@[i as int].0)).push(
                (Record {
                    key: old(self).store@[i as int].0,
                    value,
                    access: final(self).spec_latest(),
                }),
            ),
    {
        let h: usize = self.store[i].1;
        let kd: K = self.store[i].0.dup();
        let t: u64 = self.read_now();
        self.latest = t;
        let ghost pre = *self;
        let ghost hs0 = self.order.handles();
        let ghost p = self.order.pos_of(h);
        proof {
            self.order.lemma_view();
            assert(self.order.linked(h));
            assert(0 <= p < hs0.len() && hs0[p] == h);
            assert(self@[p] == self.order.value_at(h));
            self.lemma_at_key_pos(p);
        }
        self.order.remove(h);
        self.order.set_value(h, Record { key: kd, value, access: t });
        self.order.push_node(h);
        proof {
            let hs1 = self.order.handles();
            assert(hs1 == hs0.remove(p).push(h));
            assert(self@ == pre@.remove(p).push(
                Record { key: pre.store@[i as int].0, value, access: t },
            ));
            self.lemma_restore_after_move(pre, i as int, p, h, t);
        }
    }

    /// Re-establish the invariant after an entry was moved to the tail.
    proof fn lemma_restore_after_move(&self, pre: Self, i: int, p: int, h: usize, t: u64)
        requires
            pre.inv(),
            0 <= i < pre.store@.len(),
            pre.store@[i].1 == h,
            0 <= p < pre.order.handles().len(),
            pre.order.handles()[p] == h,
            t >= pre.latest,
            self.latest == t,
            self.expiry == pre.expiry,
            self.store@ == pre.store@,
            self.order.wf(),
            self.order.handles() == pre.order.handles().remove(p).push(h),
            forall|x: usize|
                pre.order.live(x) && x != h ==> self.order.live(x) && self.order.value_at(x)
                    == pre.order.value_at(x),
            self.order.live(h),
            self.order.value_at(h).key == pre.store@[i].0,
            self.order.value_at(h).access == t,
            self@ == pre@.remove(p).push(
                (Record { key: pre.store@[i].0, value: self.order.value_at(h).value, access: t }),
            ),
        ensures
            self.inv(),
    {
        let hs0 = pre.order.handles();
        let hs1 = self.order.handles();
        pre.order.lemma_view();
        self.order.lemma_view();
        pre.order.lemma_handles_distinct();
        self.order.lemma_handles_distinct();
        assert forall|i2: int|
            0 <= i2 < self.store@.len() implies self.order.linked(
            (#[trigger] self.store@[i2]).1,
        ) && self.order.value_at(self.store@[i2].1).key == self.store@[i2].0 by {
            let x = pre.store@[i2].1;
            assert(pre.order.linked(x));
            pre.order.lemma_linked_live(x);
            if x == h {
                assert(hs1[hs1.len() - 1] == h);
                assert(hs1.contains(h));
                assert(pre.store@[i2].0 == pre.store@[i].0) by {
                    assert(pre.order.value_at(x).key == pre.store@[i2].0);
                    assert(pre.order.value_at(h).key == pre.store@[i].0);
                }
            } else {
                let q = hs0.index_of(x);
                assert(hs0.contains(x));
                assert(0 <= q < hs0.len() && hs0[q] == x);
                assert(q != p);
                if q < p {
                    assert(hs1[q] == hs0.remove(p)[q]);
                    assert(hs0.remove(p)[q] == hs0[q]);
                } else {
                    assert(hs1[q - 1] == hs0.remove(p)[q - 1]);
                    assert(hs0.remove(p)[q - 1] == hs0[q]);
                }
                assert(hs1.contains(x));
            }
        }
        assert forall|j: int| 0 <= j < hs1.len() implies self.indexed(#[trigger] hs1[j]) by {
            if j == hs1.len() - 1 {
                assert(hs1[j] == h);
                assert((#[trigger] self.store@[i]).1 == h);
            } else {
                let q: int = if j < p {
                    j
                } else {
                    j + 1
                };
                assert(hs1[j] == hs0.remove(p)[j]);
                assert(hs0.remove(p)[j] == hs0[q]);
                assert(pre.indexed(hs0[q]));
                let i2 = choose|i2: int|
                    0 <= i2 < pre.store@.len() && (#[trigger] pre.store@[i2]).1 == hs0[q];
                assert((#[trigger] self.store@[i2]).1 == hs1[j]);
            }
        }
        assert forall|j: int| 0 <= j < self@.len() implies (#[trigger] self@[j].access)
            <= self.latest by {
            if j < self@.len() - 1 {
                let q: int = if j < p {
                    j
                } else {
                    j + 1
                };
                assert(self@[j] == pre@.remove(p)[j]);
                assert(pre@.remove(p)[j] == pre@[q]);
                assert(pre@[q].access <= pre.latest);
            }
        }
        assert(sorted_by_access(self@)) by {
            assert forall|j1: int, j2: int|
                0 <= j1 <= j2 < self@.len() implies self@[j1].access <= self@[j2].access by {
                let q1: int = if j1 < p {
                    j1
                } else {
                    j1 + 1
                };
                let q2: int = if j2 < p {
                    j2
                } else {
                    j2 + 1
                };
                if j1 < self@.len() - 1 {
                    assert(self@[j1] == pre@.remove(p)[j1]);
                    assert(pre@.remove(p)[j1] == pre@[q1]);
                    assert(pre@[q1].access <= pre.latest);
                }
                if j2 < self@.len() - 1 {
                    assert(self@[j2] == pre@.remove(p)[j2]);
                    assert(pre@.remove(p)[j2] == pre@[q2]);
                    assert(pre@[q1].access <= pre@[q2].access);
                }
            }
        }
    }

    /// Append a record under a key that is not yet present.
    fn append_fresh(&mut self, key: K, value: V)
        requires
            old(self).inv(),
            forall|i: int| 0 <= i < old(self).store@.len() ==> (#[trigger] old(self).store@[i]).0
                != key,
        ensures
            final(self).inv(),
            final(self).spec_expiry() == old(self).spec_expiry(),
            final(self).spec_latest() >= old(self).spec_latest(),
            final(self)@ == old(self)@.push(
                (Record { key, value, access: final(self).spec_latest() }),
            ),
    {
        let t: u64 = self.read_now();
        self.latest = t;
        let kd: K = key.dup();
        let ghost pre = *self;
        let h: usize = self.order.push(Record { key, value, access: t });
        self.store.push((kd, h));
        proof {
            let hs0 = pre.order.handles();
            let hs1 = self.order.handles();
            pre.order.lemma_view();
            self.order.lemma_view();
            pre.order.lemma_handles_distinct();
            self.order.lemma_handles_distinct();
            assert forall|i2: int|
                0 <= i2 < self.store@.len() implies self.order.linked(
                (#[trigger] self.store@[i2]).1,
            ) && self.order.value_at(self.store@[i2].1).key == self.store@[i2].0 by {
                if i2 < pre.store@.len() {
                    let x = pre.store@[i2].1;
                    assert(pre.order.linked(x));
                    pre.order.lemma_linked_live(x);
                    let q = hs0.index_of(x);
                    assert(hs0.contains(x));
                    assert(0 <= q < hs0.len() && hs0[q] == x);
                    assert(hs1[q] == x);
                    assert(hs1.contains(x));
                } else {
                    assert(self.store@[i2].1 == h);
                    assert(hs1[hs1.len() - 1] == h);
                    assert(hs1.contains(h));
                }
            }
            assert forall|i1: int, i2: int|
                0 <= i1 < i2 < self.store@.len() implies self.store@[i1].0
                != self.store@[i2].0 by {
                if i2 == self.store@.len() - 1 {
                    assert(pre.store@[i1].0 != key);
                }
            }
            assert forall|j: int| 0 <= j < hs1.len() implies self.indexed(#[trigger] hs1[j]) by {
                if j == hs1.len() - 1 {
                    assert((#[trigger] self.store@[self.store@.len() - 1]).1 == h);
                    assert(hs1[j] == h);
                } else {
                    assert(hs1[j] == hs0[j]);
                    assert(pre.indexed(hs0[j]));
                    let i2 = choose|i2: int|
                        0 <= i2 < pre.store@.len() && (#[trigger] pre.store@[i2]).1 == hs0[j];
                    assert((#[trigger] self.store@[i2]).1 == hs1[j]);
                }
            }
            assert forall|j: int| 0 <= j < self@.len() implies (#[trigger] self@[j].access)
                <= self.latest by {
                if j < self@.len() - 1 {
                    assert(self@[j] == pre@[j]);
                    assert(pre@[j].access <= pre.latest);
                }
            }
            assert(sorted_by_access(self@)) by {
                assert forall|j1: int, j2: int|
                    0 <= j1 <= j2 < self@.len() implies self@[j1].access <= self@[j2].access by {
                    if j1 < self@.len() - 1 {
                        assert(self@[j1] == pre@[j1]);
                        assert(pre@[j1].access <= pre.latest);
                    }
                    if j2 < self@.len() - 1 {
                        assert(self@[j2] == pre@[j2]);
                        assert(pre@[j1].access <= pre@[j2].access);
                    }
                }
            }
        }
    }

    /// Insert `value` under `key`: a fresh entry is appended at the tail; an
    /// existing entry has its value overwritten, its stamp refreshed, and is
    /// moved to the tail.
    pub fn insert(&mut self, key: &K, value: V)
        requires
            old(self).inv(),
        ensures
            final(self).inv(),
            final(self).spec_expiry() == old(self).spec_expiry(),
            final(self).spec_latest() >= old(self).spec_latest(),
            !has_key(old(self)@, *key) ==> final(self)@ == old(self)@.push(
                (Record { key: *key, value, access: final(self).spec_latest() }),
            ),
            has_key(old(self)@, *key) ==> final(self)@ == old(self)@.remove(
                key_pos(old(self)@, *key),
            ).push((Record { key: *key, value, access: final(self).spec_latest() })),
    {
        match self.find(key) {
            None => {
                let kd: K = key.dup();
                self.append_fresh(kd, value);
            },
            Some(i) => {
                self.touch(i, value);
            },
        }
    }

    /// The value under `key`, with the entry's stamp refreshed and the entry
    /// moved to the tail; absent keys are reported as such and leave the
    /// cache untouched.
    pub fn fetch(&mut self, key: &K) -> (r: Option<V>)
        requires
            old(self).inv(),
        ensures
            final(self).inv(),
            final(self).spec_expiry() == old(self).spec_expiry(),
            final(self).spec_latest() >= old(self).spec_latest(),
            !has_key(old(self)@, *key) ==> r is None && *final(self) == *old(self),
            has_key(old(self)@, *key) ==> {
                let j = key_pos(old(self)@, *key);
                &&& r == Some(old(self)@[j].value)
                &&& final(self)@ == old(self)@.remove(j).push(
                    (Record {
                        key: *key,
                        value: old(self)@[j].value,
                        access: final(self).spec_latest(),
                    }),
                )
            },
    {
        match self.find(key) {
            None => None,
            Some(i) => {
                let h: usize = self.store[i].1;
                proof {
                    assert(self.order.linked(h));
                    self.order.lemma_linked_live(h);
                }
                let v: V = self.order.get(h).value.dup();
                let v2: V = v.dup();
                proof {
                    self.order.lemma_view();
                    let p = self.order.pos_of(h);
                    assert(self.order.handles().contains(h));
                    assert(self@[p] == self.order.value_at(h));
                    self.lemma_at_key_pos(p);
                }
                self.touch(i, v2);
                Some(v)
            },
        }
    }

    /// Remove the entry under `key` from both the index and the order,
    /// returning its value; absent keys leave the cache untouched.
    pub fn remove(&mut self, key: &K) -> (r: Option<V>)
        requires
            old(self).inv(),
        ensures
            final(self).inv(),
            final(self).spec_expiry() == old(self).spec_expiry(),
            final(self).spec_latest() == old(self).spec_latest(),
            !has_key(old(self)@, *key) ==> r is None && *final(self) == *old(self),
            has_key(old(self)@, *key) ==> {
                let j = key_pos(old(self)@, *key);
                &&& r == Some(old(self)@[j].value)
                &&& final(self)@ == old(self)@.remove(j)
            },
    {
        match self.find(key) {
            None => None,
            Some(i) => {
                let h: usize = self.store[i].1;
                let ghost pre = *self;
                let ghost hs0 = self.order.handles();
                let ghost p = self.order.pos_of(h);
                proof {
                    self.order.lemma_view();
                    assert(self.order.linked(h));
                    assert(0 <= p < hs0.len() && hs0[p] == h);
                    assert(self@[p] == self.order.value_at(h));
                    self.lemma_at_key_pos(p);
                }
                self.store.remove(i);
                self.order.remove(h);
                let rec = self.order.take(h);
                proof {
                    self.lemma_restore_after_delete(pre, i as int, p, h);
                }
                Some(rec.value)
            },
        }
    }

    /// Re-establish the invariant after the entry of index slot `i` (at
    /// order position `p`, handle `h`) was deleted outright.
    proof fn lemma_restore_after_delete(&self, pre: Self, i: int, p: int, h: usize)
        requires
            pre.inv(),
            0 <= i < pre.store@.len(),
            pre.store@[i].1 == h,
            0 <= p < pre.order.handles().len(),
            pre.order.handles()[p] == h,
            self.latest == pre.latest,
            self.expiry == pre.expiry,
            self.store@ == pre.store@.remove(i),
            self.order.wf(),
            self.order.handles() == pre.order.handles().remove(p),
            forall|x: usize|
                pre.order.live(x) && x != h ==> self.order.live(x) && self.order.value_at(x)
                    == pre.order.value_at(x),
            self@ == pre@.remove(p),
        ensures
            self.inv(),
    {
        let hs0 = pre.order.handles();
        let hs1 = self.order.handles();
        pre.order.lemma_view();
        self.order.lemma_view();
        pre.order.lemma_handles_distinct();
        self.order.lemma_handles_distinct();
        assert forall|i2: int|
            0 <= i2 < self.store@.len() implies self.order.linked(
            (#[trigger] self.store@[i2]).1,
        ) && self.order.value_at(self.store@[i2].1).key == self.store@[i2].0 by {
            let iq: int = if i2 < i {
                i2
            } else {
                i2 + 1
            };
            assert(self.store@[i2] == pre.store@[iq]);
            let x = pre.store@[iq].1;
            assert(pre.order.linked(x));
            pre.order.lemma_linked_live(x);
            assert(x != h) by {
                if x == h {
                    assert(pre.order.value_at(h).key == pre.store@[iq].0);
                    assert(pre.order.value_at(h).key == pre.store@[i].0);
                }
            }
            let q = hs0.index_of(x);
            assert(hs0.contains(x));
            assert(0 <= q < hs0.len() && hs0[q] == x);
            assert(q != p);
            if q < p {
                assert(hs1[q] == hs0[q]);
            } else {
                assert(hs1[q - 1] == hs0[q]);
            }
            assert(hs1.contains(x));
        }
        assert forall|i1: int, i2: int|
            0 <= i1 < i2 < self.store@.len() implies self.store@[i1].0 != self.store@[i2].0 by {
            let q1: int = if i1 < i {
                i1
            } else {
                i1 + 1
            };
            let q2: int = if i2 < i {
                i2
            } else {
                i2 + 1
            };
            assert(self.store@[i1] == pre.store@[q1]);
            assert(self.store@[i2] == pre.store@[q2]);
        }
        assert forall|j: int| 0 <= j < hs1.len() implies self.indexed(#[trigger] hs1[j]) by {
            let q: int = if j < p {
                j
            } else {
                j + 1
            };
            assert(hs1[j] == hs0[q]);
            assert(pre.indexed(hs0[q]));
            let i2 = choose|i2: int|
                0 <= i2 < pre.store@.len() && (#[trigger] pre.store@[i2]).1 == hs0[q];
            assert(i2 != i) by {
                if i2 == i {
                    assert(hs0[q] == h);
                    assert(hs0[p] == h);
                }
            }
            if i2 < i {
                assert((#[trigger] self.store@[i2]) == pre.store@[i2]);
                assert(self.store@[i2].1 == hs1[j]);
            } else {
                assert((#[trigger] self.store@[i2 - 1]) == pre.store@[i2]);
                assert(self.store@[i2 - 1].1 == hs1[j]);
            }
        }
        assert forall|j: int| 0 <= j < self@.len() implies (#[trigger] self@[j].access)
            <= self.latest by {
            let q: int = if j < p {
                j
            } else {
                j + 1
            };
            assert(self@[j] == pre@[q]);
            assert(pre@[q].access <= pre.latest);
        }
        assert(sorted_by_access(self@)) by {
            assert forall|j1: int, j2: int|
                0 <= j1 <= j2 < self@.len() implies self@[j1].access <= self@[j2].access by {
                let q1: int = if j1 < p {
                    j1
                } else {
                    j1 + 1
                };
                let q2: int = if j2 < p {
                    j2
                } else {
                    j2 + 1
                };
                assert(self@[j1] == pre@[q1]);
                assert(self@[j2] == pre@[q2]);
                assert(pre@[q1].access <= pre@[q2].access);
            }
        }
    }

    /// A key the generator produced that is not yet present, found by
    /// retrying on collisions; gives up only if a vast retry budget is
    /// exhausted without finding one.  With a generator that can only yield
    /// keys not yet present, the very first draw succeeds.
    fn fresh_key<KF: Fn() -> K>(&self, generate_random_key: KF) -> (r: Option<K>)
        requires
            self.inv(),
            call_requires(generate_random_key, ()),
        ensures
            match r {
                Some(k) => {
                    &&& !has_key(self@, k)
                    &&& forall|i: int|
                        0 <= i < self.store@.len() ==> (#[trigger] self.store@[i]).0 != k
                    &&& call_ensures(generate_random_key, (), k)
                },
                None => true,
            },
            (forall|k: K|
                call_ensures(generate_random_key, (), k) ==> !has_key(self@, k)) ==> r is Some,
    {
        let mut tries: u64 = u64::MAX;
        loop
            invariant
                self.inv(),
                call_requires(generate_random_key, ()),
            decreases tries,
        {
            let key = generate_random_key();
            match self.find(&key) {
                None => {
                    return Some(key);
                },
                Some(i) => {
                    proof {
                        // the drawn key is present, so the generator can
                        // yield a key that is not fresh
                        self.lemma_entry_has_key(i as int);
                    }
                },
            }
            if tries == 0 {
                return None;
            }
            tries = tries - 1;
        }
    }

    /// Insert `value` under a key drawn from the generator until one not yet
    /// present comes up; the new entry is appended at the tail and its key
    /// returned.  Existing entries are never consulted or refreshed.  The
    /// result is absent only if the vast retry budget found no fresh key,
    /// which cannot happen with a generator that only yields fresh keys.
    pub fn insert_new<KF: Fn() -> K>(&mut self, generate_random_key: KF, value: V) -> (r: Option<
        K,
    >)
        requires
            old(self).inv(),
            call_requires(generate_random_key, ()),
        ensures
            final(self).inv(),
            final(self).spec_expiry() == old(self).spec_expiry(),
            final(self).spec_latest() >= old(self).spec_latest(),
            match r {
                Some(k) => {
                    &&& !has_key(old(self)@, k)
                    &&& call_ensures(generate_random_key, (), k)
                    &&& final(self)@ == old(self)@.push(
                        (Record { key: k, value, access: final(self).spec_latest() }),
                    )
                },
                None => *final(self) == *old(self),
            },
            (forall|k: K|
                call_ensures(generate_random_key, (), k) ==> !has_key(old(self)@, k))
                ==> r is Some,
    {
        match self.fresh_key(generate_random_key) {
            None => None,
            Some(key) => {
                let kd: K = key.dup();
                self.append_fresh(key, value);
                Some(kd)
            },
        }
    }

    /// Whether the front entry exists and is expired at `t`.
    fn front_expired(&self, t: u64) -> (r: bool)
        requires
            self.inv(),
            t >= self.spec_latest(),
        ensures
            r == (self@.len() > 0 && expired(self@[0].access, t, self.spec_expiry())),
    {
        match self.order.peek() {
            None => false,
            Some(rec) => {
                proof {
                    assert(self@[0].access <= self.latest);
                }
                t - rec.access >= self.expiry
            },
        }
    }

    /// Evict every expired entry from the front, stopping at the first entry
    /// that is not expired; the evicted records are returned front first.
    pub fn vacuum(&mut self) -> (evicted: Vec<Record<K, V>>)
        requires
            old(self).inv(),
        ensures
            final(self).inv(),
            final(self).spec_expiry() == old(self).spec_expiry(),
            final(self).spec_latest() >= old(self).spec_latest(),
            ({
                let m = expired_prefix_len(
                    old(self)@,
                    final(self).spec_latest(),
                    old(self).spec_expiry(),
                );
                &&& evicted@ == old(self)@.take(m)
                &&& final(self)@ == old(self)@.skip(m)
            }),
    {
        let t: u64 = self.read_now();
        self.latest = t;
        proof {
            assert(self.order == old(self).order);
            assert(self.store == old(self).store);
            assert(self@ == old(self)@);
            assert forall|j: int| 0 <= j < self@.len() implies (#[trigger] self@[j].access)
                <= self.latest by {
                assert(old(self)@[j].access <= old(self).latest);
            }
            assert(self.inv());
        }
        let ghost v0 = self@;
        let ghost e = self.spec_expiry();
        let mut evicted: Vec<Record<K, V>> = Vec::new();
        while self.front_expired(t)
            invariant
                self.inv(),
                self.spec_latest() == t,
                self.spec_expiry() == e,
                v0 == evicted@ + self@,
                expired_prefix_len(v0, t, e) == evicted@.len() + expired_prefix_len(self@, t, e),
            decreases self@.len(),
        {
            let ghost pre = *self;
            let ghost hs0 = self.order.handles();
            proof {
                self.order.lemma_view();
                self.lemma_keys_distinct();
                assert(self@[0].key == self@[0].key);
                assert(has_key(self@, self@[0].key));
            }
            let i: usize = match self.order.peek() {
                Some(rec) => {
                    match self.find(&rec.key) {
                        Some(i) => i,
                        None => unreached(),
                    }
                },
                None => unreached(),
            };
            proof {
                // the entry under the front key sits at the front
                let x = pre.store@[i as int].1;
                assert(pre.order.linked(x));
                pre.order.lemma_linked_live(x);
                let q = hs0.index_of(x);
                assert(hs0.contains(x));
                assert(0 <= q < hs0.len() && hs0[q] == x);
                assert(pre@[q] == pre.order.value_at(x));
                assert(pre@[q].key == pre.store@[i as int].0);
                if q != 0 {
                    assert(pre@[0].key != pre@[q].key);
                    assert(false);
                }
                assert(pre.store@[i as int].1 == hs0[0]);
            }
            self.store.remove(i);
            let rec = match self.order.pop_node() {
                Some(r) => r,
                None => unreached(),
            };
            evicted.push(rec);
            proof {
                assert(hs0.drop_first() =~= hs0.remove(0));
                assert(pre@.drop_first() =~= pre@.remove(0));
                self.lemma_restore_after_delete(pre, i as int, 0, hs0[0]);
                assert(expired(pre@[0].access, t, e));
                assert(expired_prefix_len(pre@, t, e) == 1 + expired_prefix_len(
                    pre@.drop_first(),
                    t,
                    e,
                ));
                assert(v0 =~= evicted@ + self@);
            }
        }
        proof {
            assert(expired_prefix_len(self@, t, e) == 0);
            assert(expired_prefix_len(v0, t, e) == evicted@.len());
            assert(v0 == old(self)@);
            assert(evicted@ =~= v0.take(evicted@.len() as int));
            assert(self@ =~= v0.skip(evicted@.len() as int));
        }
        evicted
    }

    /// A snapshot of the entries, oldest access first.
    pub fn iter(&self) -> (it: Iter<Record<K, V>>)
        requires
            self.inv(),
        ensures
            it@ == self@,
    {
        Iter { iter: self.order.iter() }
    }
}

/// A front-to-back snapshot of a cache's records.
pub struct Iter<T> {
    iter: crate::queue::Iter<T>,
}

impl<T> View for Iter<T> {
    type V = Seq<T>;

    closed spec fn view(&self) -> Seq<T> {
        self.iter@
    }
}

impl<T> Iter<T> {
    /// The next record, oldest access first.
    pub fn next(&mut self) -> (r: Option<T>)
        ensures
            old(self)@.len() > 0 ==> r == Some(old(self)@[0]) && final(self)@ == old(
                self,
            )@.drop_first(),
            old(self)@.len() == 0 ==> r is None && final(self)@ == old(self)@,
    {
        self.iter.next()
    }
}

} // verus!
