//! A time-aware, recency-ordered cache.
//!
//! Entries are indexed by key, kept in least-recently-used order, and expired
//! by elapsed time since last access.  The `queue` module holds the ordering
//! structure, `tlru` the cache layer on top of it, and `unique_tlru` a thin
//! layer that deduplicates entries by a caller-defined value identity.
use vstd::prelude::*;

pub mod queue;
pub mod tlru;
pub mod unique_tlru;

verus! {

/// A value that can be duplicated exactly.
///
/// This plays the role that a well-behaved `Clone` plays for unverified code:
/// the copy is equal, in the logic, to the value it was made from.
pub trait Dup: Sized {
    fn dup(&self) -> (r: Self)
        ensures
            r == *self,
    ;
}

/// A value usable as a lookup key: it can be duplicated and compared,
/// and the comparison decides logical equality.
pub trait KeyEq: Dup {
    fn key_eq(&self, other: &Self) -> (r: bool)
        ensures
            r == (*self == *other),
    ;
}

impl Dup for u64 {
    fn dup(&self) -> (r: Self) {
        *self
    }
}

impl KeyEq for u64 {
    fn key_eq(&self, other: &Self) -> (r: bool) {
        *self == *other
    }
}

impl Dup for i32 {
    fn dup(&self) -> (r: Self) {
        *self
    }
}

impl Dup for (i32, i32) {
    fn dup(&self) -> (r: Self) {
        (self.0, self.1)
    }
}

impl KeyEq for i32 {
    fn key_eq(&self, other: &Self) -> (r: bool) {
        *self == *other
    }
}

} // verus!
