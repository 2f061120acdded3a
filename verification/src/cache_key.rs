//! What the cache asks of the payloads and keys it stores.
//!
//! Containers hold caller-supplied values and hand copies of them back. The
//! two traits below state, as contracts, exactly what the containers rely on:
//! a copy does not change a value's abstract view, and key equality decides
//! equality of abstract views.
use vstd::prelude::*;

verus! {

/// A payload the cache can hold: it can be duplicated without changing its
/// abstract value.
pub trait CacheValue: View + Sized {
    /// An exact copy of the value, equal at the abstract level.
    fn dup(&self) -> (r: Self)
        ensures
            r@ == self@,
    ;
}

/// A value the cache can key entries by: duplication plus decidable equality
/// of abstract values.
pub trait CacheKey: CacheValue {
    /// Decides whether the two keys denote the same abstract value.
    fn key_eq(&self, other: &Self) -> (r: bool)
        ensures
            r <==> (self@ == other@),
    ;
}

impl CacheValue for String {
    fn dup(&self) -> (r: Self) {
        self.clone()
    }
}

impl CacheKey for String {
    fn key_eq(&self, other: &Self) -> (r: bool) {
        self.eq(other)
    }
}

impl CacheValue for u64 {
    fn dup(&self) -> (r: Self) {
        *self
    }
}

impl CacheKey for u64 {
    fn key_eq(&self, other: &Self) -> (r: bool) {
        *self == *other
    }
}

impl CacheValue for i32 {
    fn dup(&self) -> (r: Self) {
        *self
    }
}

impl CacheKey for i32 {
    fn key_eq(&self, other: &Self) -> (r: bool) {
        *self == *other
    }
}

impl CacheValue for () {
    fn dup(&self) -> (r: Self) {
    }
}

/// The abstract values of a run of values.
pub open spec fn views_of<T: View>(s: Seq<T>) -> Seq<T::V> {
    Seq::new(s.len(), |i: int| s[i]@)
}

/// The abstract value of an optional payload.
pub open spec fn opt_view<V: View>(o: Option<V>) -> Option<V::V> {
    match o {
        Option::Some(v) => Option::Some(v@),
        Option::None => Option::None,
    }
}

} // verus!
