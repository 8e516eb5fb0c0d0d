//! A table tuned for very small key sets: the same zero-sentinel probing
//! design as the general table, but starting from a caller-chosen tiny
//! capacity `N` so that short-lived tables avoid large allocations.

use vstd::prelude::*;
use crate::hashtable::Hashtable;
use crate::traits::Key;

verus! {

/// A small-footprint hash table of initial capacity `N`.
pub struct StackHashtable<K: Key, V, const N: usize> {
    pub inner: Hashtable<K, V>,
}

impl<K: Key, V, const N: usize> View for StackHashtable<K, V, N> {
    type V = Map<<K as View>::V, V>;

    open spec fn view(&self) -> Self::V {
        self.inner@
    }
}

impl<K: Key, V, const N: usize> StackHashtable<K, V, N> {
    pub open spec fn wf(self) -> bool {
        self.inner.wf()
    }

    pub open spec fn spec_len(self) -> nat {
        self.inner.spec_len()
    }

    pub open spec fn spec_cap(self) -> nat {
        self.inner.spec_cap()
    }

    pub fn new() -> (r: Self)
        requires
            N <= usize::MAX / 2,
        ensures
            r.wf(),
            r@ == Map::<<K as View>::V, V>::empty(),
            r.spec_len() == 0,
    {
        Self::with_capacity(N)
    }

    pub fn with_capacity(capacity: usize) -> (r: Self)
        requires
            capacity <= usize::MAX / 2,
        ensures
            r.wf(),
            r@ == Map::<<K as View>::V, V>::empty(),
            r.spec_len() == 0,
            r.spec_cap() >= capacity,
    {
        StackHashtable { inner: Hashtable::with_capacity(capacity) }
    }

    pub fn is_empty(&self) -> (r: bool)
        requires
            self.wf(),
        ensures
            r == (self.spec_len() == 0),
    {
        self.inner.is_empty()
    }

    pub fn len(&self) -> (r: usize)
        requires
            self.wf(),
        ensures
            r == self.spec_len(),
            r == self@.dom().len(),
    {
        self.inner.len()
    }

    pub fn capacity(&self) -> (r: usize)
        requires
            self.wf(),
        ensures
            r == self.spec_cap(),
    {
        self.inner.capacity()
    }

    pub fn get(&self, key: &K) -> (r: Option<&V>)
        requires
            self.wf(),
        ensures
            match r {
                Some(v) => self@.contains_key(key@) && *v == self@[key@],
                None => !self@.contains_key(key@),
            },
    {
        self.inner.get(key)
    }

    pub fn get_mut(&mut self, key: &K) -> (r: Option<&mut V>)
        requires
            old(self).wf(),
        ensures
            old(self)@.contains_key(key@) ==> r is Some && *r.unwrap() == old(self)@[key@]
                && final(self)@ == old(self)@.insert(key@, *final(r.unwrap())) && final(self).wf()
                && final(self).spec_len() == old(self).spec_len(),
            !old(self)@.contains_key(key@) ==> r is None && *final(self) == *old(self),
    {
        self.inner.get_mut(key)
    }

    /// Inserts a key, growing first if needed: `Ok` hands back a fresh slot
    /// initialized with `value`, `Err` the present value.
    pub fn insert(&mut self, key: K, value: V) -> (r: Result<&mut V, &mut V>)
        requires
            old(self).wf(),
            old(self).spec_len() + 1 <= usize::MAX / 4,
        ensures
            final(self).wf(),
            match r {
                Ok(v) => !old(self)@.contains_key(key@) && *v == value && final(self).spec_len()
                    == old(self).spec_len() + 1 && final(self)@ == old(self)@.insert(
                    key@,
                    *final(v),
                ),
                Err(v) => old(self)@.contains_key(key@) && *v == old(self)@[key@] && final(self).spec_len() == old(self).spec_len() && final(self)@ == old(self)@.insert(
                    key@,
                    *final(v),
                ),
            },
    {
        self.inner.insert(key, value)
    }
}

impl<K: Key + Copy, V: Copy, const N: usize> StackHashtable<K, V, N> {
    /// All entries; each present key appears exactly once.
    pub fn iter(&self) -> (r: Vec<(K, V)>)
        requires
            self.wf(),
        ensures
            r@.len() == self.spec_len(),
            forall|j: int|
                0 <= j < r@.len() ==> self@.contains_key((#[trigger] r@[j]).0@) && self@[r@[j].0@]
                    == r@[j].1,
            forall|j1: int, j2: int|
                0 <= j1 < j2 < r@.len() ==> (#[trigger] r@[j1]).0@ != (#[trigger] r@[j2]).0@,
            forall|a: <K as View>::V| #[trigger]
                self@.contains_key(a) ==> exists|j: int|
                    0 <= j < r@.len() && (#[trigger] r@[j]).0@ == a,
    {
        self.inner.iter()
    }
}

} // verus!
