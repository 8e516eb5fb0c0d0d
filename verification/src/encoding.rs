//! A fixed-shape table for two-byte keys with 64-bit counters: the bitmap
//! groups of [`Table1`] specialized to `u64` values.

use vstd::prelude::*;
use crate::table1::Table1;

verus! {

/// A direct-addressed two-byte-key table of 64-bit values.
pub struct EncodingHashtable {
    pub inner: Table1<u64>,
}

impl View for EncodingHashtable {
    type V = Map<(u8, u8), u64>;

    open spec fn view(&self) -> Self::V {
        self.inner@
    }
}

impl EncodingHashtable {
    pub open spec fn wf(self) -> bool {
        self.inner.wf()
    }

    pub fn new() -> (r: Self)
        ensures
            r.wf(),
            r@ == Map::<(u8, u8), u64>::empty(),
            r.inner.len == 0,
    {
        EncodingHashtable { inner: Table1::new() }
    }

    pub fn len(&self) -> (r: usize)
        requires
            self.wf(),
        ensures
            r == self.inner.len,
            r == self@.dom().len(),
    {
        self.inner.len()
    }

    pub fn get(&self, key: [u8; 2]) -> (r: Option<u64>)
        requires
            self.wf(),
        ensures
            match r {
                Some(v) => self@.contains_key((key@[0], key@[1])) && v == self@[(key@[0], key@[1])],
                None => !self@.contains_key((key@[0], key@[1])),
            },
    {
        match self.inner.get(key) {
            Some(v) => Some(*v),
            None => None,
        }
    }

    pub fn get_mut(&mut self, key: [u8; 2]) -> (r: Option<&mut u64>)
        requires
            old(self).wf(),
        ensures
            old(self)@.contains_key((key@[0], key@[1])) ==> r is Some && *r.unwrap() == old(self)@[(
                key@[0],
                key@[1],
            )] && final(self)@ == old(self)@.insert((key@[0], key@[1]), *final(r.unwrap()))
                && final(self).wf(),
            !old(self)@.contains_key((key@[0], key@[1])) ==> r is None && *final(self) == *old(self),
    {
        self.inner.get_mut(key)
    }

    /// Inserts a key: `Ok` hands back a fresh zero-initialized counter,
    /// `Err` the present one.
    pub fn insert(&mut self, key: [u8; 2]) -> (r: Result<&mut u64, &mut u64>)
        requires
            old(self).wf(),
        ensures
            final(self).wf(),
            match r {
                Ok(v) => !old(self)@.contains_key((key@[0], key@[1])) && *v == 0 && final(self)@
                    == old(self)@.insert((key@[0], key@[1]), *final(v)),
                Err(v) => old(self)@.contains_key((key@[0], key@[1])) && *v == old(self)@[(
                    key@[0],
                    key@[1],
                )] && final(self)@ == old(self)@.insert((key@[0], key@[1]), *final(v)),
            },
    {
        self.inner.insert(key, 0)
    }

    /// All entries in ascending cell order.
    pub fn iter(&self) -> (r: Vec<([u8; 2], u64)>)
        requires
            self.wf(),
        ensures
            r@.len() == self.inner.len,
            forall|j: int|
                0 <= j < r@.len() ==> self@.contains_key(((#[trigger] r@[j]).0@[0], r@[j].0@[1]))
                    && self@[(r@[j].0@[0], r@[j].0@[1])] == r@[j].1,
            forall|j1: int, j2: int|
                0 <= j1 < j2 < r@.len() ==> ((#[trigger] r@[j1]).0@[0], r@[j1].0@[1]) != (
                (#[trigger] r@[j2]).0@[0], r@[j2].0@[1]),
            forall|a: (u8, u8)| #[trigger]
                self@.contains_key(a) ==> exists|j: int|
                    0 <= j < r@.len() && ((#[trigger] r@[j]).0@[0], r@[j].0@[1]) == a,
    {
        self.inner.iter()
    }
}

} // verus!
