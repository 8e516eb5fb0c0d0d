//! A probing table for raw byte-string keys of any length: each key is an
//! owned copy paired with its precomputed hash, probed by that hash. The
//! caller supplies the hash, so repeated operations on one key hash it once.

use vstd::prelude::*;
use crate::adaptive_hashtable::FallbackKey;
use crate::hash::spec_fast_hash_bytes;
use crate::table0::Table0;

verus! {

/// A probing table of byte-string keys and 64-bit counters.
pub struct FallbackHashtable {
    pub table: Table0<FallbackKey, u64>,
}

impl View for FallbackHashtable {
    type V = Map<Seq<u8>, u64>;

    open spec fn view(&self) -> Self::V {
        self.table@
    }
}

impl FallbackHashtable {
    pub open spec fn wf(self) -> bool {
        self.table.wf()
    }

    pub fn new() -> (r: Self)
        ensures
            r.wf(),
            r@ == Map::<Seq<u8>, u64>::empty(),
            r.table.len == 0,
    {
        Self::with_capacity(256)
    }

    pub fn with_capacity(capacity: usize) -> (r: Self)
        requires
            capacity <= usize::MAX / 2,
        ensures
            r.wf(),
            r@ == Map::<Seq<u8>, u64>::empty(),
            r.table.len == 0,
            r.table.cap_spec() >= capacity,
    {
        FallbackHashtable { table: Table0::with_capacity(capacity) }
    }

    pub fn len(&self) -> (r: usize)
        requires
            self.wf(),
        ensures
            r == self.table.len,
            r == self@.dom().len(),
    {
        proof {
            self.table.lemma_len_is_distinct_count();
        }
        self.table.len()
    }

    pub fn capacity(&self) -> (r: usize)
        ensures
            r == self.table.cap_spec(),
    {
        self.table.capacity()
    }

    /// Looks a byte-string key up by its precomputed hash.
    pub fn get(&self, key: &[u8], hash: u64) -> (r: Option<u64>)
        requires
            self.wf(),
            hash == spec_fast_hash_bytes(key@),
        ensures
            match r {
                Some(v) => self@.contains_key(key@) && v == self@[key@],
                None => !self@.contains_key(key@),
            },
    {
        let fk = FallbackKey::new(key);
        match self.table.get(&fk) {
            Some(v) => Some(*v),
            None => None,
        }
    }

    pub fn get_mut(&mut self, key: &[u8], hash: u64) -> (r: Option<&mut u64>)
        requires
            old(self).wf(),
            hash == spec_fast_hash_bytes(key@),
        ensures
            old(self)@.contains_key(key@) ==> r is Some && *r.unwrap() == old(self)@[key@]
                && final(self)@ == old(self)@.insert(key@, *final(r.unwrap())) && final(self).wf()
                && final(self).table.len == old(self).table.len,
            !old(self)@.contains_key(key@) ==> r is None && *final(self) == *old(self),
    {
        let fk = FallbackKey::new(key);
        self.table.get_mut(&fk)
    }

    /// Inserts a copy of the key with a zero-initialized counter. `Err(Some)`
    /// hands back a present key's counter; `Err(None)` reports a full table.
    pub fn insert(&mut self, key: &[u8], hash: u64) -> (r: Result<&mut u64, Option<&mut u64>>)
        requires
            old(self).wf(),
            hash == spec_fast_hash_bytes(key@),
        ensures
            final(self).wf(),
            final(self).table.cap_spec() == old(self).table.cap_spec(),
            match r {
                Ok(v) => !old(self)@.contains_key(key@) && *v == 0 && final(self).table.len == old(self).table.len + 1 && final(self)@ == old(self)@.insert(key@, *final(v)),
                Err(Some(v)) => old(self)@.contains_key(key@) && *v == old(self)@[key@] && final(self).table.len == old(self).table.len && final(self)@ == old(self)@.insert(
                    key@,
                    *final(v),
                ),
                Err(None) => old(self).table.len == old(self).table.cap_spec()
                    && !old(self)@.contains_key(key@) && *final(self) == *old(self),
            },
    {
        let fk = FallbackKey::new(key);
        if self.table.len() == self.table.capacity() {
            match self.table.get_mut(&fk) {
                Some(v) => Err(Some(v)),
                None => Err(None),
            }
        } else {
            proof {
                crate::table0::lemma_count_full_bound(self.table.slots@);
            }
            match self.table.insert(fk, 0) {
                Ok(v) => Ok(v),
                Err(v) => Err(Some(v)),
            }
        }
    }

    /// Doubles the capacity, preserving every entry.
    pub fn grow(&mut self)
        requires
            old(self).wf(),
            old(self).table.cap_spec() * 2 <= usize::MAX,
        ensures
            final(self).wf(),
            final(self)@ == old(self)@,
            final(self).table.len == old(self).table.len,
            final(self).table.cap_spec() == old(self).table.cap_spec() * 2,
    {
        proof {
            vstd::arithmetic::power2::lemma2_to64();
            assert(self.table.cap_spec() * vstd::arithmetic::power2::pow2(1) <= usize::MAX);
        }
        self.table.grow(1);
    }

    /// All entries as owned byte strings; each present key appears exactly
    /// once.
    pub fn iter(&self) -> (r: Vec<(Vec<u8>, u64)>)
        requires
            self.wf(),
        ensures
            r@.len() == self.table.len,
            forall|j: int|
                0 <= j < r@.len() ==> self@.contains_key((#[trigger] r@[j]).0@) && self@[r@[j].0@]
                    == r@[j].1,
            forall|j1: int, j2: int|
                0 <= j1 < j2 < r@.len() ==> (#[trigger] r@[j1]).0@ != (#[trigger] r@[j2]).0@,
            forall|a: Seq<u8>| #[trigger]
                self@.contains_key(a) ==> exists|j: int|
                    0 <= j < r@.len() && (#[trigger] r@[j]).0@ == a,
    {
        let ghost fs = self.table.slots@;
        let ghost mut srcs: Seq<int> = Seq::empty();
        let cap = self.table.capacity();
        let mut r: Vec<(Vec<u8>, u64)> = Vec::new();
        let mut i: usize = 0;
        while i < cap
            invariant
                self.wf(),
                fs == self.table.slots@,
                cap == fs.len(),
                i <= cap,
                r@.len() == crate::table0::count_full(fs.take(i as int)),
                srcs.len() == r@.len(),
                forall|j: int|
                    0 <= j < srcs.len() ==> 0 <= #[trigger] srcs[j] < i && fs[srcs[j]] is Full,
                forall|j: int|
                    0 <= j < r@.len() ==> (#[trigger] r@[j]).0@ == fs[srcs[j]]->Full_key@
                        && r@[j].1 == fs[srcs[j]]->Full_val,
                forall|j1: int, j2: int|
                    0 <= j1 < j2 < srcs.len() ==> #[trigger] srcs[j1] != #[trigger] srcs[j2],
                forall|t: int|
                    0 <= t < i && #[trigger] fs[t] is Full ==> exists|j: int|
                        0 <= j < srcs.len() && #[trigger] srcs[j] == t,
            decreases cap - i,
        {
            proof {
                assert(fs.take(i + 1).drop_last() =~= fs.take(i as int));
            }
            match &self.table.slots[i] {
                crate::table0::Slot::Full { key, val } => {
                    let b = crate::adaptive_hashtable::copy_bytes(key.as_bytes().as_slice());
                    r.push((b, *val));
                    proof {
                        let srcs0 = srcs;
                        srcs = srcs.push(i as int);
                        assert forall|t: int|
                            0 <= t < i + 1 && #[trigger] fs[t] is Full implies exists|j: int|
                            0 <= j < srcs.len() && #[trigger] srcs[j] == t by {
                            if t < i {
                                let j = choose|j: int| 0 <= j < srcs0.len() && #[trigger] srcs0[j] == t;
                                assert(srcs[j] == srcs0[j]);
                                assert(srcs[j] == t);
                            } else {
                                assert(srcs[srcs.len() - 1] == t);
                            }
                        }
                    }
                },
                crate::table0::Slot::Empty => {
                    proof {
                        assert forall|t: int|
                            0 <= t < i + 1 && #[trigger] fs[t] is Full implies exists|j: int|
                            0 <= j < srcs.len() && #[trigger] srcs[j] == t by {
                            assert(t != i);
                        }
                    }
                },
            }
            i = i + 1;
        }
        proof {
            assert(fs.take(cap as int) =~= fs);
            assert forall|j: int| 0 <= j < r@.len() implies self@.contains_key(
                (#[trigger] r@[j]).0@) && self@[r@[j].0@] == r@[j].1 by {
                crate::table0::lemma_view_at(fs, srcs[j]);
            }
            assert forall|j1: int, j2: int| 0 <= j1 < j2 < r@.len() implies (#[trigger] r@[j1]).0@
                != (#[trigger] r@[j2]).0@ by {
                assert(srcs[j1] != srcs[j2]);
            }
            assert forall|a: Seq<u8>| #[trigger] self@.contains_key(a) implies exists|j: int|
                0 <= j < r@.len() && (#[trigger] r@[j]).0@ == a by {
                crate::table0::lemma_view_contains(fs, a);
                let t = choose|t: int|
                    0 <= t < fs.len() && fs[t] is Full && (#[trigger] fs[t]->Full_key)@ == a;
                let j = choose|j: int| 0 <= j < srcs.len() && #[trigger] srcs[j] == t;
                assert(r@[j].0@ == a);
            }
        }
        r
    }
}

} // verus!
