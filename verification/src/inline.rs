//! A probing table over fixed-lane keys whose all-ones final lane is the
//! empty sentinel, probed by a caller-supplied hash. Values are 64-bit
//! counters.

use vstd::prelude::*;
use crate::hash::{spec_fast_hash_lanes, spec_hash_lanes_fold, spec_mix_into, mix_into};
use crate::table0::Table0;
use crate::traits::Key;

verus! {

/// A key of `N` 64-bit lanes, the last of which is never all ones.
#[derive(Clone, Copy)]
pub struct LaneKey<const N: usize> {
    lanes: [u64; 3],
}

impl<const N: usize> View for LaneKey<N> {
    type V = Seq<u64>;

    closed spec fn view(&self) -> Seq<u64> {
        self.lanes@.take(N as int)
    }
}

#[verifier::type_invariant]
spec fn lane_key_inv<const N: usize>(k: LaneKey<N>) -> bool {
    &&& 1 <= N <= 3
    &&& forall|j: int| N <= j < 3 ==> k.lanes@[j] == 0
}

impl<const N: usize> LaneKey<N> {
    /// Packs up to three lanes; the unused ones are zeroed.
    pub fn new(l0: u64, l1: u64, l2: u64) -> (r: Self)
        requires
            1 <= N <= 3,
        ensures
            r@.len() == N,
            r@[0] == l0,
            N >= 2 ==> r@[1] == l1,
            N >= 3 ==> r@[2] == l2,
    {
        let lanes: [u64; 3] = [l0, if N >= 2 { l1 } else { 0 }, if N >= 3 { l2 } else { 0 }];
        LaneKey { lanes }
    }
}

impl<const N: usize> Key for LaneKey<N> {
    open spec fn excluded_abs(a: Seq<u64>) -> bool {
        false
    }

    open spec fn hash_abs(a: Seq<u64>) -> u64 {
        spec_fast_hash_lanes(a)
    }

    fn equals_zero(this: &Self) -> bool {
        false
    }

    fn hash(&self) -> u64 {
        proof {
            use_type_invariant(self);
            let ls = self@;
            let s1 = spec_mix_into(0u64, ls[0]);
            let r1 = ls.skip(1);
            assert(spec_hash_lanes_fold(0u64, ls) == spec_hash_lanes_fold(s1, r1));
            if N >= 2 {
                let s2 = spec_mix_into(s1, r1[0]);
                let r2 = r1.skip(1);
                assert(spec_hash_lanes_fold(s1, r1) == spec_hash_lanes_fold(s2, r2));
                assert(r1[0] == ls[1]);
                if N >= 3 {
                    let s3 = spec_mix_into(s2, r2[0]);
                    let r3 = r2.skip(1);
                    assert(spec_hash_lanes_fold(s2, r2) == spec_hash_lanes_fold(s3, r3));
                    assert(r2[0] == ls[2]);
                    assert(r3.len() == 0);
                } else {
                    assert(r2.len() == 0);
                }
            } else {
                assert(r1.len() == 0);
            }
        }
        let mut h: u64 = mix_into(0, self.lanes[0]);
        if N >= 2 {
            h = mix_into(h, self.lanes[1]);
            if N >= 3 {
                h = mix_into(h, self.lanes[2]);
            }
        }
        h
    }

    fn key_eq(&self, other: &Self) -> bool {
        proof {
            use_type_invariant(self);
            use_type_invariant(other);
            if self.lanes@ =~= other.lanes@ {
            }
            if self@ == other@ {
                assert forall|j: int| 0 <= j < 3 implies self.lanes@[j] == other.lanes@[j] by {
                    if j < N {
                        assert(self@[j] == other@[j]);
                    }
                }
                assert(self.lanes@ =~= other.lanes@);
            }
        }
        self.lanes[0] == other.lanes[0] && self.lanes[1] == other.lanes[1] && self.lanes[2]
            == other.lanes[2]
    }

    proof fn lemma_excluded_unique(a: Seq<u64>, b: Seq<u64>) {
    }

    fn zero_key() -> Self {
        vstd::pervasive::unreached()
    }
}

/// A probing table of lane keys and 64-bit counters.
pub struct InlineHashtable<const N: usize> {
    pub table: Table0<LaneKey<N>, u64>,
}

impl<const N: usize> View for InlineHashtable<N> {
    type V = Map<Seq<u64>, u64>;

    open spec fn view(&self) -> Self::V {
        self.table@
    }
}

impl<const N: usize> InlineHashtable<N> {
    pub open spec fn wf(self) -> bool {
        self.table.wf()
    }

    pub fn new() -> (r: Self)
        ensures
            r.wf(),
            r@ == Map::<Seq<u64>, u64>::empty(),
            r.table.len == 0,
    {
        Self::with_capacity(256)
    }

    pub fn with_capacity(capacity: usize) -> (r: Self)
        requires
            capacity <= usize::MAX / 2,
        ensures
            r.wf(),
            r@ == Map::<Seq<u64>, u64>::empty(),
            r.table.len == 0,
            r.table.cap_spec() >= capacity,
    {
        InlineHashtable { table: Table0::with_capacity(capacity) }
    }

    pub fn len(&self) -> (r: usize)
        requires
            self.wf(),
        ensures
            r == self.table.len,
            r == self@.dom().len(),
    {
        proof {
            self.table.lemma_len_is_distinct_count();
        }
        self.table.len()
    }

    pub fn capacity(&self) -> (r: usize)
        ensures
            r == self.table.cap_spec(),
    {
        self.table.capacity()
    }

    /// Looks a key up by its lanes and their hash.
    pub fn get(&self, key: &LaneKey<N>, hash: u64) -> (r: Option<u64>)
        requires
            self.wf(),
            1 <= N <= 3,
            key@[N - 1] != u64::MAX,
            hash == spec_fast_hash_lanes(key@),
        ensures
            match r {
                Some(v) => self@.contains_key(key@) && v == self@[key@],
                None => !self@.contains_key(key@),
            },
    {
        match self.table.get(key) {
            Some(v) => Some(*v),
            None => None,
        }
    }

    pub fn get_mut(&mut self, key: &LaneKey<N>, hash: u64) -> (r: Option<&mut u64>)
        requires
            old(self).wf(),
            1 <= N <= 3,
            key@[N - 1] != u64::MAX,
            hash == spec_fast_hash_lanes(key@),
        ensures
            old(self)@.contains_key(key@) ==> r is Some && *r.unwrap() == old(self)@[key@]
                && final(self)@ == old(self)@.insert(key@, *final(r.unwrap())) && final(self).wf()
                && final(self).table.len == old(self).table.len,
            !old(self)@.contains_key(key@) ==> r is None && *final(self) == *old(self),
    {
        self.table.get_mut(key)
    }

    /// Inserts a key with a zero-initialized counter. `Err(Some)` hands back
    /// a present key's counter; `Err(None)` reports a full table.
    pub fn insert(&mut self, key: LaneKey<N>, hash: u64) -> (r: Result<&mut u64, Option<&mut u64>>)
        requires
            old(self).wf(),
            1 <= N <= 3,
            key@[N - 1] != u64::MAX,
            hash == spec_fast_hash_lanes(key@),
        ensures
            final(self).wf(),
            final(self).table.cap_spec() == old(self).table.cap_spec(),
            match r {
                Ok(v) => !old(self)@.contains_key(key@) && *v == 0 && final(self).table.len == old(self).table.len + 1 && final(self)@ == old(self)@.insert(key@, *final(v)),
                Err(Some(v)) => old(self)@.contains_key(key@) && *v == old(self)@[key@] && final(self).table.len == old(self).table.len && final(self)@ == old(self)@.insert(
                    key@,
                    *final(v),
                ),
                Err(None) => old(self).table.len == old(self).table.cap_spec()
                    && !old(self)@.contains_key(key@) && *final(self) == *old(self),
            },
    {
        if self.table.len() == self.table.capacity() {
            match self.table.get_mut(&key) {
                Some(v) => Err(Some(v)),
                None => Err(None),
            }
        } else {
            proof {
                crate::table0::lemma_count_full_bound(self.table.slots@);
            }
            match self.table.insert(key, 0) {
                Ok(v) => Ok(v),
                Err(v) => Err(Some(v)),
            }
        }
    }

    /// Doubles the capacity, preserving every entry.
    pub fn grow(&mut self)
        requires
            old(self).wf(),
            old(self).table.cap_spec() * 2 <= usize::MAX,
        ensures
            final(self).wf(),
            final(self)@ == old(self)@,
            final(self).table.len == old(self).table.len,
            final(self).table.cap_spec() == old(self).table.cap_spec() * 2,
    {
        proof {
            vstd::arithmetic::power2::lemma2_to64();
            assert(self.table.cap_spec() * vstd::arithmetic::power2::pow2(1) <= usize::MAX);
        }
        self.table.grow(1);
    }

    /// All entries; each present key appears exactly once.
    pub fn iter(&self) -> (r: Vec<(LaneKey<N>, u64)>)
        requires
            self.wf(),
        ensures
            r@.len() == self.table.len,
            forall|j: int|
                0 <= j < r@.len() ==> self@.contains_key((#[trigger] r@[j]).0@) && self@[r@[j].0@]
                    == r@[j].1,
            forall|j1: int, j2: int|
                0 <= j1 < j2 < r@.len() ==> (#[trigger] r@[j1]).0@ != (#[trigger] r@[j2]).0@,
            forall|a: Seq<u64>| #[trigger]
                self@.contains_key(a) ==> exists|j: int|
                    0 <= j < r@.len() && (#[trigger] r@[j]).0@ == a,
    {
        self.table.iter()
    }
}

} // verus!
