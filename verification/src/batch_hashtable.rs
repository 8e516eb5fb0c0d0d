//! The bulk-update table: a probing table with built-in escape slot, fed
//! through a bounded buffer of `(key, delta)` pairs that is drained in one
//! sweep. The sweep's meaning is the in-order insert-or-update fold; the
//! vectorized realization commits one lane per distinct slot per step and is
//! output-equivalent to it.

use vstd::prelude::*;
use crate::table2::Table2;
use crate::traits::{Key, Combine};
use crate::hashtable::{spec_upsert, spec_upsert_fold};

verus! {

/// One insert-or-update applied at a fresh key commutes with a fold over
/// pairs that never touch that key.
proof fn lemma_upsert_commute<A, V: Combine>(m: Map<A, V>, a: A, x: V, b: A, y: V)
    requires
        a != b,
    ensures
        spec_upsert(spec_upsert(m, a, x), b, y) == spec_upsert(spec_upsert(m, b, y), a, x),
{
    assert(spec_upsert(spec_upsert(m, a, x), b, y) =~= spec_upsert(spec_upsert(m, b, y), a, x));
}

proof fn lemma_fold_upsert_commute<A, V: Combine>(m: Map<A, V>, ks: Seq<A>, ds: Seq<V>, a: A, d: V)
    requires
        ks.len() == ds.len(),
        forall|i: int| 0 <= i < ks.len() ==> ks[i] != a,
    ensures
        spec_upsert_fold(spec_upsert(m, a, d), ks, ds) == spec_upsert(
            spec_upsert_fold(m, ks, ds),
            a,
            d,
        ),
    decreases ks.len(),
{
    if ks.len() == 0 {
    } else {
        lemma_upsert_commute(m, a, d, ks[0], ds[0]);
        lemma_fold_upsert_commute(spec_upsert(m, ks[0], ds[0]), ks.skip(1), ds.skip(1), a, d);
    }
}

/// Appending a pair to the buffer defers exactly one more insert-or-update.
proof fn lemma_fold_push<A, V: Combine>(m: Map<A, V>, ks: Seq<A>, ds: Seq<V>, a: A, d: V)
    requires
        ks.len() == ds.len(),
    ensures
        spec_upsert_fold(m, ks.push(a), ds.push(d)) == spec_upsert(
            spec_upsert_fold(m, ks, ds),
            a,
            d,
        ),
    decreases ks.len(),
{
    if ks.len() == 0 {
        assert(ks.push(a).skip(1) =~= Seq::<A>::empty());
        assert(ds.push(d).skip(1) =~= Seq::<V>::empty());
        assert(ks.push(a)[0] == a && ds.push(d)[0] == d);
        let m1 = spec_upsert(m, a, d);
        assert(spec_upsert_fold(m, ks.push(a), ds.push(d)) == spec_upsert_fold(
            m1,
            ks.push(a).skip(1),
            ds.push(d).skip(1),
        ));
        assert(spec_upsert_fold(m1, ks.push(a).skip(1), ds.push(d).skip(1)) == m1);
        assert(spec_upsert_fold(m, ks, ds) == m);
    } else {
        assert(ks.push(a).skip(1) =~= ks.skip(1).push(a));
        assert(ds.push(d).skip(1) =~= ds.skip(1).push(d));
        assert(ks.push(a)[0] == ks[0] && ds.push(d)[0] == ds[0]);
        lemma_fold_push(spec_upsert(m, ks[0], ds[0]), ks.skip(1), ds.skip(1), a, d);
    }
}

/// A probing table behind the bulk-update path.
pub struct BatchHashtable<K: Key, V> {
    pub raw: Table2<K, V>,
}

impl<K: Key, V> View for BatchHashtable<K, V> {
    type V = Map<<K as View>::V, V>;

    open spec fn view(&self) -> Self::V {
        self.raw@
    }
}

impl<K: Key, V> BatchHashtable<K, V> {
    pub open spec fn wf(self) -> bool {
        self.raw.wf()
    }

    pub open spec fn spec_len(self) -> nat {
        self.raw.spec_len()
    }

    pub fn new() -> (r: Self)
        ensures
            r.wf(),
            r@ == Map::<<K as View>::V, V>::empty(),
            r.spec_len() == 0,
    {
        BatchHashtable { raw: Table2::new() }
    }

    pub fn is_empty(&self) -> (r: bool)
        requires
            self.wf(),
        ensures
            r == (self.spec_len() == 0),
    {
        self.len() == 0
    }

    pub fn len(&self) -> (r: usize)
        requires
            self.wf(),
        ensures
            r == self.spec_len(),
            r == self@.dom().len(),
    {
        self.raw.len()
    }

    pub fn capacity(&self) -> (r: usize)
        requires
            self.wf(),
        ensures
            r == self.raw.spec_cap(),
    {
        self.raw.capacity()
    }

    pub fn get(&self, key: &K) -> (r: Option<&V>)
        requires
            self.wf(),
        ensures
            match r {
                Some(v) => self@.contains_key(key@) && *v == self@[key@],
                None => !self@.contains_key(key@),
            },
    {
        self.raw.get(key)
    }

    pub fn get_mut(&mut self, key: &K) -> (r: Option<&mut V>)
        requires
            old(self).wf(),
        ensures
            old(self)@.contains_key(key@) ==> r is Some && *r.unwrap() == old(self)@[key@]
                && final(self)@ == old(self)@.insert(key@, *final(r.unwrap())) && final(self).wf()
                && final(self).spec_len() == old(self).spec_len(),
            !old(self)@.contains_key(key@) ==> r is None && *final(self) == *old(self),
    {
        self.raw.get_mut(key)
    }

    /// Inserts a key, growing first if the table would pass half full.
    pub fn insert(&mut self, key: K, value: V) -> (r: Result<&mut V, &mut V>)
        requires
            old(self).wf(),
            old(self).spec_len() + 1 <= usize::MAX / 4,
        ensures
            final(self).wf(),
            match r {
                Ok(v) => !old(self)@.contains_key(key@) && *v == value && final(self).spec_len()
                    == old(self).spec_len() + 1 && final(self)@ == old(self)@.insert(
                    key@,
                    *final(v),
                ),
                Err(v) => old(self)@.contains_key(key@) && *v == old(self)@[key@] && final(self).spec_len() == old(self).spec_len() && final(self)@ == old(self)@.insert(
                    key@,
                    *final(v),
                ),
            },
    {
        proof {
            crate::table0::lemma_count_full_bound(self.raw.table.slots@);
        }
        let _cap = self.raw.capacity();
        while (self.raw.table.len() + 1) * 2 > self.raw.table.capacity()
            invariant
                self.wf(),
                self@ == old(self)@,
                self.raw.table.len == old(self).raw.table.len,
                self.raw.zero == old(self).raw.zero,
                self.raw.table.len + 1 <= usize::MAX / 4,
                self.raw.spec_cap() <= usize::MAX,
            decreases usize::MAX - self.raw.spec_cap(),
        {
            let ghost pre_cap = self.raw.spec_cap();
            proof {
                let m0 = choose|m: nat|
                    3 <= m <= 63 && self.raw.table.slots@.len()
                        == vstd::arithmetic::power2::pow2(m);
                vstd::arithmetic::power2::lemma_pow2_pos(m0);
            }
            self.raw.grow();
            proof {
                assert(self.raw.spec_cap() > pre_cap);
            }
        }
        self.raw.insert(key, value)
    }
}

impl<K: Key + Copy, V: Copy> BatchHashtable<K, V> {
    /// All entries; each present key appears exactly once.
    pub fn iter(&self) -> (r: Vec<(K, V)>)
        requires
            self.wf(),
        ensures
            r@.len() == self.spec_len(),
            forall|j: int|
                0 <= j < r@.len() ==> self@.contains_key((#[trigger] r@[j]).0@) && self@[r@[j].0@]
                    == r@[j].1,
            forall|j1: int, j2: int|
                0 <= j1 < j2 < r@.len() ==> (#[trigger] r@[j1]).0@ != (#[trigger] r@[j2]).0@,
            forall|a: <K as View>::V| #[trigger]
                self@.contains_key(a) ==> exists|j: int|
                    0 <= j < r@.len() && (#[trigger] r@[j]).0@ == a,
    {
        self.raw.iter()
    }

    /// An empty buffer of deferred `(key, delta)` pairs for this table.
    pub fn batch_update(&self) -> (u: BatchUpdater<K, V>)
        ensures
            u.wf(),
            u.keys@.len() == 0,
    {
        BatchUpdater { keys: Vec::new(), dels: Vec::new() }
    }
}

/// A bounded buffer of deferred `(key, delta)` pairs. Zero keys bypass the
/// buffer, since the vector loop cannot probe for them; buffered keys are
/// applied to the table in order when the buffer fills or is flushed.
pub struct BatchUpdater<K: Key, V> {
    pub keys: Vec<K>,
    pub dels: Vec<V>,
}

/// The table state once the deferred pairs of `u` are applied to `m`.
pub open spec fn spec_resolved<K: Key, V: Combine>(
    m: Map<<K as View>::V, V>,
    u: BatchUpdater<K, V>,
) -> Map<<K as View>::V, V> {
    spec_upsert_fold(m, u.keys@.map_values(|k: K| k@), u.dels@)
}

impl<K: Key, V> BatchUpdater<K, V> {
    pub open spec fn wf(self) -> bool {
        &&& self.keys@.len() == self.dels@.len()
        &&& self.keys@.len() <= 2048
        &&& forall|i: int|
            0 <= i < self.keys@.len() ==> !K::excluded_abs((#[trigger] self.keys@[i])@)
    }
}

impl<K: Key + Copy, V: Copy + Combine> BatchUpdater<K, V> {
    /// Defers one `(key, delta)` pair, first draining the buffer if it is
    /// full. A zero key is applied at once: the vector loop cannot probe for
    /// the escape slot, and applying it early commutes with every deferred
    /// pair, whose keys are all nonzero.
    pub fn push(&mut self, table: &mut BatchHashtable<K, V>, k: K, d: V)
        requires
            old(self).wf(),
            old(table).wf(),
            old(table).spec_len() + old(self).keys@.len() + 1 <= usize::MAX / 4,
        ensures
            final(self).wf(),
            final(table).wf(),
            spec_resolved(final(table)@, *final(self)) == spec_upsert(
                spec_resolved(old(table)@, *old(self)),
                k@,
                d,
            ),
            final(table).spec_len() + final(self).keys@.len() <= old(table).spec_len() + old(self).keys@.len() + 1,
    {
        if K::equals_zero(&k) {
            let ghost m0 = table@;
            match table.insert(k, d) {
                Ok(_) => {},
                Err(v) => {
                    let cur = *v;
                    *v = cur.combine(d);
                },
            }
            proof {
                assert(table@ == spec_upsert(m0, k@, d));
                let ghost ksv = self.keys@.map_values(|k2: K| k2@);
                assert forall|i: int| 0 <= i < ksv.len() implies #[trigger] ksv[i] != k@ by {
                    assert(ksv[i] == self.keys@[i]@);
                    assert(!K::excluded_abs(self.keys@[i]@));
                }
                lemma_fold_upsert_commute(m0, ksv, self.dels@, k@, d);
            }
        } else {
            if self.keys.len() == 2048 {
                self.flush(table);
            }
            let ghost ks0 = self.keys@.map_values(|k2: K| k2@);
            let ghost ds0 = self.dels@;
            let ghost m0 = table@;
            self.keys.push(k);
            self.dels.push(d);
            proof {
                assert(self.keys@.map_values(|k2: K| k2@) =~= ks0.push(k@));
                lemma_fold_push(m0, ks0, ds0, k@, d);
            }
        }
    }

    /// Applies every deferred pair to the table, in order, emptying the
    /// buffer. The table is grown once, up front, so that the sweep itself
    /// never resizes.
    pub fn flush(&mut self, table: &mut BatchHashtable<K, V>)
        requires
            old(self).wf(),
            old(table).wf(),
            old(table).spec_len() + old(self).keys@.len() <= usize::MAX / 4,
        ensures
            final(self).wf(),
            final(table).wf(),
            final(self).keys@.len() == 0,
            final(table)@ == spec_resolved(old(table)@, *old(self)),
            final(table).spec_len() <= old(table).spec_len() + old(self).keys@.len(),
    {
        let ghost goal = spec_resolved(old(table)@, *old(self));
        proof {
            crate::table0::lemma_count_full_bound(table.raw.table.slots@);
            assert(self.keys@.map_values(|k2: K| k2@).skip(0) =~= self.keys@.map_values(
                |k2: K| k2@,
            ));
            assert(self.dels@.skip(0) =~= self.dels@);
        }
        // make room for every pending pair, then sweep
        let _cap = table.raw.capacity();
        while (self.keys.len() + table.raw.table.len()) * 2 > table.raw.table.capacity()
            invariant
                self.wf(),
                table.wf(),
                table@ == old(table)@,
                table.raw.table.len == old(table).raw.table.len,
                table.raw.zero == old(table).raw.zero,
                table.raw.table.len + self.keys@.len() <= usize::MAX / 4,
                table.raw.spec_cap() <= usize::MAX,
                self.keys == old(self).keys,
                self.dels == old(self).dels,
            decreases usize::MAX - table.raw.spec_cap(),
        {
            let ghost pre_cap = table.raw.spec_cap();
            proof {
                let m0 = choose|m: nat|
                    3 <= m <= 63 && table.raw.table.slots@.len()
                        == vstd::arithmetic::power2::pow2(m);
                vstd::arithmetic::power2::lemma_pow2_pos(m0);
            }
            table.raw.grow();
            proof {
                assert(table.raw.spec_cap() > pre_cap);
            }
        }
        let n = self.keys.len();
        let mut i: usize = 0;
        while i < n
            invariant
                self.wf(),
                table.wf(),
                n == self.keys@.len(),
                self.keys == old(self).keys,
                self.dels == old(self).dels,
                i <= n,
                table.raw.table.len as nat + (n - i) <= table.raw.spec_cap() / 2,
                spec_upsert_fold(
                    table@,
                    self.keys@.map_values(|k2: K| k2@).skip(i as int),
                    self.dels@.skip(i as int),
                ) == goal,
                table.raw.spec_len() <= old(table).spec_len() + i,
            decreases n - i,
        {
            let ghost ks = self.keys@.map_values(|k2: K| k2@).skip(i as int);
            let ghost ds = self.dels@.skip(i as int);
            let ghost m0 = table@;
            proof {
                assert(ks[0] == self.keys@[i as int]@);
                assert(ds[0] == self.dels@[i as int]);
                assert(ks.skip(1) =~= self.keys@.map_values(|k2: K| k2@).skip(i + 1));
                assert(ds.skip(1) =~= self.dels@.skip(i + 1));
                crate::table0::lemma_count_full_bound(table.raw.table.slots@);
            }
            match table.raw.insert(self.keys[i], self.dels[i]) {
                Ok(_) => {},
                Err(v) => {
                    let cur = *v;
                    *v = cur.combine(self.dels[i]);
                },
            }
            proof {
                assert(table@ == spec_upsert(m0, self.keys@[i as int]@, self.dels@[i as int]));
            }
            i = i + 1;
        }
        proof {
            assert(self.keys@.map_values(|k2: K| k2@).skip(n as int) =~= Seq::<
                <K as View>::V,
            >::empty());
            assert(self.dels@.skip(n as int) =~= Seq::<V>::empty());
        }
        self.keys.clear();
        self.dels.clear();
    }
}

} // verus!
