//! The general-purpose table: an open-addressing [`Table0`] together with an
//! escape slot for the zero key, growing fourfold while small and twofold
//! once large so that it stays at most half full.

use vstd::prelude::*;
use vstd::arithmetic::power2::{pow2, lemma2_to64};
use crate::table0::{Table0, spec_merge};
use crate::traits::{Key, Combine};

verus! {

/// The abstraction of the zero key, for key types that have one.
pub open spec fn zero_abs<K: Key>() -> <K as View>::V {
    choose|a: <K as View>::V| K::excluded_abs(a)
}

/// One insert-or-update step: a new key is bound to `d`, a present key's
/// value absorbs `d`.
pub open spec fn spec_upsert<A, V: Combine>(m: Map<A, V>, a: A, d: V) -> Map<A, V> {
    if m.contains_key(a) {
        m.insert(a, m[a].combine_spec(d))
    } else {
        m.insert(a, d)
    }
}

/// Insert-or-update steps folded over paired key and delta sequences,
/// in order: the meaning of the batch path.
pub open spec fn spec_upsert_fold<A, V: Combine>(m: Map<A, V>, keys: Seq<A>, dels: Seq<V>) -> Map<
    A,
    V,
>
    decreases keys.len(),
{
    if keys.len() == 0 || dels.len() == 0 {
        m
    } else {
        spec_upsert_fold(spec_upsert(m, keys[0], dels[0]), keys.skip(1), dels.skip(1))
    }
}

/// A hash table over fixed-width keys with a zero sentinel: the zero key
/// lives in the escape slot, every other key in the probing table.
pub struct Hashtable<K: Key, V> {
    pub zero: Option<V>,
    pub table: Table0<K, V>,
}

impl<K: Key, V> View for Hashtable<K, V> {
    type V = Map<<K as View>::V, V>;

    open spec fn view(&self) -> Self::V {
        if self.zero is Some {
            self.table@.insert(zero_abs::<K>(), self.zero->0)
        } else {
            self.table@
        }
    }
}

impl<K: Key, V> Hashtable<K, V> {
    pub open spec fn wf(self) -> bool {
        &&& self.table.wf()
        &&& self.zero is Some ==> exists|a: <K as View>::V| K::excluded_abs(a)
    }

    /// The entry count: the probing table's plus the escape slot.
    pub open spec fn spec_len(self) -> nat {
        self.table.len as nat + if self.zero is Some {
            1nat
        } else {
            0nat
        }
    }

    pub open spec fn spec_cap(self) -> nat {
        self.table.cap_spec() + if self.zero is Some {
            1nat
        } else {
            0nat
        }
    }

    /// The length equals the number of distinct keys present.
    pub proof fn lemma_len_is_distinct_count(self)
        requires
            self.wf(),
        ensures
            self@.dom().finite(),
            self@.dom().len() == self.spec_len(),
    {
        self.table.lemma_len_is_distinct_count();
        if self.zero is Some {
            self.lemma_zero_not_in_table();
            vstd::set::axiom_set_insert_len(self.table@.dom(), zero_abs::<K>());
            assert(self@.dom() =~= self.table@.dom().insert(zero_abs::<K>()));
        }
    }

    /// The probing table never holds a zero-pattern key.
    pub proof fn lemma_zero_not_in_table(self)
        requires
            self.wf(),
        ensures
            forall|a: <K as View>::V|
                K::excluded_abs(a) ==> !(#[trigger] self.table@.contains_key(a)),
    {
        assert forall|a: <K as View>::V| K::excluded_abs(a) implies !(
        #[trigger] self.table@.contains_key(a)) by {
            crate::table0::lemma_view_contains(self.table.slots@, a);
            if exists|i: int|
                0 <= i < self.table.slots@.len() && self.table.slots@[i] is Full && (
                #[trigger] self.table.slots@[i]->Full_key)@ == a {
                let i = choose|i: int|
                    0 <= i < self.table.slots@.len() && self.table.slots@[i] is Full && (
                    #[trigger] self.table.slots@[i]->Full_key)@ == a;
                assert(crate::table0::slot_ok(self.table.slots@, i));
            }
        }
    }

    /// An empty table of the default 256 slots.
    pub fn new() -> (r: Self)
        ensures
            r.wf(),
            r@ == Map::<<K as View>::V, V>::empty(),
            r.spec_len() == 0,
    {
        Self::with_capacity(256)
    }

    /// An empty table of at least `capacity` slots.
    pub fn with_capacity(capacity: usize) -> (r: Self)
        requires
            capacity <= usize::MAX / 2,
        ensures
            r.wf(),
            r@ == Map::<<K as View>::V, V>::empty(),
            r.spec_len() == 0,
            r.spec_cap() >= capacity,
    {
        Hashtable { zero: None, table: Table0::with_capacity(capacity) }
    }

    pub fn is_empty(&self) -> (r: bool)
        requires
            self.wf(),
        ensures
            r == (self.spec_len() == 0),
    {
        self.len() == 0
    }

    pub fn len(&self) -> (r: usize)
        requires
            self.wf(),
        ensures
            r == self.spec_len(),
            r == self@.dom().len(),
    {
        let _cap = self.table.capacity();
        proof {
            self.lemma_len_is_distinct_count();
            crate::table0::lemma_count_full_bound(self.table.slots@);
            crate::table0::lemma_cap_lt_max(self.table.cap_spec());
        }
        if self.zero.is_some() {
            1 + self.table.len()
        } else {
            self.table.len()
        }
    }

    pub fn capacity(&self) -> (r: usize)
        requires
            self.wf(),
        ensures
            r == self.spec_cap(),
    {
        let _cap = self.table.capacity();
        proof {
            crate::table0::lemma_count_full_bound(self.table.slots@);
            crate::table0::lemma_cap_lt_max(self.table.cap_spec());
        }
        if self.zero.is_some() {
            1 + self.table.capacity()
        } else {
            self.table.capacity()
        }
    }

    pub fn get(&self, key: &K) -> (r: Option<&V>)
        requires
            self.wf(),
        ensures
            match r {
                Some(v) => self@.contains_key(key@) && *v == self@[key@],
                None => !self@.contains_key(key@),
            },
    {
        if K::equals_zero(key) {
            proof {
                if self.zero is Some {
                    K::lemma_excluded_unique(key@, zero_abs::<K>());
                }
                self.lemma_zero_not_in_table();
            }
            match &self.zero {
                Some(v) => Some(v),
                None => None,
            }
        } else {
            proof {
                if self.zero is Some {
                    assert(key@ != zero_abs::<K>());
                }
            }
            self.table.get(key)
        }
    }

    pub fn get_mut(&mut self, key: &K) -> (r: Option<&mut V>)
        requires
            old(self).wf(),
        ensures
            old(self)@.contains_key(key@) ==> r is Some && *r.unwrap() == old(self)@[key@]
                && final(self)@ == old(self)@.insert(key@, *final(r.unwrap())) && final(self).wf()
                && final(self).spec_len() == old(self).spec_len() && final(self).spec_cap() == old(self).spec_cap(),
            !old(self)@.contains_key(key@) ==> r is None && *final(self) == *old(self),
    {
        if K::equals_zero(key) {
            proof {
                if self.zero is Some {
                    K::lemma_excluded_unique(key@, zero_abs::<K>());
                }
                self.lemma_zero_not_in_table();
                if self.zero is Some {
                    assert forall|v2: V|
                        old(self).table@.insert(zero_abs::<K>(), v2) =~= old(self)@.insert(
                            key@,
                            v2,
                        ) by {}
                }
            }
            match &mut self.zero {
                Some(v) => Some(v),
                None => None,
            }
        } else {
            proof {
                if self.zero is Some {
                    assert(key@ != zero_abs::<K>());
                    self.lemma_zero_not_in_table();
                }
            }
            let ghost tv = self.table@;
            let ghost zv = self.zero;
            let r = self.table.get_mut(key);
            proof {
                if tv.contains_key(key@) && zv is Some {
                    assert forall|v2: V|
                        tv.insert(key@, v2).insert(zero_abs::<K>(), zv->0) =~= tv.insert(
                            zero_abs::<K>(),
                            zv->0,
                        ).insert(key@, v2) by {}
                }
            }
            r
        }
    }

    /// Inserts a key, growing first if the table would pass half full. A new
    /// key's slot is initialized with `value` and handed back as `Ok`; a
    /// present key's value is untouched and handed back as `Err`.
    pub fn insert(&mut self, key: K, value: V) -> (r: Result<&mut V, &mut V>)
        requires
            old(self).wf(),
            old(self).spec_len() + 1 <= usize::MAX / 4,
        ensures
            final(self).wf(),
            match r {
                Ok(v) => !old(self)@.contains_key(key@) && *v == value && final(self).spec_len()
                    == old(self).spec_len() + 1 && final(self)@ == old(self)@.insert(
                    key@,
                    *final(v),
                ),
                Err(v) => old(self)@.contains_key(key@) && *v == old(self)@[key@] && final(self).spec_len() == old(self).spec_len() && final(self)@ == old(self)@.insert(
                    key@,
                    *final(v),
                ),
            },
    {
        if K::equals_zero(&key) {
            proof {
                if self.zero is Some {
                    K::lemma_excluded_unique(key@, zero_abs::<K>());
                    assert forall|v2: V|
                        old(self).table@.insert(zero_abs::<K>(), v2) =~= old(self)@.insert(
                            key@,
                            v2,
                        ) by {}
                }
                self.lemma_zero_not_in_table();
            }
            if self.zero.is_some() {
                match &mut self.zero {
                    Some(v) => Err(v),
                    None => vstd::pervasive::unreached(),
                }
            } else {
                self.zero = Some(value);
                proof {
                    assert(K::excluded_abs(key@));
                    K::lemma_excluded_unique(key@, zero_abs::<K>());
                }
                match &mut self.zero {
                    Some(v) => Ok(v),
                    None => vstd::pervasive::unreached(),
                }
            }
        } else {
            proof {
                crate::table0::lemma_count_full_bound(self.table.slots@);
                if self.zero is Some {
                    assert(key@ != zero_abs::<K>());
                    self.lemma_zero_not_in_table();
                }
            }
            if (self.table.len() + 1) * 2 > self.table.capacity() {
                let cap = self.table.capacity();
                if cap >> 22usize == 0 {
                    proof {
                        lemma2_to64();
                        assert(cap >> 22usize == cap / 0x400000) by (bit_vector);
                        assert(self.table.cap_spec() * pow2(2) <= usize::MAX);
                    }
                    self.table.grow(2);
                } else {
                    proof {
                        lemma2_to64();
                        assert(self.table.cap_spec() * pow2(1) <= usize::MAX);
                    }
                    self.table.grow(1);
                }
                proof {
                    lemma2_to64();
                    let m0 = choose|m: nat|
                        3 <= m <= 63 && old(self).table.slots@.len() == pow2(m);
                    vstd::arithmetic::power2::lemma_pow2_pos(m0);
                    assert(self.table.len < self.table.cap_spec());
                }
            }
            let ghost tv = self.table@;
            let ghost zv = self.zero;
            let r = self.table.insert(key, value);
            proof {
                if zv is Some {
                    assert forall|v2: V|
                        tv.insert(key@, v2).insert(zero_abs::<K>(), zv->0) =~= tv.insert(
                            zero_abs::<K>(),
                            zv->0,
                        ).insert(key@, v2) by {}
                }
            }
            r
        }
    }
}

impl<K: Key + Copy, V: Copy> Hashtable<K, V> {
    /// All entries: the probing table's in slot order, then the escape
    /// slot's. Each present key appears exactly once.
    pub fn iter(&self) -> (r: Vec<(K, V)>)
        requires
            self.wf(),
        ensures
            r@.len() == self.spec_len(),
            forall|j: int|
                0 <= j < r@.len() ==> self@.contains_key((#[trigger] r@[j]).0@) && self@[r@[j].0@]
                    == r@[j].1,
            forall|j1: int, j2: int|
                0 <= j1 < j2 < r@.len() ==> (#[trigger] r@[j1]).0@ != (#[trigger] r@[j2]).0@,
            forall|a: <K as View>::V| #[trigger]
                self@.contains_key(a) ==> exists|j: int|
                    0 <= j < r@.len() && (#[trigger] r@[j]).0@ == a,
    {
        let mut r = self.table.iter();
        let ghost r0 = r@;
        proof {
            self.lemma_zero_not_in_table();
        }
        match &self.zero {
            Some(v) => {
                let zk = K::zero_key();
                proof {
                    K::lemma_excluded_unique(zk@, zero_abs::<K>());
                }
                r.push((zk, *v));
                proof {
                    assert forall|j: int| 0 <= j < r@.len() implies self@.contains_key(
                        (#[trigger] r@[j]).0@) && self@[r@[j].0@] == r@[j].1 by {
                        if j < r0.len() {
                            assert(r@[j] == r0[j]);
                            assert(self.table@.contains_key(r0[j].0@));
                            assert(r0[j].0@ != zero_abs::<K>());
                        } else {
                            assert(r@[j].0@ == zero_abs::<K>());
                        }
                    }
                    assert forall|j1: int, j2: int| 0 <= j1 < j2 < r@.len() implies (
                    #[trigger] r@[j1]).0@ != (#[trigger] r@[j2]).0@ by {
                        if j2 == r@.len() - 1 {
                            assert(r@[j1] == r0[j1]);
                            assert(self.table@.contains_key(r0[j1].0@));
                            assert(r@[j2].0@ == zero_abs::<K>());
                        } else {
                            assert(r@[j1] == r0[j1] && r@[j2] == r0[j2]);
                        }
                    }
                    assert forall|a: <K as View>::V| #[trigger] self@.contains_key(
                        a,
                    ) implies exists|j: int| 0 <= j < r@.len() && (#[trigger] r@[j]).0@ == a by {
                        if a == zero_abs::<K>() {
                            assert(r@[r@.len() - 1].0@ == a);
                        } else {
                            assert(self.table@.contains_key(a));
                            let j = choose|j: int| 0 <= j < r0.len() && (#[trigger] r0[j]).0@ == a;
                            assert(r@[j].0@ == a);
                        }
                    }
                }
            },
            None => {},
        }
        r
    }
}

impl<K: Key, V: Copy + Combine> Hashtable<K, V> {
    /// Inserts the key with `d` if absent, else lets the present value
    /// absorb `d`.
    pub fn upsert(&mut self, key: K, d: V)
        requires
            old(self).wf(),
            old(self).spec_len() + 1 <= usize::MAX / 4,
        ensures
            final(self).wf(),
            final(self)@ == spec_upsert(old(self)@, key@, d),
            final(self).spec_len() <= old(self).spec_len() + 1,
    {
        match self.insert(key, d) {
            Ok(_) => {},
            Err(v) => {
                let cur = *v;
                *v = cur.combine(d);
            },
        }
    }

    /// Drains `other` into `self`; a key on both sides keeps `self`'s value
    /// combined with `other`'s. Grows first so that every entry fits.
    pub fn merge(&mut self, other: Self)
        requires
            old(self).wf(),
            other.wf(),
            old(self).spec_len() + other.spec_len() <= usize::MAX / 4,
        ensures
            final(self).wf(),
            final(self)@ == spec_merge(old(self)@, other@),
    {
        let ghost m1 = self@;
        let ghost m2 = other@;
        let ghost tv1 = self.table@;
        let ghost tv2 = other.table@;
        let ghost z1 = self.zero;
        let ghost z2 = other.zero;
        proof {
            self.lemma_zero_not_in_table();
            other.lemma_zero_not_in_table();
        }
        let Hashtable { zero: other_zero, table: other_table } = other;
        // settle the escape slots first
        match other_zero {
            Some(ov) => {
                let had = self.zero.is_some();
                if had {
                    match &mut self.zero {
                        Some(sv) => {
                            let cur = *sv;
                            *sv = cur.combine(ov);
                        },
                        None => {},
                    }
                } else {
                    self.zero = Some(ov);
                }
            },
            None => {},
        }
        let ghost z_after = self.zero;
        // make room, then drain the probing table
        proof {
            crate::table0::lemma_count_full_bound(self.table.slots@);
            crate::table0::lemma_count_full_bound(other_table.slots@);
        }
        let cap0 = self.table.capacity();
        while (self.table.len() + other_table.len()) * 2 > self.table.capacity()
            invariant
                self.table.wf(),
                self.table@ == tv1,
                self.table.len as nat + other_table.len as nat <= usize::MAX / 4,
                self.zero == z_after,
                self.table.len == old(self).table.len,
                self.table.cap_spec() <= usize::MAX,
            decreases usize::MAX - self.table.cap_spec(),
        {
            let cap = self.table.capacity();
            let ghost pre_cap = self.table.cap_spec();
            proof {
                lemma2_to64();
                let m0 = choose|m: nat| 3 <= m <= 63 && self.table.slots@.len() == pow2(m);
                vstd::arithmetic::power2::lemma_pow2_pos(m0);
            }
            if cap >> 22usize == 0 {
                proof {
                    assert(cap >> 22usize == cap / 0x400000) by (bit_vector);
                    assert(self.table.cap_spec() * pow2(2) <= usize::MAX);
                }
                self.table.grow(2);
            } else {
                proof {
                    assert(self.table.cap_spec() * pow2(1) <= usize::MAX);
                }
                self.table.grow(1);
            }
            proof {
                assert(self.table.cap_spec() > pre_cap);
            }
        }
        self.table.merge(other_table);
        proof {
            let za = zero_abs::<K>();
            let mm = spec_merge(m1, m2);
            assert(self.table@ == spec_merge(tv1, tv2));
            assert forall|a: <K as View>::V| #[trigger] self@.contains_key(a) implies
                mm.contains_key(a) && self@[a] == mm[a] by {
                if z_after is Some && a == za {
                    assert(!tv1.contains_key(za) && !tv2.contains_key(za));
                    assert(self@[za] == z_after->0);
                    if z1 is Some && z2 is Some {
                        assert(m1.contains_key(za) && m1[za] == z1->0);
                        assert(m2.contains_key(za) && m2[za] == z2->0);
                        assert(mm[za] == (z1->0).combine_spec(z2->0));
                    } else if z1 is Some {
                        assert(m1.contains_key(za) && m1[za] == z1->0);
                        assert(!m2.contains_key(za));
                    } else {
                        assert(m2.contains_key(za) && m2[za] == z2->0);
                        assert(!m1.contains_key(za));
                    }
                } else {
                    assert(self.table@.contains_key(a));
                    assert(!(z_after is Some) || a != za);
                    assert(tv1.contains_key(a) || tv2.contains_key(a));
                    assert(m1.contains_key(a) <==> tv1.contains_key(a));
                    assert(m2.contains_key(a) <==> tv2.contains_key(a));
                    assert(tv1.contains_key(a) ==> m1[a] == tv1[a]);
                    assert(tv2.contains_key(a) ==> m2[a] == tv2[a]);
                }
            }
            assert forall|a: <K as View>::V| #[trigger] mm.contains_key(a) implies
                self@.contains_key(a) by {
                if a == za && (z1 is Some || z2 is Some) {
                    assert(z_after is Some);
                } else {
                    assert(m1.contains_key(a) || m2.contains_key(a));
                    assert(m1.contains_key(a) ==> tv1.contains_key(a));
                    assert(m2.contains_key(a) ==> tv2.contains_key(a));
                    assert(self.table@.contains_key(a));
                }
            }
            assert(self@ =~= mm);
        }
    }
}

impl<K: Key + Copy, V: Copy + Combine> Hashtable<K, V> {
    /// Applies `(key, delta)` pairs in order: each inserts its key with the
    /// delta, or lets the present value absorb it. This is the meaning of the
    /// vectorized bulk path, which commits one lane per distinct slot per
    /// step and so is output-equivalent to this in-order loop.
    pub fn batch_insert(&mut self, keys: &Vec<K>, dels: &Vec<V>)
        requires
            old(self).wf(),
            keys@.len() == dels@.len(),
            old(self).spec_len() + keys@.len() <= usize::MAX / 4,
        ensures
            final(self).wf(),
            final(self)@ == spec_upsert_fold(old(self)@, keys@.map_values(|k: K| k@), dels@),
    {
        let ghost goal = spec_upsert_fold(old(self)@, keys@.map_values(|k: K| k@), dels@);
        let n = keys.len();
        let mut i: usize = 0;
        proof {
            assert(keys@.map_values(|k: K| k@).skip(0) =~= keys@.map_values(|k: K| k@));
            assert(dels@.skip(0) =~= dels@);
        }
        while i < n
            invariant
                self.wf(),
                n == keys@.len(),
                keys@.len() == dels@.len(),
                i <= n,
                self.spec_len() + (n - i) <= usize::MAX / 4,
                spec_upsert_fold(
                    self@,
                    keys@.map_values(|k: K| k@).skip(i as int),
                    dels@.skip(i as int),
                ) == goal,
            decreases n - i,
        {
            let ghost ks = keys@.map_values(|k: K| k@).skip(i as int);
            let ghost ds = dels@.skip(i as int);
            proof {
                assert(ks[0] == keys@[i as int]@);
                assert(ds[0] == dels@[i as int]);
                assert(ks.skip(1) =~= keys@.map_values(|k: K| k@).skip(i + 1));
                assert(ds.skip(1) =~= dels@.skip(i + 1));
            }
            self.upsert(keys[i], dels[i]);
            i = i + 1;
        }
        proof {
            assert(keys@.map_values(|k: K| k@).skip(n as int) =~= Seq::<<K as View>::V>::empty());
            assert(dels@.skip(n as int) =~= Seq::<V>::empty());
        }
    }
}

} // verus!
