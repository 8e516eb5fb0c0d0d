//! A probing table with the escape slot built in: the same open-addressing
//! design as [`Table0`], with the zero key's entry held beside the array and
//! counted in the length. Unlike the general table it does not grow on
//! insert; the bulk-update layer above grows it up front.

use vstd::prelude::*;
use vstd::arithmetic::power2::{pow2, lemma2_to64};
use crate::table0::Table0;
use crate::hashtable::zero_abs;
use crate::traits::Key;

verus! {

/// A probing table plus built-in zero-key escape slot.
pub struct Table2<K: Key, V> {
    pub table: Table0<K, V>,
    pub zero: Option<V>,
}

impl<K: Key, V> View for Table2<K, V> {
    type V = Map<<K as View>::V, V>;

    open spec fn view(&self) -> Self::V {
        if self.zero is Some {
            self.table@.insert(zero_abs::<K>(), self.zero->0)
        } else {
            self.table@
        }
    }
}

impl<K: Key, V> Table2<K, V> {
    pub open spec fn wf(self) -> bool {
        &&& self.table.wf()
        &&& self.zero is Some ==> exists|a: <K as View>::V| K::excluded_abs(a)
    }

    /// The entry count, the escape slot included.
    pub open spec fn spec_len(self) -> nat {
        self.table.len as nat + if self.zero is Some {
            1nat
        } else {
            0nat
        }
    }

    pub open spec fn spec_cap(self) -> nat {
        self.table.cap_spec()
    }

    /// The length equals the number of distinct keys present.
    pub proof fn lemma_len_is_distinct_count(self)
        requires
            self.wf(),
        ensures
            self@.dom().finite(),
            self@.dom().len() == self.spec_len(),
    {
        self.table.lemma_len_is_distinct_count();
        if self.zero is Some {
            self.lemma_zero_not_in_table();
            vstd::set::axiom_set_insert_len(self.table@.dom(), zero_abs::<K>());
            assert(self@.dom() =~= self.table@.dom().insert(zero_abs::<K>()));
        }
    }

    /// The probing array never holds a zero-pattern key.
    pub proof fn lemma_zero_not_in_table(self)
        requires
            self.wf(),
        ensures
            forall|a: <K as View>::V|
                K::excluded_abs(a) ==> !(#[trigger] self.table@.contains_key(a)),
    {
        assert forall|a: <K as View>::V| K::excluded_abs(a) implies !(
        #[trigger] self.table@.contains_key(a)) by {
            crate::table0::lemma_view_contains(self.table.slots@, a);
            if exists|i: int|
                0 <= i < self.table.slots@.len() && self.table.slots@[i] is Full && (
                #[trigger] self.table.slots@[i]->Full_key)@ == a {
                let i = choose|i: int|
                    0 <= i < self.table.slots@.len() && self.table.slots@[i] is Full && (
                    #[trigger] self.table.slots@[i]->Full_key)@ == a;
                assert(crate::table0::slot_ok(self.table.slots@, i));
            }
        }
    }

    pub fn new() -> (r: Self)
        ensures
            r.wf(),
            r@ == Map::<<K as View>::V, V>::empty(),
            r.spec_len() == 0,
            r.spec_cap() == 256,
    {
        let r = Self::with_capacity(256);
        proof {
            let j = choose|j: nat| 3 <= j <= 63 && r.table.slots@.len() == pow2(j);
            lemma2_to64();
            if j < 8 {
                vstd::arithmetic::power2::lemma_pow2_strictly_increases(j, 8);
            } else if j > 8 {
                if j > 9 {
                    vstd::arithmetic::power2::lemma_pow2_strictly_increases(9, j);
                }
                assert(pow2(9) == 512);
            }
        }
        r
    }

    pub fn with_capacity(capacity: usize) -> (r: Self)
        requires
            capacity <= usize::MAX / 2,
        ensures
            r.wf(),
            r@ == Map::<<K as View>::V, V>::empty(),
            r.spec_len() == 0,
            r.spec_cap() >= capacity,
            r.spec_cap() == 8 || r.spec_cap() < 2 * capacity,
    {
        Table2 { table: Table0::with_capacity(capacity), zero: None }
    }

    pub fn len(&self) -> (r: usize)
        requires
            self.wf(),
        ensures
            r == self.spec_len(),
            r == self@.dom().len(),
    {
        let _cap = self.table.capacity();
        proof {
            self.lemma_len_is_distinct_count();
            crate::table0::lemma_count_full_bound(self.table.slots@);
            crate::table0::lemma_cap_lt_max(self.table.cap_spec());
        }
        if self.zero.is_some() {
            1 + self.table.len()
        } else {
            self.table.len()
        }
    }

    pub fn capacity(&self) -> (r: usize)
        requires
            self.wf(),
        ensures
            r == self.spec_cap(),
    {
        self.table.capacity()
    }

    pub fn get(&self, key: &K) -> (r: Option<&V>)
        requires
            self.wf(),
        ensures
            match r {
                Some(v) => self@.contains_key(key@) && *v == self@[key@],
                None => !self@.contains_key(key@),
            },
    {
        if K::equals_zero(key) {
            proof {
                if self.zero is Some {
                    K::lemma_excluded_unique(key@, zero_abs::<K>());
                }
                self.lemma_zero_not_in_table();
            }
            match &self.zero {
                Some(v) => Some(v),
                None => None,
            }
        } else {
            proof {
                if self.zero is Some {
                    assert(key@ != zero_abs::<K>());
                }
            }
            self.table.get(key)
        }
    }

    pub fn get_mut(&mut self, key: &K) -> (r: Option<&mut V>)
        requires
            old(self).wf(),
        ensures
            old(self)@.contains_key(key@) ==> r is Some && *r.unwrap() == old(self)@[key@]
                && final(self)@ == old(self)@.insert(key@, *final(r.unwrap())) && final(self).wf()
                && final(self).spec_len() == old(self).spec_len() && final(self).spec_cap() == old(self).spec_cap(),
            !old(self)@.contains_key(key@) ==> r is None && *final(self) == *old(self),
    {
        if K::equals_zero(key) {
            proof {
                if self.zero is Some {
                    K::lemma_excluded_unique(key@, zero_abs::<K>());
                }
                self.lemma_zero_not_in_table();
                if self.zero is Some {
                    assert forall|v2: V|
                        old(self).table@.insert(zero_abs::<K>(), v2) =~= old(self)@.insert(
                            key@,
                            v2,
                        ) by {}
                }
            }
            match &mut self.zero {
                Some(v) => Some(v),
                None => None,
            }
        } else {
            proof {
                if self.zero is Some {
                    assert(key@ != zero_abs::<K>());
                    self.lemma_zero_not_in_table();
                }
            }
            let ghost tv = self.table@;
            let ghost zv = self.zero;
            let r = self.table.get_mut(key);
            proof {
                if tv.contains_key(key@) && zv is Some {
                    assert forall|v2: V|
                        tv.insert(key@, v2).insert(zero_abs::<K>(), zv->0) =~= tv.insert(
                            zero_abs::<K>(),
                            zv->0,
                        ).insert(key@, v2) by {}
                }
            }
            r
        }
    }

    /// Inserts a key into a table the caller has kept from filling: the
    /// bulk-update layer grows before its vector loop, so the loop itself
    /// never resizes.
    pub fn insert(&mut self, key: K, value: V) -> (r: Result<&mut V, &mut V>)
        requires
            old(self).wf(),
            old(self).table.len < old(self).table.cap_spec(),
        ensures
            final(self).wf(),
            final(self).spec_cap() == old(self).spec_cap(),
            !K::excluded_abs(key@) ==> final(self).zero == old(self).zero,
            !K::excluded_abs(key@) && r is Ok ==> final(self).table.len == old(self).table.len
                + 1,
            !K::excluded_abs(key@) && r is Err ==> final(self).table.len == old(self).table.len,
            K::excluded_abs(key@) ==> final(self).table.len == old(self).table.len,
            match r {
                Ok(v) => !old(self)@.contains_key(key@) && *v == value && final(self).spec_len()
                    == old(self).spec_len() + 1 && final(self)@ == old(self)@.insert(
                    key@,
                    *final(v),
                ),
                Err(v) => old(self)@.contains_key(key@) && *v == old(self)@[key@] && final(self).spec_len() == old(self).spec_len() && final(self)@ == old(self)@.insert(
                    key@,
                    *final(v),
                ),
            },
    {
        if K::equals_zero(&key) {
            proof {
                if self.zero is Some {
                    K::lemma_excluded_unique(key@, zero_abs::<K>());
                    assert forall|v2: V|
                        old(self).table@.insert(zero_abs::<K>(), v2) =~= old(self)@.insert(
                            key@,
                            v2,
                        ) by {}
                }
                self.lemma_zero_not_in_table();
            }
            if self.zero.is_some() {
                match &mut self.zero {
                    Some(v) => Err(v),
                    None => vstd::pervasive::unreached(),
                }
            } else {
                self.zero = Some(value);
                proof {
                    assert(K::excluded_abs(key@));
                    K::lemma_excluded_unique(key@, zero_abs::<K>());
                }
                match &mut self.zero {
                    Some(v) => Ok(v),
                    None => vstd::pervasive::unreached(),
                }
            }
        } else {
            proof {
                if self.zero is Some {
                    assert(key@ != zero_abs::<K>());
                    self.lemma_zero_not_in_table();
                }
            }
            let ghost tv = self.table@;
            let ghost zv = self.zero;
            let r = self.table.insert(key, value);
            proof {
                if zv is Some {
                    assert forall|v2: V|
                        tv.insert(key@, v2).insert(zero_abs::<K>(), zv->0) =~= tv.insert(
                            zero_abs::<K>(),
                            zv->0,
                        ).insert(key@, v2) by {}
                }
            }
            r
        }
    }

    /// Multiplies the capacity fourfold while tiny, twofold otherwise,
    /// preserving every entry.
    pub fn grow(&mut self)
        requires
            old(self).wf(),
            old(self).spec_cap() * 2 <= usize::MAX,
        ensures
            final(self).wf(),
            final(self)@ == old(self)@,
            final(self).spec_len() == old(self).spec_len(),
            final(self).spec_cap() >= old(self).spec_cap() * 2,
            final(self).spec_cap() <= usize::MAX,
            final(self).zero == old(self).zero,
            final(self).table.len == old(self).table.len,
    {
        let cap = self.table.capacity();
        proof {
            lemma2_to64();
        }
        if cap < 16 {
            proof {
                assert(self.table.cap_spec() * pow2(2) <= usize::MAX);
            }
            self.table.grow(2);
        } else {
            proof {
                assert(self.table.cap_spec() * pow2(1) <= usize::MAX);
            }
            self.table.grow(1);
        }
    }
}

impl<K: Key + Copy, V: Copy> Table2<K, V> {
    /// All entries: the probing array's in slot order, then the escape
    /// slot's. Each present key appears exactly once.
    pub fn iter(&self) -> (r: Vec<(K, V)>)
        requires
            self.wf(),
        ensures
            r@.len() == self.spec_len(),
            forall|j: int|
                0 <= j < r@.len() ==> self@.contains_key((#[trigger] r@[j]).0@) && self@[r@[j].0@]
                    == r@[j].1,
            forall|j1: int, j2: int|
                0 <= j1 < j2 < r@.len() ==> (#[trigger] r@[j1]).0@ != (#[trigger] r@[j2]).0@,
            forall|a: <K as View>::V| #[trigger]
                self@.contains_key(a) ==> exists|j: int|
                    0 <= j < r@.len() && (#[trigger] r@[j]).0@ == a,
    {
        let mut r = self.table.iter();
        let ghost r0 = r@;
        proof {
            self.lemma_zero_not_in_table();
        }
        match &self.zero {
            Some(v) => {
                let zk = K::zero_key();
                proof {
                    K::lemma_excluded_unique(zk@, zero_abs::<K>());
                }
                r.push((zk, *v));
                proof {
                    assert forall|j: int| 0 <= j < r@.len() implies self@.contains_key(
                        (#[trigger] r@[j]).0@) && self@[r@[j].0@] == r@[j].1 by {
                        if j < r0.len() {
                            assert(r@[j] == r0[j]);
                            assert(self.table@.contains_key(r0[j].0@));
                            assert(r0[j].0@ != zero_abs::<K>());
                        } else {
                            assert(r@[j].0@ == zero_abs::<K>());
                        }
                    }
                    assert forall|j1: int, j2: int| 0 <= j1 < j2 < r@.len() implies (
                    #[trigger] r@[j1]).0@ != (#[trigger] r@[j2]).0@ by {
                        if j2 == r@.len() - 1 {
                            assert(r@[j1] == r0[j1]);
                            assert(self.table@.contains_key(r0[j1].0@));
                            assert(r@[j2].0@ == zero_abs::<K>());
                        } else {
                            assert(r@[j1] == r0[j1] && r@[j2] == r0[j2]);
                        }
                    }
                    assert forall|a: <K as View>::V| #[trigger] self@.contains_key(
                        a,
                    ) implies exists|j: int| 0 <= j < r@.len() && (#[trigger] r@[j]).0@ == a by {
                        if a == zero_abs::<K>() {
                            assert(r@[r@.len() - 1].0@ == a);
                        } else {
                            assert(self.table@.contains_key(a));
                            let j = choose|j: int| 0 <= j < r0.len() && (#[trigger] r0[j]).0@ == a;
                            assert(r@[j].0@ == a);
                        }
                    }
                }
            },
            None => {},
        }
        r
    }
}

} // verus!
