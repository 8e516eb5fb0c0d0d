//! A sharded probing table: 256 buckets selected by the top eight bits of a
//! key's hash, each an independent open-addressing table, plus one escape
//! slot for the zero key. Sharding keeps each growth step small.

use vstd::prelude::*;
use vstd::arithmetic::power2::pow2;
use crate::table0::Table0;
use crate::hashtable::zero_abs;
use crate::traits::Key;

verus! {

/// The bucket the top eight hash bits select.
pub open spec fn bucket_of<K: Key>(a: <K as View>::V) -> int {
    K::hash_abs(a) as int / 0x100000000000000
}

/// The bucketed entries of a table sequence, as one map.
pub open spec fn sharded_view<K: Key, V>(ts: Seq<Table0<K, V>>) -> Map<<K as View>::V, V> {
    Map::new(
        |a: <K as View>::V| !K::excluded_abs(a) && ts[bucket_of::<K>(a)]@.contains_key(a),
        |a: <K as View>::V| ts[bucket_of::<K>(a)]@[a],
    )
}

/// A map together with the escape slot's entry, if present.
pub open spec fn spec_with_zero<K: Key, V>(m: Map<<K as View>::V, V>, zv: Option<V>) -> Map<
    <K as View>::V,
    V,
> {
    if zv is Some {
        m.insert(zero_abs::<K>(), zv->0)
    } else {
        m
    }
}

/// Every bucket well formed and holding only its own hash prefix.
pub open spec fn tables_wf<K: Key, V>(ts: Seq<Table0<K, V>>) -> bool {
    &&& ts.len() == 256
    &&& forall|b: int| 0 <= b < 256 ==> (#[trigger] ts[b]).wf()
    &&& forall|b: int, a: <K as View>::V|
        0 <= b < 256 && #[trigger] ts[b]@.contains_key(a) ==> bucket_of::<K>(a) == b
}

/// The summed lengths of the first `n` buckets.
pub open spec fn len_sum<K: Key, V>(ts: Seq<Table0<K, V>>, n: int) -> nat
    decreases n,
{
    if n <= 0 {
        0nat
    } else {
        len_sum(ts, n - 1) + ts[n - 1].len as nat
    }
}

pub open spec fn cap_sum<K: Key, V>(ts: Seq<Table0<K, V>>, n: int) -> nat
    decreases n,
{
    if n <= 0 {
        0nat
    } else {
        cap_sum(ts, n - 1) + ts[n - 1].cap_spec()
    }
}

proof fn lemma_len_sum_zero<K: Key, V>(ts: Seq<Table0<K, V>>, n: int)
    requires
        forall|b: int| 0 <= b < n ==> (#[trigger] ts[b]).len == 0,
    ensures
        len_sum(ts, n) == 0,
    decreases n,
{
    if n > 0 {
        lemma_len_sum_zero(ts, n - 1);
    }
}

proof fn lemma_len_sum_prefix<K: Key, V>(ts: Seq<Table0<K, V>>, m: int, n: int)
    requires
        0 <= m <= n,
    ensures
        len_sum(ts, m) <= len_sum(ts, n),
    decreases n,
{
    if m < n {
        lemma_len_sum_prefix(ts, m, n - 1);
    }
}

proof fn lemma_cap_sum_prefix<K: Key, V>(ts: Seq<Table0<K, V>>, m: int, n: int)
    requires
        0 <= m <= n,
    ensures
        cap_sum(ts, m) <= cap_sum(ts, n),
    decreases n,
{
    if m < n {
        lemma_cap_sum_prefix(ts, m, n - 1);
    }
}

/// Changing one bucket changes the summed length by that bucket's change.
proof fn lemma_len_sum_update<K: Key, V>(ts: Seq<Table0<K, V>>, b: int, x: Table0<K, V>, n: int)
    requires
        0 <= b < ts.len(),
        n <= ts.len(),
    ensures
        b < n ==> len_sum(ts.update(b, x), n) + ts[b].len == len_sum(ts, n) + x.len,
        n <= b ==> len_sum(ts.update(b, x), n) == len_sum(ts, n),
    decreases n,
{
    if n > 0 {
        lemma_len_sum_update(ts, b, x, n - 1);
    }
}

proof fn lemma_len_sum_le<K: Key, V>(ts: Seq<Table0<K, V>>, m: int, n: int)
    requires
        0 < m <= n <= ts.len(),
    ensures
        ts[m - 1].len as nat <= len_sum(ts, n),
    decreases n,
{
    if m < n {
        lemma_len_sum_le(ts, m, n - 1);
    }
}

/// Replacing bucket `b` by one that binds `a0` (whose hash prefix is `b`)
/// and keeps everything else inserts `a0` into the sharded view.
proof fn lemma_shard_insert<K: Key, V>(
    ts: Seq<Table0<K, V>>,
    b: int,
    x: Table0<K, V>,
    a0: <K as View>::V,
    vf: V,
)
    requires
        tables_wf(ts),
        0 <= b < 256,
        x.wf(),
        x@ == ts[b]@.insert(a0, vf),
        bucket_of::<K>(a0) == b,
        !K::excluded_abs(a0),
    ensures
        tables_wf(ts.update(b, x)),
        sharded_view(ts.update(b, x)) == sharded_view(ts).insert(a0, vf),
{
    let ts2 = ts.update(b, x);
    assert forall|b2: int, a: <K as View>::V|
        0 <= b2 < 256 && #[trigger] ts2[b2]@.contains_key(a) implies bucket_of::<K>(a) == b2 by {
        if b2 == b {
            if a != a0 {
                assert(ts[b]@.contains_key(a));
            }
        } else {
            assert(ts[b2]@.contains_key(a));
        }
    }
    assert(sharded_view(ts2) =~= sharded_view(ts).insert(a0, vf));
}

/// A 256-bucket sharded table.
pub struct TwolevelHashtable<K: Key, V> {
    pub zero: Option<V>,
    pub tables: Vec<Table0<K, V>>,
}

impl<K: Key, V> View for TwolevelHashtable<K, V> {
    type V = Map<<K as View>::V, V>;

    open spec fn view(&self) -> Self::V {
        spec_with_zero::<K, V>(sharded_view(self.tables@), self.zero)
    }
}

impl<K: Key, V> TwolevelHashtable<K, V> {
    pub open spec fn wf(self) -> bool {
        &&& tables_wf(self.tables@)
        &&& self.zero is Some ==> exists|a: <K as View>::V| K::excluded_abs(a)
    }

    pub open spec fn spec_len(self) -> nat {
        len_sum(self.tables@, 256) + if self.zero is Some {
            1nat
        } else {
            0nat
        }
    }

    pub open spec fn spec_cap(self) -> nat {
        cap_sum(self.tables@, 256) + if self.zero is Some {
            1nat
        } else {
            0nat
        }
    }

    /// An empty table of 256 buckets of 256 slots each.
    pub fn new() -> (r: Self)
        ensures
            r.wf(),
            r@ == Map::<<K as View>::V, V>::empty(),
            r.spec_len() == 0,
    {
        let mut tables: Vec<Table0<K, V>> = Vec::new();
        let mut i: usize = 0;
        while i < 256
            invariant
                tables@.len() == i,
                i <= 256,
                forall|b: int|
                    0 <= b < i ==> (#[trigger] tables@[b]).wf() && tables@[b]@ == Map::<
                        <K as View>::V,
                        V,
                    >::empty() && tables@[b].len == 0,
            decreases 256 - i,
        {
            tables.push(Table0::with_capacity(256));
            i = i + 1;
        }
        let r = TwolevelHashtable { zero: None, tables };
        proof {
            lemma_len_sum_zero(r.tables@, 256);
            assert(r@ =~= Map::<<K as View>::V, V>::empty());
        }
        r
    }

    pub fn is_empty(&self) -> (r: bool)
        requires
            self.wf(),
            self.spec_len() <= usize::MAX,
        ensures
            r == (self.spec_len() == 0),
    {
        self.len() == 0
    }

    /// The entry count: the buckets' lengths plus the escape slot.
    pub fn len(&self) -> (r: usize)
        requires
            self.wf(),
            self.spec_len() <= usize::MAX,
        ensures
            r == self.spec_len(),
    {
        let mut total: usize = 0;
        let mut i: usize = 0;
        while i < 256
            invariant
                self.wf(),
                i <= 256,
                total == len_sum(self.tables@, i as int),
                self.spec_len() <= usize::MAX,
            decreases 256 - i,
        {
            proof {
                lemma_len_sum_prefix(self.tables@, i as int + 1, 256);
            }
            total = total + self.tables[i].len();
            i = i + 1;
        }
        if self.zero.is_some() {
            total + 1
        } else {
            total
        }
    }

    /// The summed capacity of the buckets plus the escape slot.
    pub fn capacity(&self) -> (r: usize)
        requires
            self.wf(),
            self.spec_cap() <= usize::MAX,
        ensures
            r == self.spec_cap(),
    {
        let mut total: usize = 0;
        let mut i: usize = 0;
        while i < 256
            invariant
                self.wf(),
                i <= 256,
                total == cap_sum(self.tables@, i as int),
                self.spec_cap() <= usize::MAX,
            decreases 256 - i,
        {
            proof {
                lemma_cap_sum_prefix(self.tables@, i as int + 1, 256);
            }
            total = total + self.tables[i].capacity();
            i = i + 1;
        }
        if self.zero.is_some() {
            total + 1
        } else {
            total
        }
    }

    /// The bucket index of a key, from the top eight bits of its hash.
    fn bucket_index(key: &K) -> (b: usize)
        ensures
            b as int == bucket_of::<K>(key@),
            b < 256,
    {
        let h = key.hash();
        proof {
            vstd::bits::lemma_u64_shr_is_div(h, 56);
            vstd::arithmetic::power2::lemma2_to64_rest();
            assert(pow2(56) == 0x100000000000000);
        }
        (h >> 56u64) as usize
    }

    pub fn get(&self, key: &K) -> (r: Option<&V>)
        requires
            self.wf(),
        ensures
            match r {
                Some(v) => self@.contains_key(key@) && *v == self@[key@],
                None => !self@.contains_key(key@),
            },
    {
        if K::equals_zero(key) {
            proof {
                if self.zero is Some {
                    K::lemma_excluded_unique(key@, zero_abs::<K>());
                }
            }
            match &self.zero {
                Some(v) => Some(v),
                None => None,
            }
        } else {
            let b = Self::bucket_index(key);
            proof {
                if self.zero is Some {
                    assert(key@ != zero_abs::<K>());
                }
                if self.tables@[b as int]@.contains_key(key@) {
                    assert(self@.contains_key(key@));
                }
            }
            self.tables[b].get(key)
        }
    }

    pub fn get_mut(&mut self, key: &K) -> (r: Option<&mut V>)
        requires
            old(self).wf(),
        ensures
            old(self)@.contains_key(key@) ==> r is Some && *r.unwrap() == old(self)@[key@]
                && final(self)@ == old(self)@.insert(key@, *final(r.unwrap())) && final(self).wf()
                && final(self).spec_len() == old(self).spec_len(),
            !old(self)@.contains_key(key@) ==> r is None && final(self)@ == old(self)@ && final(self).wf() && final(self).spec_len() == old(self).spec_len(),
    {
        if K::equals_zero(key) {
            proof {
                if self.zero is Some {
                    K::lemma_excluded_unique(key@, zero_abs::<K>());
                    assert forall|v2: V|
                        sharded_view(old(self).tables@).insert(zero_abs::<K>(), v2) =~= old(self)@.insert(key@, v2) by {}
                }
            }
            match &mut self.zero {
                Some(v) => Some(v),
                None => None,
            }
        } else {
            let b = Self::bucket_index(key);
            let ghost ts0 = self.tables@;
            let ghost zv = self.zero;
            proof {
                if self.zero is Some {
                    assert(key@ != zero_abs::<K>());
                }
                if ts0[b as int]@.contains_key(key@) {
                    assert forall|x2: Table0<K, V>, vf: V|
                        #![trigger ts0.update(b as int, x2), ts0[b as int]@.insert(key@, vf)]
                        x2.wf() && x2@ == ts0[b as int]@.insert(key@, vf) && x2.len == ts0[
                        b as int].len implies tables_wf(ts0.update(b as int, x2)) && len_sum(
                        ts0.update(b as int, x2),
                        256,
                    ) == len_sum(ts0, 256) && spec_with_zero::<K, V>(
                        sharded_view(ts0.update(b as int, x2)),
                        zv,
                    ) == spec_with_zero::<K, V>(sharded_view(ts0), zv).insert(key@, vf) by {
                        lemma_shard_insert(ts0, b as int, x2, key@, vf);
                        lemma_len_sum_update(ts0, b as int, x2, 256);
                        if zv is Some {
                            assert(sharded_view(ts0).insert(key@, vf).insert(
                                zero_abs::<K>(),
                                zv->0,
                            ) =~= sharded_view(ts0).insert(zero_abs::<K>(), zv->0).insert(
                                key@,
                                vf,
                            ));
                        }
                    }
                    assert(old(self)@.contains_key(key@) && old(self)@[key@] == ts0[
                        b as int]@[key@]);
                } else {
                    assert(!old(self)@.contains_key(key@));
                    assert forall|x2: Table0<K, V>|
                        #![trigger ts0.update(b as int, x2)]
                        x2 == ts0[b as int] implies ts0.update(b as int, x2) =~= ts0 by {}
                }
            }
            let tb = &mut self.tables[b];
            tb.get_mut(key)
        }
    }

    /// Inserts a key, growing its bucket first if it would pass half full.
    pub fn insert(&mut self, key: K, value: V) -> (r: Result<&mut V, &mut V>)
        requires
            old(self).wf(),
            old(self).spec_len() + 1 <= usize::MAX / 4,
        ensures
            final(self).wf(),
            match r {
                Ok(v) => !old(self)@.contains_key(key@) && *v == value && final(self).spec_len()
                    == old(self).spec_len() + 1 && final(self)@ == old(self)@.insert(
                    key@,
                    *final(v),
                ),
                Err(v) => old(self)@.contains_key(key@) && *v == old(self)@[key@] && final(self).spec_len() == old(self).spec_len() && final(self)@ == old(self)@.insert(
                    key@,
                    *final(v),
                ),
            },
    {
        if K::equals_zero(&key) {
            proof {
                if self.zero is Some {
                    K::lemma_excluded_unique(key@, zero_abs::<K>());
                    assert forall|v2: V|
                        sharded_view(old(self).tables@).insert(zero_abs::<K>(), v2) =~= old(self)@.insert(key@, v2) by {}
                }
            }
            if self.zero.is_some() {
                match &mut self.zero {
                    Some(v) => Err(v),
                    None => vstd::pervasive::unreached(),
                }
            } else {
                self.zero = Some(value);
                proof {
                    K::lemma_excluded_unique(key@, zero_abs::<K>());
                }
                match &mut self.zero {
                    Some(v) => Ok(v),
                    None => vstd::pervasive::unreached(),
                }
            }
        } else {
            let b = Self::bucket_index(&key);
            let ghost pre_ts = self.tables@;
            let ghost zv = self.zero;
            proof {
                lemma_len_sum_le(self.tables@, b as int + 1, 256);
                if self.zero is Some {
                    assert(key@ != zero_abs::<K>());
                }
            }
            let tb = &mut self.tables[b];
            tb.reserve_one();
            proof {
                lemma_len_sum_update(pre_ts, b as int, self.tables@[b as int], 256);
                assert forall|b2: int, a: <K as View>::V|
                    0 <= b2 < 256 && #[trigger] self.tables@[b2]@.contains_key(
                        a,
                    ) implies bucket_of::<K>(a) == b2 by {
                    assert(pre_ts[b2]@.contains_key(a));
                }
                assert(sharded_view(self.tables@) =~= sharded_view(pre_ts));
                assert(self.tables@[b as int]@ == pre_ts[b as int]@);
            }
            let ghost ts0 = self.tables@;
            proof {
                assert forall|x2: Table0<K, V>, vf: V|
                    #![trigger ts0.update(b as int, x2), ts0[b as int]@.insert(key@, vf)]
                    x2.wf() && x2@ == ts0[b as int]@.insert(key@, vf) implies tables_wf(
                    ts0.update(b as int, x2),
                ) && spec_with_zero::<K, V>(sharded_view(ts0.update(b as int, x2)), zv)
                    == spec_with_zero::<K, V>(sharded_view(ts0), zv).insert(key@, vf) by {
                    lemma_shard_insert(ts0, b as int, x2, key@, vf);
                    if zv is Some {
                        assert(sharded_view(ts0).insert(key@, vf).insert(zero_abs::<K>(), zv->0)
                            =~= sharded_view(ts0).insert(zero_abs::<K>(), zv->0).insert(
                            key@,
                            vf,
                        ));
                    }
                }
                assert forall|x2: Table0<K, V>|
                    #![trigger ts0.update(b as int, x2)]
                    true implies len_sum(ts0.update(b as int, x2), 256) + ts0[b as int].len
                    == len_sum(ts0, 256) + x2.len by {
                    lemma_len_sum_update(ts0, b as int, x2, 256);
                }
                if ts0[b as int]@.contains_key(key@) {
                    assert(old(self)@.contains_key(key@) && old(self)@[key@] == ts0[
                        b as int]@[key@]);
                } else {
                    assert(!old(self)@.contains_key(key@));
                }
            }
            let tb2 = &mut self.tables[b];
            tb2.insert(key, value)
        }
    }
}


/// Keys of a well-formed bucket are never the zero pattern.
proof fn lemma_bucket_no_excluded<K: Key, V>(t: Table0<K, V>, a: <K as View>::V)
    requires
        t.wf(),
        t@.contains_key(a),
    ensures
        !K::excluded_abs(a),
{
    crate::table0::lemma_view_contains(t.slots@, a);
    if exists|i: int|
        0 <= i < t.slots@.len() && t.slots@[i] is Full && (#[trigger] t.slots@[i]->Full_key)@
            == a {
        let i = choose|i: int|
            0 <= i < t.slots@.len() && t.slots@[i] is Full && (#[trigger] t.slots@[i]->Full_key)@
                == a;
        assert(crate::table0::slot_ok(t.slots@, i));
    }
}

impl<K: Key + Copy, V: Copy> TwolevelHashtable<K, V> {
    /// All entries, bucket by bucket, then the escape slot's. Each present
    /// key appears exactly once.
    #[verifier::rlimit(100)]
    pub fn iter(&self) -> (r: Vec<(K, V)>)
        requires
            self.wf(),
            self.spec_len() <= usize::MAX,
        ensures
            r@.len() == self.spec_len(),
            forall|j: int|
                0 <= j < r@.len() ==> self@.contains_key((#[trigger] r@[j]).0@) && self@[r@[j].0@]
                    == r@[j].1,
            forall|j1: int, j2: int|
                0 <= j1 < j2 < r@.len() ==> (#[trigger] r@[j1]).0@ != (#[trigger] r@[j2]).0@,
            forall|a: <K as View>::V| #[trigger]
                self@.contains_key(a) ==> exists|j: int|
                    0 <= j < r@.len() && (#[trigger] r@[j]).0@ == a,
    {
        let ghost ts = self.tables@;
        let mut r: Vec<(K, V)> = Vec::new();
        let mut b: usize = 0;
        while b < 256
            invariant
                self.wf(),
                ts == self.tables@,
                b <= 256,
                r@.len() == len_sum(ts, b as int),
                forall|j: int|
                    0 <= j < r@.len() ==> self@.contains_key((#[trigger] r@[j]).0@) && self@[r@[j].0@]
                        == r@[j].1 && !K::excluded_abs(r@[j].0@) && bucket_of::<K>(r@[j].0@) < b,
                forall|j1: int, j2: int|
                    0 <= j1 < j2 < r@.len() ==> (#[trigger] r@[j1]).0@ != (#[trigger] r@[j2]).0@,
                forall|a: <K as View>::V|
                    !K::excluded_abs(a) && 0 <= bucket_of::<K>(a) < b && #[trigger] ts[bucket_of::<
                        K,
                    >(a)]@.contains_key(a) ==> exists|j: int|
                        0 <= j < r@.len() && (#[trigger] r@[j]).0@ == a,
            decreases 256 - b,
        {
            let chunk = self.tables[b].iter();
            let ghost cv = chunk@;
            let ghost start = r@.len() as int;
            let mut k: usize = 0;
            while k < chunk.len()
                invariant
                    self.wf(),
                    ts == self.tables@,
                    b < 256,
                    cv == chunk@,
                    k <= cv.len(),
                    start == len_sum(ts, b as int),
                    r@.len() == start + k,
                    forall|j: int|
                        0 <= j < r@.len() ==> self@.contains_key((#[trigger] r@[j]).0@)
                            && self@[r@[j].0@] == r@[j].1 && !K::excluded_abs(r@[j].0@)
                            && bucket_of::<K>(r@[j].0@) <= b,
                    forall|j: int| 0 <= j < start ==> bucket_of::<K>((#[trigger] r@[j]).0@) < b,
                    forall|j: int| start <= j < r@.len() ==> (#[trigger] r@[j]) == cv[j - start],
                    forall|j1: int, j2: int|
                        0 <= j1 < j2 < r@.len() ==> (#[trigger] r@[j1]).0@ != (
                        #[trigger] r@[j2]).0@,
                    forall|a: <K as View>::V|
                        !K::excluded_abs(a) && 0 <= bucket_of::<K>(a) < b && #[trigger] ts[
                            bucket_of::<K>(a)]@.contains_key(a) ==> exists|j: int|
                            0 <= j < r@.len() && (#[trigger] r@[j]).0@ == a,
                    forall|j: int|
                        0 <= j < cv.len() ==> ts[b as int]@.contains_key((#[trigger] cv[j]).0@)
                            && ts[b as int]@[cv[j].0@] == cv[j].1,
                    forall|j1: int, j2: int|
                        0 <= j1 < j2 < cv.len() ==> (#[trigger] cv[j1]).0@ != (
                        #[trigger] cv[j2]).0@,
                decreases cv.len() - k,
            {
                let ghost r0 = r@;
                proof {
                    assert(ts[b as int]@.contains_key(cv[k as int].0@));
                    lemma_bucket_no_excluded(ts[b as int], cv[k as int].0@);
                    assert(bucket_of::<K>(cv[k as int].0@) == b);
                    if self.zero is Some {
                        assert(cv[k as int].0@ != zero_abs::<K>());
                    }
                    assert(self@.contains_key(cv[k as int].0@) && self@[cv[k as int].0@] == cv[
                        k as int].1);
                }
                r.push((chunk[k].0, chunk[k].1));
                proof {
                    assert forall|a: <K as View>::V|
                        !K::excluded_abs(a) && 0 <= bucket_of::<K>(a) < b && #[trigger] ts[
                            bucket_of::<K>(a)]@.contains_key(a) implies exists|j: int|
                        0 <= j < r@.len() && (#[trigger] r@[j]).0@ == a by {
                        let j = choose|j: int| 0 <= j < r0.len() && (#[trigger] r0[j]).0@ == a;
                        assert(r@[j] == r0[j]);
                        assert(0 <= j < r@.len() && r@[j].0@ == a);
                    }
                }
                k = k + 1;
            }
            proof {
                lemma_len_sum_update(ts, b as int, ts[b as int], b as int + 1);
                assert(ts.update(b as int, ts[b as int]) =~= ts);
                assert(len_sum(ts, b as int + 1) == len_sum(ts, b as int) + ts[b as int].len);
                assert forall|a: <K as View>::V|
                    !K::excluded_abs(a) && 0 <= bucket_of::<K>(a) < b + 1 && #[trigger] ts[
                        bucket_of::<K>(a)]@.contains_key(a) implies exists|j: int|
                    0 <= j < r@.len() && (#[trigger] r@[j]).0@ == a by {
                    if bucket_of::<K>(a) == b {
                        let jj = choose|jj: int| 0 <= jj < cv.len() && (#[trigger] cv[jj]).0@ == a;
                        assert(r@[start + jj] == cv[jj]);
                        assert(0 <= start + jj < r@.len() && r@[start + jj].0@ == a);
                    }
                }
            }
            b = b + 1;
        }
        let ghost r0 = r@;
        match &self.zero {
            Some(v) => {
                let zk = K::zero_key();
                proof {
                    K::lemma_excluded_unique(zk@, zero_abs::<K>());
                }
                r.push((zk, *v));
                proof {
                    assert forall|j1: int, j2: int| 0 <= j1 < j2 < r@.len() implies (
                    #[trigger] r@[j1]).0@ != (#[trigger] r@[j2]).0@ by {
                        if j2 == r@.len() - 1 {
                            assert(r@[j1] == r0[j1]);
                            assert(!K::excluded_abs(r0[j1].0@));
                            assert(K::excluded_abs(r@[j2].0@));
                        } else {
                            assert(r@[j1] == r0[j1] && r@[j2] == r0[j2]);
                        }
                    }
                    assert forall|j: int| 0 <= j < r@.len() implies self@.contains_key(
                        (#[trigger] r@[j]).0@) && self@[r@[j].0@] == r@[j].1 by {
                        if j < r0.len() {
                            assert(r@[j] == r0[j]);
                        } else {
                            assert(r@[j].0@ == zero_abs::<K>());
                        }
                    }
                    assert forall|a: <K as View>::V| #[trigger] self@.contains_key(
                        a,
                    ) implies exists|j: int| 0 <= j < r@.len() && (#[trigger] r@[j]).0@ == a by {
                        if K::excluded_abs(a) {
                            K::lemma_excluded_unique(a, zero_abs::<K>());
                            assert(r@[r@.len() - 1].0@ == a);
                        } else {
                            assert(ts[bucket_of::<K>(a)]@.contains_key(a));
                            assert(0 <= bucket_of::<K>(a) < 256) by {
                                lemma_bucket_in_range::<K>(a);
                            }
                            let j = choose|j: int| 0 <= j < r0.len() && (#[trigger] r0[j]).0@ == a;
                            assert(r@[j] == r0[j]);
                            assert(0 <= j < r@.len() && r@[j].0@ == a);
                        }
                    }
                }
            },
            None => {
                proof {
                    assert forall|a: <K as View>::V| #[trigger] self@.contains_key(
                        a,
                    ) implies exists|j: int| 0 <= j < r@.len() && (#[trigger] r@[j]).0@ == a by {
                        assert(!K::excluded_abs(a));
                        assert(ts[bucket_of::<K>(a)]@.contains_key(a));
                        lemma_bucket_in_range::<K>(a);
                    }
                }
            },
        }
        r
    }
}

/// The top eight bits of a 64-bit hash select one of 256 buckets.
proof fn lemma_bucket_in_range<K: Key>(a: <K as View>::V)
    ensures
        0 <= bucket_of::<K>(a) < 256,
{
    let h = K::hash_abs(a) as int;
    vstd::arithmetic::div_mod::lemma_div_pos_is_pos(h, 0x100000000000000);
    assert(h / 0x100000000000000 < 256) by (nonlinear_arith)
        requires
            0 <= h <= u64::MAX as int,
    ;
}

} // verus!
