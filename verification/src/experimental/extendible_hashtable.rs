//! An extendible-hash table: a directory of `2^count` pointers, indexed by
//! the top `count` bits of a key's hash, selects one of a set of splittable
//! probing tables. A crowded table is split on the next hash bit and the
//! directory doubles when a table's level reaches the directory's depth.

use vstd::prelude::*;
use vstd::arithmetic::power2::{pow2, lemma_pow2_adds, lemma_pow2_pos, lemma2_to64, lemma2_to64_rest};
use vstd::arithmetic::div_mod::{lemma_div_denominator, lemma_multiply_divide_lt};
use crate::table0::{Table0, split_selects};
use crate::hashtable::zero_abs;
use crate::twolevel_hashtable::spec_with_zero;
use crate::traits::Key;

verus! {

/// The directory slot the top `count` hash bits select.
pub open spec fn prefix_of<K: Key>(a: <K as View>::V, count: nat) -> int {
    K::hash_abs(a) as int / pow2((64 - count) as nat) as int
}

/// The summed lengths of the first `n` tables.
pub open spec fn ext_len_sum<K: Key, V>(ts: Seq<(u8, Table0<K, V>)>, n: int) -> nat
    decreases n,
{
    if n <= 0 {
        0nat
    } else {
        ext_len_sum(ts, n - 1) + ts[n - 1].1.len as nat
    }
}

/// The directory invariant: every pointer hits a well-formed table, and
/// every key sits in the table its directory slot points to.
pub open spec fn ext_wf<K: Key, V>(count: nat, ps: Seq<usize>, ts: Seq<(u8, Table0<K, V>)>) -> bool {
    &&& 3 <= count <= 32
    &&& ps.len() == pow2(count)
    &&& 1 <= ts.len()
    &&& forall|p: int| 0 <= p < ps.len() ==> (#[trigger] ps[p]) < ts.len()
    &&& forall|t: int| 0 <= t < ts.len() ==> (#[trigger] ts[t]).1.wf()
    &&& forall|t: int| 0 <= t < ts.len() ==> (#[trigger] ts[t]).0 <= count
    &&& forall|t: int, a: <K as View>::V|
        0 <= t < ts.len() && #[trigger] ts[t].1@.contains_key(a) ==> ps[prefix_of::<K>(a, count)]
            == t
}

/// The directory's entries, as one map.
pub open spec fn ext_view<K: Key, V>(count: nat, ps: Seq<usize>, ts: Seq<(u8, Table0<K, V>)>) -> Map<
    <K as View>::V,
    V,
> {
    Map::new(
        |a: <K as View>::V|
            !K::excluded_abs(a) && 0 <= prefix_of::<K>(a, count) < ps.len() && ts[
                ps[prefix_of::<K>(a, count)] as int
            ].1@.contains_key(a),
        |a: <K as View>::V| ts[ps[prefix_of::<K>(a, count)] as int].1@[a],
    )
}

/// A hash's top `count` bits index the directory.
proof fn lemma_prefix_range<K: Key>(a: <K as View>::V, count: nat)
    requires
        3 <= count <= 32,
    ensures
        0 <= prefix_of::<K>(a, count) < pow2(count),
{
    let h = K::hash_abs(a) as int;
    lemma_pow2_pos((64 - count) as nat);
    lemma_pow2_adds((64 - count) as nat, count);
    lemma2_to64_rest();
    vstd::arithmetic::div_mod::lemma_div_pos_is_pos(h, pow2((64 - count) as nat) as int);
    lemma_multiply_divide_lt(h, pow2((64 - count) as nat) as int, pow2(count) as int);
}

/// Bit `count - level - 1` of a key's directory slot is the hash bit its
/// table would split on.
proof fn lemma_prefix_bit<K: Key>(a: <K as View>::V, count: nat, level: nat)
    requires
        3 <= count <= 32,
        level < count,
    ensures
        ((prefix_of::<K>(a, count) / pow2((count - level - 1) as nat) as int) % 2 == 1)
            <==> split_selects::<K>(a, (63 - level) as u32),
{
    let h = K::hash_abs(a);
    lemma_pow2_pos((64 - count) as nat);
    lemma_pow2_pos((count - level - 1) as nat);
    lemma_div_denominator(
        h as int,
        pow2((64 - count) as nat) as int,
        pow2((count - level - 1) as nat) as int,
    );
    lemma_pow2_adds((64 - count) as nat, (count - level - 1) as nat);
    assert((64 - count) + (count - level - 1) == 63 - level);
    vstd::bits::lemma_u64_shr_is_div(h, (63 - level) as u64);
    vstd::bits::lemma_u64_low_bits_mask_is_mod(h >> ((63 - level) as u64), 1);
    lemma2_to64();
    assert(vstd::bits::low_bits_mask(1) == 1);
    vstd::arithmetic::div_mod::lemma_div_pos_is_pos(h as int, pow2((63 - level) as nat) as int);
}

/// An extendible-hash table with a zero-key escape slot.
pub struct ExtendibleHashtable<K: Key, V> {
    pub count: u8,
    pub pointers: Vec<usize>,
    pub zero: Option<V>,
    pub tables: Vec<(u8, Table0<K, V>)>,
}

impl<K: Key, V> View for ExtendibleHashtable<K, V> {
    type V = Map<<K as View>::V, V>;

    open spec fn view(&self) -> Self::V {
        spec_with_zero::<K, V>(
            ext_view(self.count as nat, self.pointers@, self.tables@),
            self.zero,
        )
    }
}

impl<K: Key, V> ExtendibleHashtable<K, V> {
    pub open spec fn wf(self) -> bool {
        &&& ext_wf(self.count as nat, self.pointers@, self.tables@)
        &&& self.zero is Some ==> exists|a: <K as View>::V| K::excluded_abs(a)
    }

    pub open spec fn spec_len(self) -> nat {
        ext_len_sum(self.tables@, self.tables@.len() as int) + if self.zero is Some {
            1nat
        } else {
            0nat
        }
    }

    /// An empty table: a directory of depth 3, all pointing at one table.
    pub fn new() -> (r: Self)
        ensures
            r.wf(),
            r@ == Map::<<K as View>::V, V>::empty(),
            r.spec_len() == 0,
            r.count == 3,
    {
        let mut pointers: Vec<usize> = Vec::new();
        let mut i: usize = 0;
        while i < 8
            invariant
                pointers@.len() == i,
                i <= 8,
                forall|p: int| 0 <= p < i ==> (#[trigger] pointers@[p]) == 0,
            decreases 8 - i,
        {
            pointers.push(0);
            i = i + 1;
        }
        let mut tables: Vec<(u8, Table0<K, V>)> = Vec::new();
        tables.push((0, Table0::with_capacity(65536)));
        let r = ExtendibleHashtable { count: 3, pointers, zero: None, tables };
        proof {
            lemma2_to64();
            assert(ext_len_sum(r.tables@, 1) == ext_len_sum(r.tables@, 0) + r.tables@[0].1.len);
            assert(r@ =~= Map::<<K as View>::V, V>::empty());
        }
        r
    }

    pub fn is_empty(&self) -> (r: bool)
        requires
            self.wf(),
            self.spec_len() <= usize::MAX,
        ensures
            r == (self.spec_len() == 0),
    {
        self.len() == 0
    }

    /// The entry count: the tables' lengths plus the escape slot.
    pub fn len(&self) -> (r: usize)
        requires
            self.wf(),
            self.spec_len() <= usize::MAX,
        ensures
            r == self.spec_len(),
    {
        let n = self.tables.len();
        let mut total: usize = 0;
        let mut i: usize = 0;
        while i < n
            invariant
                self.wf(),
                n == self.tables@.len(),
                i <= n,
                total == ext_len_sum(self.tables@, i as int),
                self.spec_len() <= usize::MAX,
            decreases n - i,
        {
            proof {
                lemma_ext_len_sum_prefix(self.tables@, i as int + 1, n as int);
            }
            total = total + self.tables[i].1.len();
            i = i + 1;
        }
        if self.zero.is_some() {
            total + 1
        } else {
            total
        }
    }

    /// The directory depth.
    pub fn count(&self) -> (r: u8)
        ensures
            r == self.count,
    {
        self.count
    }

    /// The number of tables the directory points at.
    pub fn buckets(&self) -> (r: usize)
        ensures
            r == self.tables@.len(),
    {
        self.tables.len()
    }

    /// The directory slot of a key.
    fn slot_index(&self, key: &K) -> (p: usize)
        requires
            self.wf(),
        ensures
            p as int == prefix_of::<K>(key@, self.count as nat),
            p < self.pointers@.len(),
    {
        let h = key.hash();
        proof {
            vstd::bits::lemma_u64_shr_is_div(h, (64 - self.count) as u64);
            lemma_prefix_range::<K>(key@, self.count as nat);
            if (self.count as nat) < 32 {
                vstd::arithmetic::power2::lemma_pow2_strictly_increases(self.count as nat, 32);
            }
            lemma2_to64();
            assert(pow2(32) == 0x100000000);
        }
        (h >> ((64 - self.count) as u64)) as usize
    }

    pub fn get(&self, key: &K) -> (r: Option<&V>)
        requires
            self.wf(),
        ensures
            match r {
                Some(v) => self@.contains_key(key@) && *v == self@[key@],
                None => !self@.contains_key(key@),
            },
    {
        if K::equals_zero(key) {
            proof {
                if self.zero is Some {
                    K::lemma_excluded_unique(key@, zero_abs::<K>());
                }
            }
            match &self.zero {
                Some(v) => Some(v),
                None => None,
            }
        } else {
            let p = self.slot_index(key);
            let index = self.pointers[p];
            proof {
                if self.zero is Some {
                    assert(key@ != zero_abs::<K>());
                }
            }
            self.tables[index].1.get(key)
        }
    }
}


/// The summed length only reads the first `n` tables' lengths.
proof fn lemma_ext_sum_congruent<K: Key, V>(
    ts1: Seq<(u8, Table0<K, V>)>,
    ts2: Seq<(u8, Table0<K, V>)>,
    n: int,
)
    requires
        forall|i: int| 0 <= i < n ==> (#[trigger] ts1[i]).1.len == ts2[i].1.len,
    ensures
        ext_len_sum(ts1, n) == ext_len_sum(ts2, n),
    decreases n,
{
    if n > 0 {
        lemma_ext_sum_congruent(ts1, ts2, n - 1);
    }
}

proof fn lemma_ext_sum_update<K: Key, V>(
    ts: Seq<(u8, Table0<K, V>)>,
    b: int,
    x: (u8, Table0<K, V>),
    n: int,
)
    requires
        0 <= b < ts.len(),
        n <= ts.len(),
    ensures
        b < n ==> ext_len_sum(ts.update(b, x), n) + ts[b].1.len == ext_len_sum(ts, n) + x.1.len,
        n <= b ==> ext_len_sum(ts.update(b, x), n) == ext_len_sum(ts, n),
    decreases n,
{
    if n > 0 {
        lemma_ext_sum_update(ts, b, x, n - 1);
    }
}

impl<K: Key, V> ExtendibleHashtable<K, V> {
    /// Doubles the directory: each pointer is copied into the two slots that
    /// refine its prefix by one bit. The entries are untouched.
    fn double(&mut self)
        requires
            old(self).wf(),
            old(self).count < 32,
        ensures
            final(self).wf(),
            final(self)@ == old(self)@,
            final(self).spec_len() == old(self).spec_len(),
            final(self).count == old(self).count + 1,
            final(self).tables == old(self).tables,
            final(self).zero == old(self).zero,
    {
        let ghost ps = self.pointers@;
        let ghost c = self.count as nat;
        let n = self.pointers.len();
        let mut np: Vec<usize> = Vec::new();
        let mut p: usize = 0;
        proof {
            vstd::arithmetic::power2::lemma_pow2_strictly_increases(c, 32);
            lemma2_to64();
        }
        while p < n
            invariant
                n == ps.len(),
                ps == self.pointers@,
                n <= 0x100000000,
                p <= n,
                np@.len() == 2 * p,
                forall|q: int| 0 <= q < np@.len() ==> (#[trigger] np@[q]) == ps[q / 2],
            decreases n - p,
        {
            let v = self.pointers[p];
            np.push(v);
            np.push(v);
            proof {
                assert(np@[2 * p as int] == ps[(2 * p as int) / 2]);
                assert(np@[2 * p as int + 1] == ps[(2 * p as int + 1) / 2]);
            }
            p = p + 1;
        }
        self.pointers = np;
        self.count = self.count + 1;
        proof {
            lemma_pow2_adds(c, 1);
            assert(self.pointers@.len() == pow2(c + 1));
            let ts = self.tables@;
            assert forall|t: int, a: <K as View>::V|
                0 <= t < ts.len() && #[trigger] ts[t].1@.contains_key(a) implies self.pointers@[
                prefix_of::<K>(a, c + 1)] == t by {
                lemma_prefix_halves::<K>(a, c);
                lemma_prefix_range::<K>(a, c + 1);
                assert(self.pointers@[prefix_of::<K>(a, c + 1)] == ps[prefix_of::<K>(a, c + 1)
                    / 2]);
            }
            let lhs = ext_view(c + 1, self.pointers@, ts);
            let rhs = ext_view(c, ps, ts);
            assert forall|a: <K as View>::V|
                #![trigger lhs.contains_key(a)]
                #![trigger rhs.contains_key(a)]
                true implies lhs.contains_key(a) == rhs.contains_key(a) && (lhs.contains_key(a)
                ==> lhs[a] == rhs[a]) by {
                lemma_prefix_halves::<K>(a, c);
                lemma_prefix_range::<K>(a, c);
                lemma_prefix_range::<K>(a, c + 1);
            }
            assert(lhs =~= rhs);
        }
    }

    /// Splits the table at directory slot `p` on its next hash bit: selected
    /// entries move to a fresh table, and every directory slot that pointed
    /// at the old table with that bit set is repointed at the new one.
    fn split_at(&mut self, pslot: usize)
        requires
            old(self).wf(),
            pslot < old(self).pointers@.len(),
            old(self).tables@[old(self).pointers@[pslot as int] as int].0 < old(self).count,
            old(self).tables@[old(self).pointers@[pslot as int] as int].1.cap_spec() <= usize::MAX
                / 2,
            old(self).tables@.len() < usize::MAX,
        ensures
            final(self).wf(),
            final(self)@ == old(self)@,
            final(self).spec_len() == old(self).spec_len(),
            final(self).count == old(self).count,
            final(self).zero == old(self).zero,
            final(self).tables@.len() == old(self).tables@.len() + 1,
    {
        let ghost c = self.count as nat;
        let ghost ps = self.pointers@;
        let ghost ts = self.tables@;
        let index = self.pointers[pslot];
        let level = self.tables[index].0;
        let ghost old_table = self.tables@[index as int].1;
        let e = &mut self.tables[index];
        proof {
            assert(((63 - level) as u32) < 64);
        }
        let other = e.1.split((63 - level) as u32);
        e.0 = level + 1;
        let ghost kept = self.tables@[index as int].1;
        let new_index = self.tables.len();
        self.tables.push((level + 1, other));
        let ghost ts1 = self.tables@;
        // repoint the directory slots of the selected half
        let sh = (self.count - level - 1) as u64;
        let m = self.pointers.len();
        let mut p: usize = 0;
        while p < m
            invariant
                m == ps.len(),
                self.pointers@.len() == m,
                p <= m,
                sh == self.count - level - 1,
                self.count <= 32,
                level < self.count,
                new_index < ts1.len(),
                index < ts1.len(),
                forall|q: int|
                    0 <= q < p ==> (#[trigger] self.pointers@[q]) == (if ps[q] == index && (
                    q / pow2((self.count - level - 1) as nat) as int) % 2 == 1 {
                        new_index as usize
                    } else {
                        ps[q]
                    }),
                forall|q: int| p <= q < m ==> (#[trigger] self.pointers@[q]) == ps[q],
                self.count == old(self).count,
                self.zero == old(self).zero,
                self.tables@ == ts1,
            decreases m - p,
        {
            let cur = self.pointers[p];
            let bit = (p >> sh as usize) & 1;
            proof {
                vstd::bits::lemma_usize_shr_is_div(p, sh as usize);
                vstd::bits::lemma_usize_low_bits_mask_is_mod(p >> (sh as usize), 1);
                lemma2_to64();
                assert(vstd::bits::low_bits_mask(1) == 1);
                vstd::arithmetic::div_mod::lemma_div_pos_is_pos(
                    p as int,
                    pow2((self.count - level - 1) as nat) as int,
                );
            }
            if cur == index && bit == 1 {
                let slot = &mut self.pointers[p];
                *slot = new_index;
            }
            p = p + 1;
        }
        proof {
            let cl = (c - level) as nat;
            let bitw = pow2((c - level - 1) as nat) as int;
            // the split predicate agrees with the repointed directory bit
            // for every key of the old table
            assert(ts1 =~= ts.update(index as int, (((level + 1) as u8), kept)).push(
                (((level + 1) as u8), other),
            ));
            assert forall|t: int, a: <K as View>::V|
                0 <= t < ts1.len() && #[trigger] ts1[t].1@.contains_key(
                    a,
                ) implies self.pointers@[prefix_of::<K>(a, c)] == t by {
                lemma_prefix_range::<K>(a, c);
                lemma_prefix_bit::<K>(a, c, level as nat);
                let pa = prefix_of::<K>(a, c);
                if t == new_index {
                    assert(other@.contains_key(a));
                    assert(old_table@.contains_key(a) && split_selects::<K>(
                        a,
                        (63 - level) as u32,
                    ));
                    assert(ps[pa] == index);
                    assert((pa / bitw) % 2 == 1);
                } else if t == index {
                    assert(kept@.contains_key(a));
                    assert(old_table@.contains_key(a) && !split_selects::<K>(
                        a,
                        (63 - level) as u32,
                    ));
                    assert(ps[pa] == index);
                    assert((pa / bitw) % 2 != 1);
                } else {
                    assert(ts[t].1@.contains_key(a));
                    assert(ps[pa] == t);
                }
            }
            let lhs = ext_view(c, self.pointers@, ts1);
            let rhs = ext_view(c, ps, ts);
            assert forall|a: <K as View>::V|
                #![trigger lhs.contains_key(a)]
                #![trigger rhs.contains_key(a)]
                true implies lhs.contains_key(a) == rhs.contains_key(a) && (lhs.contains_key(a)
                ==> lhs[a] == rhs[a]) by {
                if !K::excluded_abs(a) {
                    lemma_prefix_range::<K>(a, c);
                    lemma_prefix_bit::<K>(a, c, level as nat);
                    let pa = prefix_of::<K>(a, c);
                    if ps[pa] == index {
                        if (pa / bitw) % 2 == 1 {
                            assert(self.pointers@[pa] == new_index);
                            assert(ts1[new_index as int].1@ == other@);
                        } else {
                            assert(self.pointers@[pa] == index);
                            assert(ts1[index as int].1@ == kept@);
                        }
                    } else {
                        assert(self.pointers@[pa] == ps[pa]);
                    }
                }
            }
            assert(lhs =~= rhs);
            // the two halves carry exactly the old table's entries
            kept.lemma_len_is_distinct_count();
            other.lemma_len_is_distinct_count();
            old_table.lemma_len_is_distinct_count();
            assert(kept@.dom().disjoint(other@.dom()));
            assert(kept@.dom() + other@.dom() =~= old_table@.dom());
            vstd::set_lib::lemma_set_disjoint_lens(kept@.dom(), other@.dom());
            assert(kept.len + other.len == old_table.len);
            lemma_ext_sum_update(
                ts,
                index as int,
                (((level + 1) as u8), kept),
                ts.len() as int,
            );
            lemma_ext_sum_congruent(
                ts1,
                ts.update(index as int, (((level + 1) as u8), kept)),
                ts.len() as int,
            );
            assert(ext_len_sum(ts1, ts1.len() as int) == ext_len_sum(ts1, ts.len() as int)
                + other.len);
        }
    }
}


proof fn lemma_ext_sum_le<K: Key, V>(ts: Seq<(u8, Table0<K, V>)>, m: int, n: int)
    requires
        0 < m <= n <= ts.len(),
    ensures
        ts[m - 1].1.len as nat <= ext_len_sum(ts, n),
    decreases n,
{
    if m < n {
        lemma_ext_sum_le(ts, m, n - 1);
    }
}

impl<K: Key, V> ExtendibleHashtable<K, V> {
    /// Inserts a key. A crowded table is first split on its next hash bit,
    /// or the directory doubled when the table's level has caught up with
    /// the directory's depth; a table that stays crowded, or one at the
    /// greatest supported depth, grows in place instead.
    pub fn insert(&mut self, key: K, value: V) -> (r: Result<&mut V, &mut V>)
        requires
            old(self).wf(),
            old(self).spec_len() + 1 <= usize::MAX / 4,
            old(self).tables@.len() <= usize::MAX / 2,
        ensures
            final(self).wf(),
            match r {
                Ok(v) => !old(self)@.contains_key(key@) && *v == value && final(self).spec_len()
                    == old(self).spec_len() + 1 && final(self)@ == old(self)@.insert(
                    key@,
                    *final(v),
                ),
                Err(v) => old(self)@.contains_key(key@) && *v == old(self)@[key@] && final(self).spec_len() == old(self).spec_len() && final(self)@ == old(self)@.insert(
                    key@,
                    *final(v),
                ),
            },
    {
        if K::equals_zero(&key) {
            proof {
                if self.zero is Some {
                    K::lemma_excluded_unique(key@, zero_abs::<K>());
                    assert forall|v2: V|
                        ext_view(self.count as nat, self.pointers@, self.tables@).insert(
                            zero_abs::<K>(),
                            v2,
                        ) =~= old(self)@.insert(key@, v2) by {}
                }
            }
            if self.zero.is_some() {
                match &mut self.zero {
                    Some(v) => Err(v),
                    None => vstd::pervasive::unreached(),
                }
            } else {
                self.zero = Some(value);
                proof {
                    K::lemma_excluded_unique(key@, zero_abs::<K>());
                }
                match &mut self.zero {
                    Some(v) => Ok(v),
                    None => vstd::pervasive::unreached(),
                }
            }
        } else {
            // reshape once if the routed table is crowded
            let p = self.slot_index(&key);
            let index = self.pointers[p];
            let level = self.tables[index].0;
            if self.tables[index].1.len() >= 32768 {
                if level < self.count {
                    if self.tables[index].1.capacity() <= usize::MAX / 2 {
                        self.split_at(p);
                    }
                } else if self.count < 32 {
                    self.double();
                }
            }
            // insert into the routed table, growing it in place if needed
            let p2 = self.slot_index(&key);
            let index2 = self.pointers[p2];
            let ghost c = self.count as nat;
            let ghost ps0 = self.pointers@;
            let ghost pre_ts = self.tables@;
            let ghost zv = self.zero;
            proof {
                lemma_ext_sum_le(self.tables@, index2 as int + 1, self.tables@.len() as int);
            }
            let e = &mut self.tables[index2];
            e.1.reserve_one();
            proof {
                assert(self.tables@ =~= pre_ts.update(
                    index2 as int,
                    (pre_ts[index2 as int].0, self.tables@[index2 as int].1),
                ));
                lemma_ext_sum_update(
                    pre_ts,
                    index2 as int,
                    (pre_ts[index2 as int].0, self.tables@[index2 as int].1),
                    pre_ts.len() as int,
                );
                assert forall|t: int, a: <K as View>::V|
                    0 <= t < self.tables@.len() && #[trigger] self.tables@[t].1@.contains_key(
                        a,
                    ) implies ps0[prefix_of::<K>(a, c)] == t by {
                    assert(pre_ts[t].1@.contains_key(a));
                }
                assert(ext_view(c, ps0, self.tables@) =~= ext_view(c, ps0, pre_ts));
            }
            let ghost ts0 = self.tables@;
            proof {
                assert forall|x2: (u8, Table0<K, V>), vf: V|
                    #![trigger ts0.update(index2 as int, x2), ts0[index2 as int].1@.insert(key@, vf)]
                    x2.1.wf() && x2.1@ == ts0[index2 as int].1@.insert(key@, vf) && x2.0 == ts0[
                    index2 as int].0 implies ext_wf(c, ps0, ts0.update(index2 as int, x2))
                    && spec_with_zero::<K, V>(
                    ext_view(c, ps0, ts0.update(index2 as int, x2)),
                    zv,
                ) == spec_with_zero::<K, V>(ext_view(c, ps0, ts0), zv).insert(key@, vf)
                    && ext_len_sum(ts0.update(index2 as int, x2), ts0.len() as int) + ts0[
                    index2 as int].1.len == ext_len_sum(ts0, ts0.len() as int) + x2.1.len by {
                    let ts2 = ts0.update(index2 as int, x2);
                    lemma_ext_sum_update(ts0, index2 as int, x2, ts0.len() as int);
                    lemma_prefix_range::<K>(key@, c);
                    assert forall|t: int, a: <K as View>::V|
                        0 <= t < ts2.len() && #[trigger] ts2[t].1@.contains_key(
                            a,
                        ) implies ps0[prefix_of::<K>(a, c)] == t by {
                        if t == index2 as int && a != key@ {
                            assert(ts0[t].1@.contains_key(a));
                        } else if t != index2 as int {
                            assert(ts0[t].1@.contains_key(a));
                        }
                    }
                    let lhs = ext_view(c, ps0, ts2);
                    let rhs = ext_view(c, ps0, ts0).insert(key@, vf);
                    assert forall|a: <K as View>::V|
                        #![trigger lhs.contains_key(a)]
                        #![trigger rhs.contains_key(a)]
                        true implies lhs.contains_key(a) == rhs.contains_key(a) && (
                        lhs.contains_key(a) ==> lhs[a] == rhs[a]) by {
                        if !K::excluded_abs(a) {
                            lemma_prefix_range::<K>(a, c);
                        }
                    }
                    assert(lhs =~= rhs);
                    if zv is Some {
                        assert(ext_view(c, ps0, ts0).insert(key@, vf).insert(
                            zero_abs::<K>(),
                            zv->0,
                        ) =~= ext_view(c, ps0, ts0).insert(zero_abs::<K>(), zv->0).insert(
                            key@,
                            vf,
                        ));
                    }
                }
                if ts0[index2 as int].1@.contains_key(key@) {
                    assert(old(self)@.contains_key(key@) && old(self)@[key@] == ts0[
                        index2 as int].1@[key@]);
                    if self.zero is Some {
                        assert(key@ != zero_abs::<K>());
                    }
                } else {
                    if self.zero is Some {
                        assert(key@ != zero_abs::<K>());
                    }
                    assert(!old(self)@.contains_key(key@));
                }
            }
            let e2 = &mut self.tables[index2];
            e2.1.insert(key, value)
        }
    }
}

/// Refining the directory by one bit halves back to the same slot.
proof fn lemma_prefix_halves<K: Key>(a: <K as View>::V, c: nat)
    requires
        3 <= c < 32,
    ensures
        prefix_of::<K>(a, c + 1) / 2 == prefix_of::<K>(a, c),
{
    let h = K::hash_abs(a);
    lemma_pow2_pos((63 - c) as nat);
    lemma_div_denominator(h as int, pow2((63 - c) as nat) as int, 2);
    lemma_pow2_adds((63 - c) as nat, 1);
    lemma2_to64();
}

proof fn lemma_ext_len_sum_prefix<K: Key, V>(ts: Seq<(u8, Table0<K, V>)>, m: int, n: int)
    requires
        0 <= m <= n,
    ensures
        ext_len_sum(ts, m) <= ext_len_sum(ts, n),
    decreases n,
{
    if m < n {
        lemma_ext_len_sum_prefix(ts, m, n - 1);
    }
}

} // verus!
