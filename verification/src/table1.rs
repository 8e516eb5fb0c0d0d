//! The direct-addressed table for two-byte keys: 65 536 value cells and a
//! 1024-word presence bitmap. A key `[b0, b1]` lives in group
//! `(b0 << 2) | (b1 >> 6)` at bit `b1 & 63`, so its flat cell index is
//! `b0 * 256 + b1`.

use vstd::prelude::*;
use vstd::set::axiom_set_insert_len;

verus! {

/// The flat cell index of a two-byte key.
pub open spec fn flat(a: (u8, u8)) -> int {
    a.0 * 256 + a.1
}

/// The two-byte key of a flat cell index.
pub open spec fn unflat(i: int) -> (u8, u8) {
    ((i / 256) as u8, (i % 256) as u8)
}

/// A key's flat index is in range and decodes back to the key.
pub proof fn lemma_flat_unflat(a: (u8, u8))
    ensures
        0 <= flat(a) < 65536,
        unflat(flat(a)) == a,
{
    vstd::arithmetic::div_mod::lemma_fundamental_div_mod_converse(
        flat(a),
        256,
        a.0 as int,
        a.1 as int,
    );
}

/// A flat index in range encodes back to itself.
pub proof fn lemma_unflat_flat(i: int)
    requires
        0 <= i < 65536,
    ensures
        flat(unflat(i)) == i,
{
    vstd::arithmetic::div_mod::lemma_fundamental_div_mod(i, 256);
    vstd::arithmetic::div_mod::lemma_mod_bound(i, 256);
    vstd::arithmetic::div_mod::lemma_div_pos_is_pos(i, 256);
    vstd::arithmetic::div_mod::lemma_div_is_ordered(i, 65535, 256);
}

/// Whether bit `i % 64` of word `i / 64` is set.
pub open spec fn bit_of(bits: Seq<u64>, i: int) -> bool {
    (bits[i / 64] >> ((i % 64) as u64)) & 1 == 1
}

/// The number of occupied cells.
pub open spec fn count_some<V>(data: Seq<Option<V>>) -> nat
    decreases data.len(),
{
    if data.len() == 0 {
        0nat
    } else {
        count_some(data.drop_last()) + if data.last() is Some {
            1nat
        } else {
            0nat
        }
    }
}

/// The map a cell array stands for.
pub open spec fn view_of_cells<V>(data: Seq<Option<V>>) -> Map<(u8, u8), V>
    decreases data.len(),
{
    if data.len() == 0 {
        Map::empty()
    } else {
        let m = view_of_cells(data.drop_last());
        if data.last() is Some {
            m.insert(unflat(data.len() - 1), data.last()->0)
        } else {
            m
        }
    }
}

pub proof fn lemma_count_some_bound<V>(data: Seq<Option<V>>)
    ensures
        count_some(data) <= data.len(),
    decreases data.len(),
{
    if data.len() > 0 {
        lemma_count_some_bound(data.drop_last());
    }
}

pub proof fn lemma_count_some_update<V>(data: Seq<Option<V>>, i: int, x: Option<V>)
    requires
        0 <= i < data.len(),
    ensures
        count_some(data.update(i, x)) == count_some(data) + (if x is Some {
            1int
        } else {
            0int
        }) - (if data[i] is Some {
            1int
        } else {
            0int
        }),
    decreases data.len(),
{
    let s2 = data.update(i, x);
    if i == data.len() - 1 {
        assert(s2.drop_last() =~= data.drop_last());
    } else {
        assert(s2.drop_last() =~= data.drop_last().update(i, x));
        lemma_count_some_update(data.drop_last(), i, x);
    }
}

/// The view contains exactly the keys of occupied cells, with their values.
pub proof fn lemma_cells_view<V>(data: Seq<Option<V>>, a: (u8, u8))
    requires
        data.len() <= 65536,
    ensures
        view_of_cells(data).contains_key(a) <==> (flat(a) < data.len() && data[flat(a)] is Some),
        flat(a) < data.len() && data[flat(a)] is Some ==> view_of_cells(data)[a] == data[flat(
            a,
        )]->0,
    decreases data.len(),
{
    if data.len() > 0 {
        lemma_cells_view(data.drop_last(), a);
        let l = data.len() - 1;
        lemma_flat_unflat(a);
        lemma_unflat_flat(l);
        if a == unflat(l) {
            assert(flat(a) == l);
        } else {
            assert(flat(a) != l) by {
                if flat(a) == l {
                    assert(unflat(flat(a)) == unflat(l));
                }
            }
        }
    }
}

/// Each occupied cell is one key of the view.
pub proof fn lemma_cells_dom_len<V>(data: Seq<Option<V>>)
    requires
        data.len() <= 65536,
    ensures
        view_of_cells(data).dom().finite(),
        view_of_cells(data).dom().len() == count_some(data),
    decreases data.len(),
{
    if data.len() > 0 {
        let d0 = data.drop_last();
        lemma_cells_dom_len(d0);
        if data.last() is Some {
            let a = unflat(data.len() - 1);
            assert(!view_of_cells(d0).contains_key(a)) by {
                lemma_cells_view(d0, a);
                lemma_unflat_flat(data.len() - 1);
            }
            axiom_set_insert_len(view_of_cells(d0).dom(), a);
            assert(view_of_cells(data).dom() =~= view_of_cells(d0).dom().insert(a));
        }
    }
}

pub proof fn lemma_cells_all_none<V>(data: Seq<Option<V>>)
    requires
        forall|i: int| 0 <= i < data.len() ==> !((#[trigger] data[i]) is Some),
    ensures
        view_of_cells(data) == Map::<(u8, u8), V>::empty(),
        count_some(data) == 0,
    decreases data.len(),
{
    if data.len() > 0 {
        lemma_cells_all_none(data.drop_last());
    }
}

/// Updating one cell updates the view at that cell's key.
pub proof fn lemma_cells_update<V>(data: Seq<Option<V>>, i: int, v: V)
    requires
        data.len() <= 65536,
        0 <= i < data.len(),
    ensures
        view_of_cells(data.update(i, Some(v))) == view_of_cells(data).insert(unflat(i), v),
    decreases data.len(),
{
    let s2 = data.update(i, Some(v));
    let l = data.len() - 1;
    lemma_unflat_flat(i);
    lemma_unflat_flat(l);
    if i == l {
        assert(s2.drop_last() =~= data.drop_last());
        assert(view_of_cells(s2) =~= view_of_cells(data).insert(unflat(i), v));
    } else {
        assert(s2.drop_last() =~= data.drop_last().update(i, Some(v)));
        lemma_cells_update(data.drop_last(), i, v);
        assert(unflat(i) != unflat(l)) by {
            assert(flat(unflat(i)) != flat(unflat(l)));
        }
        assert(view_of_cells(s2) =~= view_of_cells(data).insert(unflat(i), v));
    }
}

/// The direct-addressed two-byte-key table.
pub struct Table1<V> {
    pub bits: Vec<u64>,
    pub data: Vec<Option<V>>,
    pub len: usize,
}

impl<V> View for Table1<V> {
    type V = Map<(u8, u8), V>;

    open spec fn view(&self) -> Self::V {
        view_of_cells(self.data@)
    }
}

impl<V> Table1<V> {
    pub open spec fn wf(self) -> bool {
        &&& self.bits@.len() == 1024
        &&& self.data@.len() == 65536
        &&& self.len == count_some(self.data@)
        &&& forall|i: int| 0 <= i < 65536 ==> (#[trigger] bit_of(self.bits@, i) <==> self.data@[i] is Some)
    }

    /// The length equals the number of distinct keys present, which is the
    /// population count of the presence bitmap.
    pub proof fn lemma_len_is_distinct_count(self)
        requires
            self.wf(),
        ensures
            self@.dom().finite(),
            self@.dom().len() == self.len,
    {
        lemma_cells_dom_len(self.data@);
    }

    pub fn new() -> (r: Self)
        ensures
            r.wf(),
            r@ == Map::<(u8, u8), V>::empty(),
            r.len == 0,
    {
        let mut bits: Vec<u64> = Vec::new();
        let mut i: usize = 0;
        while i < 1024
            invariant
                bits@.len() == i,
                i <= 1024,
                forall|j: int| 0 <= j < i ==> bits@[j] == 0u64,
            decreases 1024 - i,
        {
            bits.push(0);
            i = i + 1;
        }
        let mut data: Vec<Option<V>> = Vec::new();
        let mut j: usize = 0;
        while j < 65536
            invariant
                data@.len() == j,
                j <= 65536,
                forall|t: int| 0 <= t < j ==> !((#[trigger] data@[t]) is Some),
            decreases 65536 - j,
        {
            data.push(None);
            j = j + 1;
        }
        proof {
            lemma_cells_all_none(data@);
            assert forall|i2: int| 0 <= i2 < 65536 implies !(#[trigger] bit_of(bits@, i2)) by {
                let sh = (i2 % 64) as u64;
                assert((0u64 >> sh) & 1 != 1) by (bit_vector);
            }
        }
        Table1 { bits, data, len: 0 }
    }

    pub fn capacity(&self) -> (r: usize)
        ensures
            r == 65536,
    {
        65536
    }

    pub fn len(&self) -> (r: usize)
        requires
            self.wf(),
        ensures
            r == self.len,
            r == self@.dom().len(),
    {
        proof {
            self.lemma_len_is_distinct_count();
        }
        self.len
    }

    /// The group word and flat cell index of a key.
    fn locate(key: [u8; 2]) -> (r: (usize, usize, u64))
        ensures
            r.0 == flat((key@[0], key@[1])) / 64,
            r.1 == flat((key@[0], key@[1])),
            r.2 == (flat((key@[0], key@[1])) % 64) as u64,
            r.0 < 1024,
            r.1 < 65536,
            r.2 < 64,
    {
        let b0 = key[0];
        let b1 = key[1];
        let x = ((b0 as usize) << 2) | ((b1 as usize) >> 6);
        let y = (b1 & 63) as u64;
        let idx = (b0 as usize) * 256 + (b1 as usize);
        proof {
            lemma_flat_unflat((key@[0], key@[1]));
            let f = flat((key@[0], key@[1]));
            assert(f == b0 * 256 + b1);
            assert(((b0 as usize) << 2) | ((b1 as usize) >> 6) == (b0 as usize) * 4 + (
            b1 as usize) / 64) by (bit_vector)
                requires
                    b0 <= 255 && b1 <= 255,
            ;
            assert(b1 & 63 == b1 % 64) by (bit_vector);
            assert((b0 * 256 + b1) / 64 == b0 * 4 + b1 / 64) by (nonlinear_arith)
                requires
                    b0 <= 255 && b1 <= 255,
            ;
            assert((b0 * 256 + b1) % 64 == b1 % 64) by (nonlinear_arith)
                requires
                    b0 <= 255 && b1 <= 255,
            ;
        }
        (x, idx, y)
    }

    pub fn get(&self, key: [u8; 2]) -> (r: Option<&V>)
        requires
            self.wf(),
        ensures
            match r {
                Some(v) => self@.contains_key((key@[0], key@[1])) && *v == self@[(
                    key@[0],
                    key@[1],
                )],
                None => !self@.contains_key((key@[0], key@[1])),
            },
    {
        let (x, idx, y) = Self::locate(key);
        let z = (self.bits[x] >> y) & 1 == 1;
        proof {
            assert(bit_of(self.bits@, idx as int) == z);
            lemma_cells_view(self.data@, (key@[0], key@[1]));
        }
        if z {
            match &self.data[idx] {
                Some(v) => Some(v),
                None => vstd::pervasive::unreached(),
            }
        } else {
            None
        }
    }

    pub fn get_mut(&mut self, key: [u8; 2]) -> (r: Option<&mut V>)
        requires
            old(self).wf(),
        ensures
            old(self)@.contains_key((key@[0], key@[1])) ==> r is Some && *r.unwrap() == old(self)@[(key@[0], key@[1])] && final(self)@ == old(self)@.insert(
                (key@[0], key@[1]),
                *final(r.unwrap()),
            ) && final(self).wf() && final(self).len == old(self).len,
            !old(self)@.contains_key((key@[0], key@[1])) ==> r is None && *final(self) == *old(self),
    {
        let (x, idx, y) = Self::locate(key);
        let z = (self.bits[x] >> y) & 1 == 1;
        proof {
            assert(bit_of(self.bits@, idx as int) == z);
            lemma_cells_view(self.data@, (key@[0], key@[1]));
            if z {
                assert forall|v2: V|
                    view_of_cells(old(self).data@.update(idx as int, Some(v2))) == old(self)@.insert((key@[0], key@[1]), v2) by {
                    lemma_cells_update(old(self).data@, idx as int, v2);
                    lemma_flat_unflat((key@[0], key@[1]));
                }
                assert forall|v2: V|
                    count_some(old(self).data@.update(idx as int, Some(v2))) == count_some(
                        old(self).data@,
                    ) by {
                    lemma_count_some_update(old(self).data@, idx as int, Some(v2));
                }
            }
        }
        if z {
            match &mut self.data[idx] {
                Some(v) => Some(v),
                None => vstd::pervasive::unreached(),
            }
        } else {
            None
        }
    }

    /// Inserts a key. A new key's cell is initialized with `value` and
    /// handed back as `Ok`; a present key's value is untouched and handed
    /// back as `Err`.
    pub fn insert(&mut self, key: [u8; 2], value: V) -> (r: Result<&mut V, &mut V>)
        requires
            old(self).wf(),
        ensures
            final(self).wf(),
            match r {
                Ok(v) => !old(self)@.contains_key((key@[0], key@[1])) && *v == value && final(self).len == old(self).len + 1 && final(self)@ == old(self)@.insert(
                    (key@[0], key@[1]),
                    *final(v),
                ),
                Err(v) => old(self)@.contains_key((key@[0], key@[1])) && *v == old(self)@[(
                    key@[0],
                    key@[1],
                )] && final(self).len == old(self).len && final(self)@ == old(self)@.insert(
                    (key@[0], key@[1]),
                    *final(v),
                ),
            },
    {
        let (x, idx, y) = Self::locate(key);
        let ghost a = (key@[0], key@[1]);
        let z = (self.bits[x] >> y) & 1 == 1;
        proof {
            assert(bit_of(self.bits@, idx as int) == z);
            lemma_cells_view(self.data@, a);
            lemma_flat_unflat(a);
            assert forall|v2: V|
                view_of_cells(old(self).data@.update(idx as int, Some(v2))) == old(self)@.insert(
                    a,
                    v2,
                ) by {
                lemma_cells_update(old(self).data@, idx as int, v2);
            }
            assert forall|v2: V|
                count_some(old(self).data@.update(idx as int, Some(v2))) == count_some(
                    old(self).data@,
                ) + (if old(self).data@[idx as int] is Some {
                    0int
                } else {
                    1int
                }) by {
                lemma_count_some_update(old(self).data@, idx as int, Some(v2));
            }
        }
        if z {
            match &mut self.data[idx] {
                Some(v) => Err(v),
                None => vstd::pervasive::unreached(),
            }
        } else {
            proof {
                lemma_count_some_bound(self.data@);
            }
            let w = self.bits[x];
            let bslot = &mut self.bits[x];
            *bslot = w | (1u64 << y);
            self.len = self.len + 1;
            proof {
                assert forall|i2: int| 0 <= i2 < 65536 implies (#[trigger] bit_of(self.bits@, i2)
                    <==> (i2 == idx as int || bit_of(old(self).bits@, i2))) by {
                    let w0 = old(self).bits@[i2 / 64];
                    let sh = (i2 % 64) as u64;
                    if i2 / 64 == x as int {
                        assert(((w0 | (1u64 << y)) >> sh) & 1 == 1 <==> (sh == y || (w0 >> sh) & 1
                            == 1)) by (bit_vector)
                            requires
                                y < 64,
                                sh < 64,
                        ;
                        assert(i2 == idx as int <==> (i2 / 64 == idx as int / 64 && i2 % 64
                            == idx as int % 64));
                    } else {
                        assert(self.bits@[i2 / 64] == w0);
                    }
                }
            }
            let cell = &mut self.data[idx];
            *cell = Some(value);
            proof {
                assert(self.data@ =~= old(self).data@.update(idx as int, Some(value)));
                let data_now = self.data@;
                let bits_now = self.bits@;
                assert forall|v2: V|
                    #![trigger data_now.update(idx as int, Some(v2))]
                    {
                        let df = data_now.update(idx as int, Some(v2));
                        &&& df =~= old(self).data@.update(idx as int, Some(v2))
                        &&& count_some(df) == self.len
                        &&& view_of_cells(df) == old(self)@.insert(a, v2)
                        &&& forall|i2: int|
                            0 <= i2 < 65536 ==> (#[trigger] bit_of(bits_now, i2) <==> df[i2] is Some)
                    } by {
                    let df = data_now.update(idx as int, Some(v2));
                    assert(df =~= old(self).data@.update(idx as int, Some(v2)));
                    assert(count_some(df) == count_some(old(self).data@) + 1) by {
                        lemma_count_some_update(old(self).data@, idx as int, Some(v2));
                    }
                    assert forall|i2: int| 0 <= i2 < 65536 implies (#[trigger] bit_of(
                        bits_now,
                        i2,
                    ) <==> df[i2] is Some) by {
                        if i2 != idx as int {
                            assert(df[i2] == old(self).data@[i2]);
                            assert(bit_of(old(self).bits@, i2) <==> old(self).data@[i2] is Some);
                        }
                    }
                }
            }
            match &mut self.data[idx] {
                Some(v) => Ok(v),
                None => vstd::pervasive::unreached(),
            }
        }
    }
}

impl<V: Copy> Table1<V> {
    /// All entries in flat cell order, which is also the order of a bitmap
    /// scan by ascending group and bit. Each present key appears exactly once.
    pub fn iter(&self) -> (r: Vec<([u8; 2], V)>)
        requires
            self.wf(),
        ensures
            r@.len() == self.len,
            forall|j: int|
                0 <= j < r@.len() ==> self@.contains_key(
                    ((#[trigger] r@[j]).0@[0], r@[j].0@[1]),
                ) && self@[(r@[j].0@[0], r@[j].0@[1])] == r@[j].1,
            forall|j1: int, j2: int|
                0 <= j1 < j2 < r@.len() ==> ((#[trigger] r@[j1]).0@[0], r@[j1].0@[1]) != (
                (#[trigger] r@[j2]).0@[0], r@[j2].0@[1]),
            forall|a: (u8, u8)| #[trigger]
                self@.contains_key(a) ==> exists|j: int|
                    0 <= j < r@.len() && ((#[trigger] r@[j]).0@[0], r@[j].0@[1]) == a,
    {
        let ghost d = self.data@;
        let mut r: Vec<([u8; 2], V)> = Vec::new();
        let ghost mut srcs: Seq<int> = Seq::empty();
        let mut i: usize = 0;
        while i < 65536
            invariant
                self.wf(),
                d == self.data@,
                i <= 65536,
                r@.len() == count_some(d.take(i as int)),
                srcs.len() == r@.len(),
                forall|j: int|
                    0 <= j < srcs.len() ==> 0 <= #[trigger] srcs[j] < i && d[srcs[j]] is Some,
                forall|j: int|
                    0 <= j < r@.len() ==> ((#[trigger] r@[j]).0@[0], r@[j].0@[1]) == unflat(
                        srcs[j],
                    ) && r@[j].1 == d[srcs[j]]->0,
                forall|j1: int, j2: int|
                    0 <= j1 < j2 < srcs.len() ==> #[trigger] srcs[j1] != #[trigger] srcs[j2],
                forall|t: int|
                    0 <= t < i && #[trigger] d[t] is Some ==> exists|j: int|
                        0 <= j < srcs.len() && #[trigger] srcs[j] == t,
            decreases 65536 - i,
        {
            proof {
                assert(d.take(i + 1).drop_last() =~= d.take(i as int));
            }
            match &self.data[i] {
                Some(v) => {
                    let k0 = (i / 256) as u8;
                    let k1 = (i % 256) as u8;
                    let ghost r_before = r@;
                    r.push(([k0, k1], *v));
                    proof {
                        let srcs0 = srcs;
                        srcs = srcs.push(i as int);
                        assert((r@[r@.len() - 1].0@[0], r@[r@.len() - 1].0@[1]) == unflat(i as int));
                        assert forall|j: int| 0 <= j < srcs.len() implies 0 <= #[trigger] srcs[j]
                            < i + 1 && d[srcs[j]] is Some by {
                            if j < srcs0.len() {
                                assert(srcs[j] == srcs0[j]);
                            } else {
                                assert(srcs[j] == i as int);
                            }
                        }
                        assert forall|j: int| 0 <= j < r@.len() implies ((#[trigger] r@[j]).0@[0],
                        r@[j].0@[1]) == unflat(srcs[j]) && r@[j].1 == d[srcs[j]]->0 by {
                            if j < srcs0.len() {
                                assert(srcs[j] == srcs0[j]);
                                assert(r@[j] == r_before[j]);
                            } else {
                                assert(srcs[j] == i as int);
                            }
                        }
                        assert forall|j1: int, j2: int| 0 <= j1 < j2 < srcs.len() implies
                            #[trigger] srcs[j1] != #[trigger] srcs[j2] by {
                            if j2 == srcs.len() - 1 {
                                assert(srcs[j1] == srcs0[j1]);
                                assert(srcs0[j1] < i as int);
                                assert(srcs[j2] == i as int);
                            } else {
                                assert(srcs[j1] == srcs0[j1] && srcs[j2] == srcs0[j2]);
                            }
                        }
                        assert forall|t: int|
                            0 <= t < i + 1 && #[trigger] d[t] is Some implies exists|j: int|
                            0 <= j < srcs.len() && #[trigger] srcs[j] == t by {
                            if t < i {
                                let j = choose|j: int| 0 <= j < srcs0.len() && #[trigger] srcs0[j] == t;
                                assert(srcs[j] == srcs0[j]);
                                assert(srcs[j] == t);
                            } else {
                                assert(srcs[srcs.len() - 1] == t);
                            }
                        }
                    }
                },
                None => {
                    proof {
                        assert forall|t: int|
                            0 <= t < i + 1 && #[trigger] d[t] is Some implies exists|j: int|
                            0 <= j < srcs.len() && #[trigger] srcs[j] == t by {
                            assert(t != i);
                        }
                    }
                },
            }
            i = i + 1;
        }
        proof {
            assert(d.take(65536) =~= d);
            assert forall|j: int| 0 <= j < r@.len() implies self@.contains_key(
                ((#[trigger] r@[j]).0@[0], r@[j].0@[1])) && self@[(r@[j].0@[0], r@[j].0@[1])]
                == r@[j].1 by {
                let t = srcs[j];
                lemma_cells_view(d, unflat(t));
                lemma_unflat_flat(t);
            }
            assert forall|j1: int, j2: int| 0 <= j1 < j2 < r@.len() implies (
            (#[trigger] r@[j1]).0@[0], r@[j1].0@[1]) != ((#[trigger] r@[j2]).0@[0], r@[j2].0@[1]) by {
                let t1 = srcs[j1];
                let t2 = srcs[j2];
                lemma_unflat_flat(t1);
                lemma_unflat_flat(t2);
            }
            assert forall|a: (u8, u8)| #[trigger] self@.contains_key(a) implies exists|j: int|
                0 <= j < r@.len() && ((#[trigger] r@[j]).0@[0], r@[j].0@[1]) == a by {
                lemma_cells_view(d, a);
                lemma_flat_unflat(a);
                let t = flat(a);
                let j = choose|j: int| 0 <= j < srcs.len() && #[trigger] srcs[j] == t;
                assert((r@[j].0@[0], r@[j].0@[1]) == a);
            }
        }
        r
    }
}

} // verus!
