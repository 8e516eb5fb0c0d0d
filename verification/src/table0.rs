//! The open-addressing, linear-probing table at the heart of every variant.
//!
//! A `Table0` is a power-of-two array of slots probed linearly from a key's
//! home index `hash & (capacity - 1)`. A slot whose key equals the key type's
//! zero pattern counts as empty, so the zero key itself may never be stored
//! here; the enclosing table keeps it in a separate escape slot.
//!
//! The table abstracts to a finite map from key abstractions to values. Its
//! invariant is the classical linear-probing one: every occupied slot is
//! reachable from its key's home index through a run of occupied slots.

use vstd::prelude::*;
use vstd::arithmetic::power2::{pow2, lemma_pow2_adds, lemma_pow2_pos, lemma2_to64, lemma2_to64_rest};
use vstd::bits::{lemma_u64_low_bits_mask_is_mod, lemma_usize_shl_is_mul, low_bits_mask};
use vstd::set::axiom_set_insert_len;
use crate::traits::Key;

verus! {

/// One slot: empty, or a key paired with its value.
pub enum Slot<K, V> {
    Empty,
    Full { key: K, val: V },
}

impl<K, V> Slot<K, V> {
    /// Whether the slot holds the empty (zero) pattern.
    pub open spec fn is_zero_spec(self) -> bool {
        self is Empty
    }

    pub fn is_zero(&self) -> (r: bool)
        ensures
            r == self.is_zero_spec(),
    {
        match self {
            Slot::Empty => true,
            Slot::Full { .. } => false,
        }
    }
}

/// The number of occupied slots.
pub open spec fn count_full<K, V>(s: Seq<Slot<K, V>>) -> nat
    decreases s.len(),
{
    if s.len() == 0 {
        0nat
    } else {
        count_full(s.drop_last()) + if s.last() is Full {
            1nat
        } else {
            0nat
        }
    }
}

/// The map a slot sequence stands for: every occupied slot contributes its
/// key's abstraction and its value.
pub open spec fn view_of<K: Key, V>(s: Seq<Slot<K, V>>) -> Map<<K as View>::V, V>
    decreases s.len(),
{
    if s.len() == 0 {
        Map::empty()
    } else {
        let m = view_of(s.drop_last());
        if s.last() is Full {
            m.insert(s.last()->Full_key@, s.last()->Full_val)
        } else {
            m
        }
    }
}

/// A key abstraction's home index in a table of `cap` slots.
pub open spec fn spec_home<K: Key>(a: <K as View>::V, cap: int) -> int {
    K::hash_abs(a) as int % cap
}

/// The slot reached after `d` probe steps from `h`, wrapping at `cap`.
pub open spec fn wrap(h: int, d: int, cap: int) -> int {
    if h + d < cap {
        h + d
    } else {
        h + d - cap
    }
}

/// The number of probe steps from `h` to `j`, wrapping at `cap`.
pub open spec fn dist(h: int, j: int, cap: int) -> int {
    if j >= h {
        j - h
    } else {
        j + cap - h
    }
}

/// Occupied slots hold no zero pattern, and each lies in a contiguous run of
/// occupied slots starting at its home index.
pub open spec fn slot_ok<K: Key, V>(s: Seq<Slot<K, V>>, i: int) -> bool {
    s[i] is Full ==> {
        let a = s[i]->Full_key@;
        let cap = s.len() as int;
        &&& !K::excluded_abs(a)
        &&& forall|d: int|
            0 <= d < dist(spec_home::<K>(a, cap), i, cap) ==> #[trigger] s[wrap(
                spec_home::<K>(a, cap),
                d,
                cap,
            )] is Full
    }
}

/// No two occupied slots hold keys with the same abstraction.
pub open spec fn keys_distinct<K: Key, V>(s: Seq<Slot<K, V>>) -> bool {
    forall|i: int, j: int|
        0 <= i < s.len() && 0 <= j < s.len() && i != j && s[i] is Full && s[j] is Full
            ==> (#[trigger] s[i]->Full_key)@ != (#[trigger] s[j]->Full_key)@
}

/// The full well-formedness of a slot array with `len` recorded entries.
pub open spec fn slots_wf<K: Key, V>(s: Seq<Slot<K, V>>, len: nat) -> bool {
    &&& exists|m: nat| 3 <= m <= 63 && s.len() == pow2(m)
    &&& len == count_full(s)
    &&& forall|i: int| 0 <= i < s.len() ==> slot_ok(s, i)
    &&& keys_distinct(s)
}

// ---------------------------------------------------------------------------
// counting lemmas
// ---------------------------------------------------------------------------

pub proof fn lemma_count_full_bound<K, V>(s: Seq<Slot<K, V>>)
    ensures
        count_full(s) <= s.len(),
    decreases s.len(),
{
    if s.len() > 0 {
        lemma_count_full_bound(s.drop_last());
    }
}

pub proof fn lemma_count_full_all<K, V>(s: Seq<Slot<K, V>>)
    requires
        forall|i: int| 0 <= i < s.len() ==> s[i] is Full,
    ensures
        count_full(s) == s.len(),
    decreases s.len(),
{
    if s.len() > 0 {
        lemma_count_full_all(s.drop_last());
    }
}

pub proof fn lemma_count_full_empty<K, V>(s: Seq<Slot<K, V>>)
    requires
        forall|i: int| 0 <= i < s.len() ==> !(s[i] is Full),
    ensures
        count_full(s) == 0,
    decreases s.len(),
{
    if s.len() > 0 {
        lemma_count_full_empty(s.drop_last());
    }
}

pub proof fn lemma_count_full_update<K, V>(s: Seq<Slot<K, V>>, i: int, x: Slot<K, V>)
    requires
        0 <= i < s.len(),
    ensures
        count_full(s.update(i, x)) == count_full(s) + (if x is Full {
            1int
        } else {
            0int
        }) - (if s[i] is Full {
            1int
        } else {
            0int
        }),
    decreases s.len(),
{
    let s2 = s.update(i, x);
    if i == s.len() - 1 {
        assert(s2.drop_last() =~= s.drop_last());
    } else {
        assert(s2.drop_last() =~= s.drop_last().update(i, x));
        lemma_count_full_update(s.drop_last(), i, x);
    }
}

// ---------------------------------------------------------------------------
// view lemmas
// ---------------------------------------------------------------------------

/// A key abstraction is in the view exactly when some occupied slot holds it.
pub proof fn lemma_view_contains<K: Key, V>(s: Seq<Slot<K, V>>, a: <K as View>::V)
    ensures
        view_of(s).contains_key(a) <==> exists|i: int|
            0 <= i < s.len() && s[i] is Full && (#[trigger] s[i]->Full_key)@ == a,
    decreases s.len(),
{
    if s.len() > 0 {
        lemma_view_contains(s.drop_last(), a);
        let s0 = s.drop_last();
        if view_of(s).contains_key(a) {
            if s.last() is Full && s.last()->Full_key@ == a {
                assert(s[s.len() - 1] is Full && s[s.len() - 1]->Full_key@ == a);
            } else {
                let i = choose|i: int|
                    0 <= i < s0.len() && s0[i] is Full && (#[trigger] s0[i]->Full_key)@ == a;
                assert(s[i] is Full && s[i]->Full_key@ == a);
            }
        }
        if exists|i: int| 0 <= i < s.len() && s[i] is Full && (#[trigger] s[i]->Full_key)@ == a {
            let i = choose|i: int|
                0 <= i < s.len() && s[i] is Full && (#[trigger] s[i]->Full_key)@ == a;
            if i < s.len() - 1 {
                assert(s0[i] is Full && s0[i]->Full_key@ == a);
                assert(view_of(s0).contains_key(a));
            }
        }
    }
}

/// In a duplicate-free slot array, an occupied slot's value is the view's
/// value for its key.
pub proof fn lemma_view_at<K: Key, V>(s: Seq<Slot<K, V>>, i: int)
    requires
        keys_distinct(s),
        0 <= i < s.len(),
        s[i] is Full,
    ensures
        view_of(s).contains_key(s[i]->Full_key@),
        view_of(s)[s[i]->Full_key@] == s[i]->Full_val,
    decreases s.len(),
{
    let s0 = s.drop_last();
    assert(keys_distinct(s0));
    if i == s.len() - 1 {
    } else {
        lemma_view_at(s0, i);
        if s.last() is Full {
            assert(s[s.len() - 1] is Full);
            assert(s.last()->Full_key@ != s[i]->Full_key@);
        }
    }
}

/// Replacing the value of an occupied slot (keeping a key with the same
/// abstraction) updates the view at that key.
pub proof fn lemma_view_update_val<K: Key, V>(s: Seq<Slot<K, V>>, i: int, k2: K, v2: V)
    requires
        keys_distinct(s),
        0 <= i < s.len(),
        s[i] is Full,
        k2@ == s[i]->Full_key@,
    ensures
        view_of(s.update(i, Slot::Full { key: k2, val: v2 })) == view_of(s).insert(k2@, v2),
    decreases s.len(),
{
    let s2 = s.update(i, Slot::Full { key: k2, val: v2 });
    if i == s.len() - 1 {
        assert(s2.drop_last() =~= s.drop_last());
        assert(view_of(s2) =~= view_of(s).insert(k2@, v2));
    } else {
        assert(s2.drop_last() =~= s.drop_last().update(i, Slot::Full { key: k2, val: v2 }));
        assert(keys_distinct(s.drop_last()));
        lemma_view_update_val(s.drop_last(), i, k2, v2);
        if s.last() is Full {
            assert(s[s.len() - 1] is Full);
            assert(s.last()->Full_key@ != s[i]->Full_key@);
            assert(view_of(s2) =~= view_of(s).insert(k2@, v2));
        } else {
            assert(view_of(s2) =~= view_of(s).insert(k2@, v2));
        }
    }
}

/// Filling an empty slot with a key absent from the view inserts it.
pub proof fn lemma_view_fill_empty<K: Key, V>(s: Seq<Slot<K, V>>, i: int, k: K, v: V)
    requires
        0 <= i < s.len(),
        s[i] is Empty,
        !view_of(s).contains_key(k@),
    ensures
        view_of(s.update(i, Slot::Full { key: k, val: v })) == view_of(s).insert(k@, v),
    decreases s.len(),
{
    let s2 = s.update(i, Slot::Full { key: k, val: v });
    if i == s.len() - 1 {
        assert(s2.drop_last() =~= s.drop_last());
        assert(view_of(s2) =~= view_of(s).insert(k@, v));
    } else {
        assert(s2.drop_last() =~= s.drop_last().update(i, Slot::Full { key: k, val: v }));
        assert(!view_of(s.drop_last()).contains_key(k@)) by {
            lemma_view_contains(s.drop_last(), k@);
            lemma_view_contains(s, k@);
            if exists|j: int|
                0 <= j < s.drop_last().len() && s.drop_last()[j] is Full && (#[trigger] s.drop_last()[j]->Full_key)@ == k@ {
                let j = choose|j: int|
                    0 <= j < s.drop_last().len() && s.drop_last()[j] is Full && (#[trigger] s.drop_last()[j]->Full_key)@ == k@;
                assert(s[j] is Full && s[j]->Full_key@ == k@);
            }
        }
        lemma_view_fill_empty(s.drop_last(), i, k, v);
        if s.last() is Full {
            assert(s.last()->Full_key@ != k@) by {
                lemma_view_contains(s, k@);
                assert(s[s.len() - 1] is Full);
            }
            assert(view_of(s2) =~= view_of(s).insert(k@, v));
        } else {
            assert(view_of(s2) =~= view_of(s).insert(k@, v));
        }
    }
}

/// In a duplicate-free slot array, the view has exactly one key per
/// occupied slot.
pub proof fn lemma_view_dom_len<K: Key, V>(s: Seq<Slot<K, V>>)
    requires
        keys_distinct(s),
    ensures
        view_of(s).dom().finite(),
        view_of(s).dom().len() == count_full(s),
    decreases s.len(),
{
    if s.len() == 0 {
    } else {
        let s0 = s.drop_last();
        assert(keys_distinct(s0));
        lemma_view_dom_len(s0);
        if s.last() is Full {
            let a = s.last()->Full_key@;
            assert(!view_of(s0).contains_key(a)) by {
                lemma_view_contains(s0, a);
                if exists|j: int|
                    0 <= j < s0.len() && s0[j] is Full && (#[trigger] s0[j]->Full_key)@ == a {
                    let j = choose|j: int|
                        0 <= j < s0.len() && s0[j] is Full && (#[trigger] s0[j]->Full_key)@ == a;
                    assert(s[j] is Full && s[j]->Full_key@ == a);
                    assert(s[s.len() - 1] is Full);
                }
            }
            axiom_set_insert_len(view_of(s0).dom(), a);
            assert(view_of(s).dom() =~= view_of(s0).dom().insert(a));
        }
    }
}

/// All-empty slot arrays stand for the empty map.
pub proof fn lemma_view_all_empty<K: Key, V>(s: Seq<Slot<K, V>>)
    requires
        forall|i: int| 0 <= i < s.len() ==> !(s[i] is Full),
    ensures
        view_of(s) == Map::<<K as View>::V, V>::empty(),
    decreases s.len(),
{
    if s.len() > 0 {
        lemma_view_all_empty(s.drop_last());
    }
}

// ---------------------------------------------------------------------------
// probe geometry
// ---------------------------------------------------------------------------

/// Stepping `dist(h, j, cap)` probes from `h` lands on `j`.
pub proof fn lemma_wrap_dist(h: int, j: int, cap: int)
    requires
        0 <= h < cap,
        0 <= j < cap,
    ensures
        0 <= dist(h, j, cap) < cap,
        wrap(h, dist(h, j, cap), cap) == j,
{
}

/// Stepping `d < cap` probes from `h` lands at distance `d`.
pub proof fn lemma_dist_wrap(h: int, d: int, cap: int)
    requires
        0 <= h < cap,
        0 <= d < cap,
    ensures
        0 <= wrap(h, d, cap) < cap,
        dist(h, wrap(h, d, cap), cap) == d,
{
}

/// Well-formedness reads only which slots are occupied and by which keys,
/// never the values: two arrays with the same key skeleton are equally
/// well formed.
pub proof fn lemma_wf_same_skeleton<K: Key, V>(s1: Seq<Slot<K, V>>, s2: Seq<Slot<K, V>>, len: nat)
    requires
        slots_wf(s1, len),
        s1.len() == s2.len(),
        forall|i: int| 0 <= i < s1.len() ==> ((s1[i] is Full) <==> (#[trigger] s2[i]) is Full),
        forall|i: int|
            0 <= i < s1.len() && s1[i] is Full ==> s1[i]->Full_key == (#[trigger] s2[i])->Full_key,
    ensures
        slots_wf(s2, len),
{
    lemma_count_full_skeleton(s1, s2);
    assert forall|i: int| 0 <= i < s2.len() implies slot_ok(s2, i) by {
        assert(slot_ok(s1, i));
        if s2[i] is Full {
            let a = s2[i]->Full_key@;
            let cap = s2.len() as int;
            assert forall|d: int| 0 <= d < dist(spec_home::<K>(a, cap), i, cap) implies #[trigger] s2[wrap(
                spec_home::<K>(a, cap),
                d,
                cap,
            )] is Full by {
                assert(s1[wrap(spec_home::<K>(a, cap), d, cap)] is Full);
            }
        }
    }
}


// ---------------------------------------------------------------------------
// the table
// ---------------------------------------------------------------------------

/// The outcome of probing for a key: its slot, the first free slot on its
/// probe path, or a completely full table.
pub(crate) enum ProbeOutcome {
    Found(usize),
    FreeAt(usize),
    Exhausted,
}

/// The open-addressing table. `len` counts the occupied slots.
pub struct Table0<K: Key, V> {
    pub slots: Vec<Slot<K, V>>,
    pub len: usize,
}

impl<K: Key, V> View for Table0<K, V> {
    type V = Map<<K as View>::V, V>;

    open spec fn view(&self) -> Self::V {
        view_of(self.slots@)
    }
}

impl<K: Key, V> Table0<K, V> {
    pub open spec fn cap_spec(self) -> nat {
        self.slots@.len()
    }

    pub open spec fn wf(self) -> bool {
        slots_wf(self.slots@, self.len as nat)
    }

    /// The number of entries.
    pub fn len(&self) -> (r: usize)
        ensures
            r == self.len,
    {
        self.len
    }

    /// The number of slots.
    pub fn capacity(&self) -> (r: usize)
        ensures
            r == self.cap_spec(),
    {
        self.slots.len()
    }

    /// The number of distinct keys equals the recorded length.
    pub proof fn lemma_len_is_distinct_count(self)
        requires
            self.wf(),
        ensures
            self@.dom().finite(),
            self@.dom().len() == self.len,
    {
        lemma_view_dom_len(self.slots@);
    }

    /// Creates a table of at least `capacity` slots, rounded up to a power of
    /// two and at least 8.
    pub fn with_capacity(capacity: usize) -> (r: Self)
        requires
            capacity <= usize::MAX / 2,
        ensures
            r.wf(),
            r@ == Map::<<K as View>::V, V>::empty(),
            r.len == 0,
            r.cap_spec() >= 8,
            r.cap_spec() >= capacity,
            r.cap_spec() == 8 || r.cap_spec() < 2 * capacity,
    {
        let mut cap: usize = 8;
        let ghost mut m: nat = 3nat;
        proof {
            lemma2_to64();
        }
        while cap < capacity
            invariant
                capacity <= usize::MAX / 2,
                cap == pow2(m),
                3 <= m,
                cap >= 8,
                cap == 8 || cap < 2 * capacity,
            decreases 2 * capacity - cap,
        {
            proof {
                lemma_pow2_adds(m, 1);
                lemma2_to64();
                m = m + 1;
            }
            cap = cap * 2;
        }
        proof {
            lemma_pow2_le63(m);
        }
        let mut slots: Vec<Slot<K, V>> = Vec::new();
        let mut i: usize = 0;
        while i < cap
            invariant
                slots@.len() == i,
                i <= cap,
                forall|j: int| 0 <= j < i ==> !((#[trigger] slots@[j]) is Full),
            decreases cap - i,
        {
            slots.push(Slot::Empty);
            i = i + 1;
        }
        proof {
            lemma_count_full_empty(slots@);
            lemma_view_all_empty(slots@);
        }
        Table0 { slots, len: 0 }
    }

    /// The home slot of `key`, computed by masking its hash with the
    /// power-of-two capacity.
    fn home_index(&self, key: &K) -> (h: usize)
        requires
            self.wf(),
        ensures
            h as int == spec_home::<K>(key@, self.cap_spec() as int),
            h < self.cap_spec(),
    {
        let cap = self.slots.len();
        let hash = key.hash();
        proof {
            let m = choose|m: nat| 3 <= m <= 63 && self.slots@.len() == pow2(m);
            lemma_u64_low_bits_mask_is_mod(hash, m);
            lemma_pow2_pos(m);
            assert(low_bits_mask(m) == pow2(m) - 1);
        }
        (hash & ((cap as u64) - 1)) as usize
    }

    /// Probes linearly from the key's home slot.
    fn probe(&self, key: &K) -> (r: ProbeOutcome)
        requires
            self.wf(),
            !K::excluded_abs(key@),
        ensures
            ({
                let s = self.slots@;
                let cap = s.len() as int;
                let home = spec_home::<K>(key@, cap);
                match r {
                    ProbeOutcome::Found(i) => i < s.len() && s[i as int] is Full && s[
                        i as int
                    ]->Full_key@ == key@,
                    ProbeOutcome::FreeAt(i) => i < s.len() && s[i as int] is Empty && !view_of(
                        s,
                    ).contains_key(key@) && forall|d: int|
                        0 <= d < dist(home, i as int, cap) ==> #[trigger] s[wrap(
                            home,
                            d,
                            cap,
                        )] is Full,
                    ProbeOutcome::Exhausted => !view_of(s).contains_key(key@) && count_full(s)
                        == s.len(),
                }
            }),
    {
        let cap = self.slots.len();
        let home = self.home_index(key);
        let ghost s = self.slots@;
        let ghost homei = home as int;
        let ghost capi = cap as int;
        let mut d: usize = 0;
        let mut pos: usize = home;
        while d < cap
            invariant
                self.wf(),
                !K::excluded_abs(key@),
                s == self.slots@,
                cap == self.slots@.len(),
                capi == cap as int,
                homei == spec_home::<K>(key@, capi),
                0 <= homei < capi,
                d <= cap,
                pos as int == wrap(homei, d as int, capi),
                forall|dd: int|
                    0 <= dd < d as int ==> (#[trigger] s[wrap(homei, dd, capi)]) is Full && s[wrap(
                        homei,
                        dd,
                        capi,
                    )]->Full_key@ != key@,
            decreases cap - d,
        {
            proof {
                lemma_dist_wrap(homei, d as int, capi);
            }
            match &self.slots[pos] {
                Slot::Empty => {
                    proof {
                        lemma_view_contains(s, key@);
                        if exists|i: int|
                            0 <= i < s.len() && s[i] is Full && (#[trigger] s[i]->Full_key)@
                                == key@ {
                            let i = choose|i: int|
                                0 <= i < s.len() && s[i] is Full && (#[trigger] s[i]->Full_key)@
                                    == key@;
                            assert(slot_ok(s, i));
                            let di = dist(homei, i, capi);
                            lemma_wrap_dist(homei, i, capi);
                            if di < d as int {
                                assert(s[wrap(homei, di, capi)]->Full_key@ != key@);
                            } else if di == d as int {
                                assert(s[wrap(homei, di, capi)] is Full);
                            } else {
                                assert(s[wrap(spec_home::<K>(s[i]->Full_key@, capi), d as int, capi)] is Full);
                            }
                            assert(false);
                        }
                    }
                    return ProbeOutcome::FreeAt(pos);
                },
                Slot::Full { key: k2, val: _ } => {
                    if k2.key_eq(key) {
                        return ProbeOutcome::Found(pos);
                    }
                },
            }
            proof {
                assert(wrap(homei, d as int, capi) == pos as int);
                assert(s[wrap(homei, d as int, capi)] is Full);
                assert(s[wrap(homei, d as int, capi)]->Full_key@ != key@);
            }
            d = d + 1;
            pos = if cap - 1 == pos {
                0
            } else {
                pos + 1
            };
        }
        proof {
            assert forall|j: int| 0 <= j < capi implies s[j] is Full by {
                lemma_wrap_dist(homei, j, capi);
                assert(s[wrap(homei, dist(homei, j, capi), capi)] is Full);
            }
            lemma_count_full_all(s);
            lemma_view_contains(s, key@);
            if exists|i: int|
                0 <= i < s.len() && s[i] is Full && (#[trigger] s[i]->Full_key)@ == key@ {
                let i = choose|i: int|
                    0 <= i < s.len() && s[i] is Full && (#[trigger] s[i]->Full_key)@ == key@;
                lemma_wrap_dist(homei, i, capi);
                assert(s[wrap(homei, dist(homei, i, capi), capi)]->Full_key@ != key@);
                assert(false);
            }
        }
        ProbeOutcome::Exhausted
    }

    /// Looks a key up. The key must not be the zero pattern: the enclosing
    /// table keeps that key's entry in its escape slot.
    pub fn get(&self, key: &K) -> (r: Option<&V>)
        requires
            self.wf(),
            !K::excluded_abs(key@),
        ensures
            match r {
                Some(v) => self@.contains_key(key@) && *v == self@[key@],
                None => !self@.contains_key(key@),
            },
    {
        match self.probe(key) {
            ProbeOutcome::Found(i) => {
                proof {
                    lemma_view_at(self.slots@, i as int);
                }
                match &self.slots[i] {
                    Slot::Full { val, .. } => Some(val),
                    Slot::Empty => vstd::pervasive::unreached(),
                }
            },
            _ => None,
        }
    }

    /// Looks a key up for mutation.
    pub fn get_mut(&mut self, key: &K) -> (r: Option<&mut V>)
        requires
            old(self).wf(),
            !K::excluded_abs(key@),
        ensures
            old(self)@.contains_key(key@) ==> r is Some && *r.unwrap() == old(self)@[key@]
                && final(self)@ == old(self)@.insert(key@, *final(r.unwrap())) && final(self).wf()
                && final(self).len == old(self).len && final(self).cap_spec() == old(self).cap_spec(),
            !old(self)@.contains_key(key@) ==> r is None && *final(self) == *old(self),
    {
        let ghost s = self.slots@;
        match self.probe(key) {
            ProbeOutcome::Found(i) => {
                let ghost k_i = s[i as int]->Full_key;
                proof {
                    lemma_view_at(s, i as int);
                    assert forall|v2: V|
                        view_of(s.update(i as int, Slot::Full { key: k_i, val: v2 })) == view_of(
                            s,
                        ).insert(key@, v2) by {
                        lemma_view_update_val(s, i as int, k_i, v2);
                    }
                    assert forall|v2: V|
                        slots_wf(
                            s.update(i as int, Slot::Full { key: k_i, val: v2 }),
                            old(self).len as nat,
                        ) by {
                        lemma_wf_same_skeleton(
                            s,
                            s.update(i as int, Slot::Full { key: k_i, val: v2 }),
                            old(self).len as nat,
                        );
                    }
                }
                match &mut self.slots[i] {
                    Slot::Full { val, .. } => Some(val),
                    Slot::Empty => vstd::pervasive::unreached(),
                }
            },
            _ => None,
        }
    }

    /// Inserts a key, claiming the first free slot on its probe path. If the
    /// key is already present, the table is unchanged and the existing value
    /// is handed back for the caller to update.
    ///
    /// The caller must have kept a free slot (the load-factor policy of the
    /// enclosing tables keeps the table at most half full).
    pub fn insert(&mut self, key: K, value: V) -> (r: Result<&mut V, &mut V>)
        requires
            old(self).wf(),
            !K::excluded_abs(key@),
            old(self).len < old(self).cap_spec(),
        ensures
            final(self).wf(),
            final(self).cap_spec() == old(self).cap_spec(),
            match r {
                Ok(v) => !old(self)@.contains_key(key@) && *v == value && final(self).len == old(self).len + 1 && final(self)@ == old(self)@.insert(key@, *final(v)),
                Err(v) => old(self)@.contains_key(key@) && *v == old(self)@[key@] && final(self).len == old(self).len && final(self)@ == old(self)@.insert(key@, *final(v)),
            },
    {
        let ghost s = self.slots@;
        match self.probe(&key) {
            ProbeOutcome::Found(i) => {
                let ghost k_i = s[i as int]->Full_key;
                proof {
                    lemma_view_at(s, i as int);
                    assert forall|v2: V|
                        view_of(s.update(i as int, Slot::Full { key: k_i, val: v2 })) == view_of(
                            s,
                        ).insert(key@, v2) by {
                        lemma_view_update_val(s, i as int, k_i, v2);
                    }
                    assert forall|v2: V|
                        slots_wf(
                            s.update(i as int, Slot::Full { key: k_i, val: v2 }),
                            old(self).len as nat,
                        ) by {
                        lemma_wf_same_skeleton(
                            s,
                            s.update(i as int, Slot::Full { key: k_i, val: v2 }),
                            old(self).len as nat,
                        );
                    }
                }
                match &mut self.slots[i] {
                    Slot::Full { val, .. } => Err(val),
                    Slot::Empty => vstd::pervasive::unreached(),
                }
            },
            ProbeOutcome::FreeAt(i) => {
                let cap_now = self.slots.len();
                proof {
                    lemma_insert_at_free(s, old(self).len as nat, i as int, key, value);
                    assert(self.len < cap_now);
                }
                self.len = self.len + 1;
                let slot = &mut self.slots[i];
                *slot = Slot::Full { key, val: value };
                let ghost s1 = self.slots@;
                let ghost k1 = s1[i as int]->Full_key;
                proof {
                    assert(s1 =~= s.update(i as int, Slot::Full { key: k1, val: value }));
                    assert forall|v2: V|
                        view_of(s1.update(i as int, Slot::Full { key: k1, val: v2 })) == view_of(
                            s,
                        ).insert(k1@, v2) by {
                        lemma_view_update_val(s1, i as int, k1, v2);
                        assert(view_of(s1) == view_of(s).insert(k1@, value));
                        assert(view_of(s).insert(k1@, value).insert(k1@, v2) =~= view_of(
                            s,
                        ).insert(k1@, v2));
                    }
                    assert forall|v2: V|
                        slots_wf(
                            s1.update(i as int, Slot::Full { key: k1, val: v2 }),
                            self.len as nat,
                        ) by {
                        lemma_wf_same_skeleton(
                            s1,
                            s1.update(i as int, Slot::Full { key: k1, val: v2 }),
                            self.len as nat,
                        );
                    }
                }
                match &mut self.slots[i] {
                    Slot::Full { val, .. } => Ok(val),
                    Slot::Empty => vstd::pervasive::unreached(),
                }
            },
            ProbeOutcome::Exhausted => {
                proof {
                    assert(false);
                }
                vstd::pervasive::unreached()
            },
        }
    }

    /// Grows, if needed, so that one more insert keeps the table at most
    /// half full: fourfold while below `2^22` slots, twofold above.
    pub fn reserve_one(&mut self)
        requires
            old(self).wf(),
            old(self).len + 1 <= usize::MAX / 4,
        ensures
            final(self).wf(),
            final(self)@ == old(self)@,
            final(self).len == old(self).len,
            (final(self).len + 1) * 2 <= final(self).cap_spec(),
            final(self).cap_spec() >= old(self).cap_spec(),
    {
        proof {
            lemma_count_full_bound(self.slots@);
        }
        let cap0 = self.capacity();
        while (self.len() + 1) * 2 > self.capacity()
            invariant
                self.wf(),
                self@ == old(self)@,
                self.len == old(self).len,
                self.len + 1 <= usize::MAX / 4,
                self.cap_spec() <= usize::MAX,
                self.cap_spec() >= old(self).cap_spec(),
            decreases usize::MAX - self.cap_spec(),
        {
            let cap = self.capacity();
            let ghost pre_cap = self.cap_spec();
            proof {
                lemma2_to64();
                let m0 = choose|m: nat| 3 <= m <= 63 && self.slots@.len() == pow2(m);
                lemma_pow2_pos(m0);
            }
            if cap >> 22usize == 0 {
                proof {
                    assert(cap >> 22usize == cap / 0x400000) by (bit_vector);
                    assert(self.cap_spec() * pow2(2) <= usize::MAX);
                }
                self.grow(2);
            } else {
                proof {
                    assert(self.cap_spec() * pow2(1) <= usize::MAX);
                }
                self.grow(1);
            }
            proof {
                assert(self.cap_spec() > pre_cap);
            }
        }
    }

    /// Inserts a key known to be absent, without handing out a reference.
    fn raw_insert(&mut self, key: K, value: V)
        requires
            old(self).wf(),
            !K::excluded_abs(key@),
            !old(self)@.contains_key(key@),
            old(self).len < old(self).cap_spec(),
        ensures
            final(self).wf(),
            final(self)@ == old(self)@.insert(key@, value),
            final(self).len == old(self).len + 1,
            final(self).cap_spec() == old(self).cap_spec(),
    {
        let ghost s = self.slots@;
        match self.probe(&key) {
            ProbeOutcome::Found(i) => {
                proof {
                    lemma_view_at(s, i as int);
                }
                vstd::pervasive::unreached()
            },
            ProbeOutcome::FreeAt(i) => {
                let cap_now = self.slots.len();
                proof {
                    lemma_insert_at_free(s, old(self).len as nat, i as int, key, value);
                    assert(self.len < cap_now);
                }
                self.len = self.len + 1;
                let slot = &mut self.slots[i];
                *slot = Slot::Full { key, val: value };
                proof {
                    assert(self.slots@ =~= s.update(
                        i as int,
                        Slot::Full { key: self.slots@[i as int]->Full_key, val: value },
                    ));
                }
            },
            ProbeOutcome::Exhausted => {
                proof {
                    assert(false);
                }
                vstd::pervasive::unreached()
            },
        }
    }

    /// Multiplies the capacity by `2^shift`, rebuilding the probe structure.
    /// The set of entries and every key's value are preserved.
    pub fn grow(&mut self, shift: u8)
        requires
            old(self).wf(),
            1 <= shift <= 2,
            old(self).cap_spec() * pow2(shift as nat) <= usize::MAX,
        ensures
            final(self).wf(),
            final(self)@ == old(self)@,
            final(self).len == old(self).len,
            final(self).cap_spec() == old(self).cap_spec() * pow2(shift as nat),
    {
        let old_cap = self.slots.len();
        proof {
            lemma_usize_shl_is_mul(old_cap, shift as usize);
        }
        let new_cap = old_cap << (shift as usize);
        let ghost old_view = view_of(self.slots@);
        let ghost old_len = self.len as nat;
        let mut old_slots: Vec<Slot<K, V>> = Vec::new();
        core::mem::swap(&mut old_slots, &mut self.slots);
        let mut i: usize = 0;
        while i < new_cap
            invariant
                self.slots@.len() == i,
                i <= new_cap,
                forall|j: int| 0 <= j < i ==> !((#[trigger] self.slots@[j]) is Full),
            decreases new_cap - i,
        {
            self.slots.push(Slot::Empty);
            i = i + 1;
        }
        self.len = 0;
        proof {
            let m = choose|m: nat| 3 <= m <= 63 && old_slots@.len() == pow2(m);
            lemma_pow2_adds(m, shift as nat);
            lemma_pow2_le63(m + shift as nat);
            assert(self.slots@.len() == pow2(m + shift as nat));
            lemma_count_full_empty(self.slots@);
            lemma_view_all_empty(self.slots@);
            lemma_count_full_bound(old_slots@);
            lemma_pow2_pos(shift as nat);
            lemma2_to64();
            assert(pow2(1) == 2 && pow2(2) == 4);
            assert(old_cap * 2 <= old_cap * pow2(shift as nat)) by (nonlinear_arith)
                requires 2 <= pow2(shift as nat), old_cap >= 0;
            assert(self.wf());
            assert forall|t: int|
                0 <= t < old_slots@.len() && old_slots@[t] is Full implies !K::excluded_abs(
                (#[trigger] old_slots@[t]->Full_key)@) by {
                assert(slot_ok(old_slots@, t));
            }
        }
        while old_slots.len() > 0
            invariant
                self.wf(),
                self.cap_spec() == new_cap,
                old_cap * 2 <= new_cap,
                keys_distinct(old_slots@),
                forall|t: int|
                    0 <= t < old_slots@.len() && old_slots@[t] is Full ==> !K::excluded_abs(
                        (#[trigger] old_slots@[t]->Full_key)@,
                    ),
                forall|a: <K as View>::V| #[trigger]
                    view_of(old_slots@).contains_key(a) ==> !self@.contains_key(a),
                forall|a: <K as View>::V| #[trigger]
                    old_view.contains_key(a) <==> (self@.contains_key(a) || view_of(
                        old_slots@,
                    ).contains_key(a)),
                forall|a: <K as View>::V| #[trigger]
                    self@.contains_key(a) ==> old_view[a] == self@[a],
                forall|a: <K as View>::V| #[trigger]
                    view_of(old_slots@).contains_key(a) ==> old_view[a] == view_of(old_slots@)[a],
                self.len as nat + count_full(old_slots@) == old_len,
                old_len <= old_cap,
            decreases old_slots@.len(),
        {
            let ghost pre = old_slots@;
            let ghost rest = pre.drop_last();
            let slot = old_slots.pop().unwrap();
            proof {
                assert(keys_distinct(rest)) by {
                    assert forall|x: int, y: int|
                        0 <= x < rest.len() && 0 <= y < rest.len() && x != y && rest[x] is Full
                            && rest[y] is Full implies (#[trigger] rest[x]->Full_key)@ != (
                    #[trigger] rest[y]->Full_key)@ by {
                        assert(pre[x] is Full && pre[y] is Full);
                    }
                }
            }
            match slot {
                Slot::Empty => {
                    proof {
                        assert(view_of(pre) == view_of(rest));
                        assert forall|t: int|
                            0 <= t < rest.len() && rest[t] is Full implies !K::excluded_abs(
                            (#[trigger] rest[t]->Full_key)@) by {
                            assert(pre[t] is Full && pre[t]->Full_key == rest[t]->Full_key);
                        }
                    }
                },
                Slot::Full { key, val } => {
                    let ghost a0 = key@;
                    proof {
                        assert(pre.last() is Full && pre.last()->Full_key == key);
                        assert(view_of(pre) == view_of(rest).insert(a0, val));
                        assert(view_of(pre).contains_key(a0));
                        assert(!self@.contains_key(a0));
                        assert(!view_of(rest).contains_key(a0)) by {
                            lemma_view_contains(rest, a0);
                            if exists|j: int|
                                0 <= j < rest.len() && rest[j] is Full && (
                                #[trigger] rest[j]->Full_key)@ == a0 {
                                let j = choose|j: int|
                                    0 <= j < rest.len() && rest[j] is Full && (
                                    #[trigger] rest[j]->Full_key)@ == a0;
                                assert(pre[j] is Full && pre[j]->Full_key@ == a0);
                                assert(pre[pre.len() - 1] is Full);
                                assert(false);
                            }
                        }
                        assert(!K::excluded_abs(a0)) by {
                            assert(pre[pre.len() - 1] is Full);
                        }
                        assert(count_full(pre) == count_full(rest) + 1);
                        assert(self.len < self.cap_spec());
                        assert forall|t: int|
                            0 <= t < rest.len() && rest[t] is Full implies !K::excluded_abs(
                            (#[trigger] rest[t]->Full_key)@) by {
                            assert(pre[t] is Full && pre[t]->Full_key == rest[t]->Full_key);
                        }
                        assert(view_of(pre)[a0] == val);
                    }
                    let ghost self_view_before = self@;
                    self.raw_insert(key, val);
                    proof {
                        assert(self@ == self_view_before.insert(a0, val));
                        assert(old_view.contains_key(a0)) by {
                            assert(view_of(pre).contains_key(a0));
                        }
                        assert(old_view[a0] == val) by {
                            assert(view_of(pre)[a0] == val);
                        }
                        assert forall|a: <K as View>::V| #[trigger]
                            view_of(rest).contains_key(a) implies !self@.contains_key(a) by {
                            assert(view_of(pre).contains_key(a));
                            assert(a != a0);
                            assert(!self_view_before.contains_key(a));
                        }
                        assert forall|a: <K as View>::V| #[trigger]
                            old_view.contains_key(a) <==> (self@.contains_key(a) || view_of(
                            rest).contains_key(a)) by {
                            if old_view.contains_key(a) {
                                if self_view_before.contains_key(a) {
                                    assert(self@.contains_key(a));
                                } else {
                                    assert(view_of(pre).contains_key(a));
                                    if a == a0 {
                                        assert(self@.contains_key(a));
                                    } else {
                                        assert(view_of(rest).contains_key(a));
                                    }
                                }
                            }
                            if self@.contains_key(a) {
                                if a == a0 {
                                    assert(old_view.contains_key(a));
                                } else {
                                    assert(self_view_before.contains_key(a));
                                    assert(old_view.contains_key(a));
                                }
                            }
                            if view_of(rest).contains_key(a) {
                                assert(view_of(pre).contains_key(a));
                                assert(old_view.contains_key(a));
                            }
                        }
                        assert forall|a: <K as View>::V| #[trigger]
                            self@.contains_key(a) implies old_view[a] == self@[a] by {
                            if a == a0 {
                                assert(self@[a] == val);
                            } else {
                                assert(self_view_before.contains_key(a));
                                assert(self@[a] == self_view_before[a]);
                            }
                        }
                        assert forall|a: <K as View>::V| #[trigger]
                            view_of(rest).contains_key(a) implies old_view[a] == view_of(
                            rest)[a] by {
                            assert(a != a0);
                            assert(view_of(pre).contains_key(a));
                            assert(view_of(pre)[a] == view_of(rest)[a]);
                        }
                    }
                },
            }
        }
        proof {
            assert(old_slots@.len() == 0);
            assert(count_full(old_slots@) == 0);
            assert(view_of(old_slots@) == Map::<<K as View>::V, V>::empty());
            assert forall|a: <K as View>::V| true implies !(#[trigger] view_of(
                old_slots@,
            ).contains_key(a)) by {
            }
            assert(self@ =~= old_view);
        }
    }
}

/// Slot `t` of `s` holds exactly the pair `(k, v)`.
pub open spec fn slot_holds<K: Key, V>(s: Seq<Slot<K, V>>, t: int, k: K, v: V) -> bool {
    0 <= t < s.len() && s[t] is Full && s[t]->Full_key == k && s[t]->Full_val == v
}

impl<K: Key + Copy, V: Copy> Table0<K, V> {
    /// All entries, in slot order. Each present key appears exactly once;
    /// the order is not part of the contract and may change between calls
    /// that mutate the table.
    #[verifier::rlimit(60)]
    pub fn iter(&self) -> (r: Vec<(K, V)>)
        requires
            self.wf(),
        ensures
            r@.len() == self.len,
            forall|j: int|
                0 <= j < r@.len() ==> self@.contains_key((#[trigger] r@[j]).0@) && self@[r@[j].0@]
                    == r@[j].1,
            forall|j1: int, j2: int|
                0 <= j1 < j2 < r@.len() ==> (#[trigger] r@[j1]).0@ != (#[trigger] r@[j2]).0@,
            forall|a: <K as View>::V| #[trigger]
                self@.contains_key(a) ==> exists|j: int|
                    0 <= j < r@.len() && (#[trigger] r@[j]).0@ == a,
    {
        let ghost s = self.slots@;
        let cap = self.slots.len();
        let mut r: Vec<(K, V)> = Vec::new();
        let ghost mut srcs: Seq<int> = Seq::empty();
        let mut i: usize = 0;
        while i < cap
            invariant
                self.wf(),
                s == self.slots@,
                cap == s.len(),
                i <= cap,
                r@.len() == count_full(s.take(i as int)),
                srcs.len() == r@.len(),
                forall|j: int|
                    0 <= j < srcs.len() ==> slot_holds(s, #[trigger] srcs[j], r@[j].0, r@[j].1)
                        && srcs[j] < i,
                forall|j1: int, j2: int|
                    0 <= j1 < j2 < srcs.len() ==> #[trigger] srcs[j1] != #[trigger] srcs[j2],
                forall|t: int|
                    0 <= t < i && #[trigger] s[t] is Full ==> exists|j: int|
                        0 <= j < srcs.len() && #[trigger] srcs[j] == t,
            decreases cap - i,
        {
            proof {
                assert(s.take(i + 1).drop_last() =~= s.take(i as int));
            }
            match &self.slots[i] {
                Slot::Full { key, val } => {
                    r.push((*key, *val));
                    proof {
                        let srcs0 = srcs;
                        srcs = srcs.push(i as int);
                        assert(slot_holds(s, i as int, r@[r@.len() - 1].0, r@[r@.len() - 1].1));
                        assert forall|t: int|
                            0 <= t < i + 1 && #[trigger] s[t] is Full implies exists|j: int|
                            0 <= j < srcs.len() && #[trigger] srcs[j] == t by {
                            if t < i {
                                let j = choose|j: int| 0 <= j < srcs0.len() && #[trigger] srcs0[j] == t;
                                assert(srcs[j] == srcs0[j]);
                                assert(srcs[j] == t);
                            } else {
                                assert(srcs[srcs.len() - 1] == t);
                            }
                        }
                    }
                },
                Slot::Empty => {
                    proof {
                        assert forall|t: int|
                            0 <= t < i + 1 && #[trigger] s[t] is Full implies exists|j: int|
                            0 <= j < srcs.len() && #[trigger] srcs[j] == t by {
                            assert(t != i);
                        }
                    }
                },
            }
            i = i + 1;
        }
        proof {
            assert(s.take(cap as int) =~= s);
            assert forall|j: int| 0 <= j < r@.len() implies self@.contains_key(
                (#[trigger] r@[j]).0@) && self@[r@[j].0@] == r@[j].1 by {
                assert(slot_holds(s, srcs[j], r@[j].0, r@[j].1));
                lemma_view_at(s, srcs[j]);
            }
            assert forall|j1: int, j2: int| 0 <= j1 < j2 < r@.len() implies (#[trigger] r@[j1]).0@
                != (#[trigger] r@[j2]).0@ by {
                assert(slot_holds(s, srcs[j1], r@[j1].0, r@[j1].1));
                assert(slot_holds(s, srcs[j2], r@[j2].0, r@[j2].1));
                assert(srcs[j1] != srcs[j2]);
            }
            assert forall|a: <K as View>::V| #[trigger] self@.contains_key(a) implies exists|j: int|
                0 <= j < r@.len() && (#[trigger] r@[j]).0@ == a by {
                lemma_view_contains(s, a);
                let t = choose|t: int|
                    0 <= t < s.len() && s[t] is Full && (#[trigger] s[t]->Full_key)@ == a;
                let j = choose|j: int| 0 <= j < srcs.len() && #[trigger] srcs[j] == t;
                assert(slot_holds(s, t, r@[j].0, r@[j].1));
                assert(r@[j].0@ == a);
            }
        }
        r
    }
}


/// The merge of two maps: keys of either side, with colliding keys combined.
pub open spec fn spec_merge<A, V: crate::traits::Combine>(m1: Map<A, V>, m2: Map<A, V>) -> Map<
    A,
    V,
> {
    Map::new(
        |a: A| m1.contains_key(a) || m2.contains_key(a),
        |a: A|
            if m1.contains_key(a) && m2.contains_key(a) {
                m1[a].combine_spec(m2[a])
            } else if m2.contains_key(a) {
                m2[a]
            } else {
                m1[a]
            },
    )
}

/// Whether the bit `shift` of a key abstraction's hash is set: the criterion
/// by which `split` sends an entry to the new table.
pub open spec fn split_selects<K: Key>(a: <K as View>::V, shift: u32) -> bool {
    (K::hash_abs(a) >> (shift as u64)) & 1 != 0
}

impl<K: Key, V: Copy + crate::traits::Combine> Table0<K, V> {
    /// Drains `other` into `self`; a key present on both sides keeps
    /// `self`'s value combined with `other`'s. The caller must have grown
    /// `self` so that every entry fits.
    pub fn merge(&mut self, other: Self)
        requires
            old(self).wf(),
            other.wf(),
            old(self).len + other.len <= old(self).cap_spec(),
        ensures
            final(self).wf(),
            final(self).cap_spec() == old(self).cap_spec(),
            final(self)@ == spec_merge(old(self)@, other@),
    {
        let ghost self0 = self@;
        let ghost other_view = other@;
        let Table0 { slots: mut other_slots, len: _ } = other;
        proof {
            assert forall|t: int|
                0 <= t < other_slots@.len() && other_slots@[t] is Full implies !K::excluded_abs(
                (#[trigger] other_slots@[t]->Full_key)@) by {
                assert(slot_ok(other_slots@, t));
            }
        }
        while other_slots.len() > 0
            invariant
                self.wf(),
                self.cap_spec() == old(self).cap_spec(),
                keys_distinct(other_slots@),
                forall|t: int|
                    0 <= t < other_slots@.len() && other_slots@[t] is Full ==> !K::excluded_abs(
                        (#[trigger] other_slots@[t]->Full_key)@,
                    ),
                self.len as nat + count_full(other_slots@) <= self.cap_spec(),
                forall|a: <K as View>::V| #[trigger]
                    view_of(other_slots@).contains_key(a) ==> other_view.contains_key(a)
                        && other_view[a] == view_of(other_slots@)[a],
                spec_merge(self@, view_of(other_slots@)) == spec_merge(self0, other_view),
            decreases other_slots@.len(),
        {
            let ghost pre = other_slots@;
            let ghost rest = pre.drop_last();
            let slot = other_slots.pop().unwrap();
            proof {
                assert(keys_distinct(rest)) by {
                    assert forall|x: int, y: int|
                        0 <= x < rest.len() && 0 <= y < rest.len() && x != y && rest[x] is Full
                            && rest[y] is Full implies (#[trigger] rest[x]->Full_key)@ != (
                    #[trigger] rest[y]->Full_key)@ by {
                        assert(pre[x] is Full && pre[y] is Full);
                    }
                }
                assert forall|t: int|
                    0 <= t < rest.len() && rest[t] is Full implies !K::excluded_abs(
                    (#[trigger] rest[t]->Full_key)@) by {
                    assert(pre[t] is Full && pre[t]->Full_key == rest[t]->Full_key);
                }
                assert forall|a: <K as View>::V| #[trigger]
                    view_of(rest).contains_key(a) implies other_view.contains_key(a)
                        && other_view[a] == view_of(rest)[a] by {
                    if pre.last() is Full {
                        assert(view_of(pre) == view_of(rest).insert(
                            pre.last()->Full_key@,
                            pre.last()->Full_val,
                        ));
                        assert(!view_of(rest).contains_key(pre.last()->Full_key@)) by {
                            lemma_view_contains(rest, pre.last()->Full_key@);
                            if exists|j: int|
                                0 <= j < rest.len() && rest[j] is Full && (
                                #[trigger] rest[j]->Full_key)@ == pre.last()->Full_key@ {
                                let j = choose|j: int|
                                    0 <= j < rest.len() && rest[j] is Full && (
                                    #[trigger] rest[j]->Full_key)@ == pre.last()->Full_key@;
                                assert(pre[j] is Full && pre[pre.len() - 1] is Full);
                                assert(false);
                            }
                        }
                        assert(a != pre.last()->Full_key@);
                        assert(view_of(pre).contains_key(a) && view_of(pre)[a] == view_of(rest)[a]);
                    } else {
                        assert(view_of(pre) == view_of(rest));
                    }
                }
            }
            match slot {
                Slot::Empty => {
                    proof {
                        assert(view_of(pre) == view_of(rest));
                    }
                },
                Slot::Full { key, val } => {
                    let ghost a0 = key@;
                    let ghost sv = self@;
                    proof {
                        assert(pre.last() is Full && pre.last()->Full_key == key);
                        assert(view_of(pre) == view_of(rest).insert(a0, val));
                        assert(!view_of(rest).contains_key(a0)) by {
                            lemma_view_contains(rest, a0);
                            if exists|j: int|
                                0 <= j < rest.len() && rest[j] is Full && (
                                #[trigger] rest[j]->Full_key)@ == a0 {
                                let j = choose|j: int|
                                    0 <= j < rest.len() && rest[j] is Full && (
                                    #[trigger] rest[j]->Full_key)@ == a0;
                                assert(pre[j] is Full && pre[pre.len() - 1] is Full);
                                assert(false);
                            }
                        }
                        assert(!K::excluded_abs(a0)) by {
                            assert(pre[pre.len() - 1] is Full);
                        }
                        assert(count_full(pre) == count_full(rest) + 1);
                        assert(self.len < self.cap_spec());
                    }
                    match self.insert(key, val) {
                        Ok(_) => {
                            proof {
                                assert(self@ == sv.insert(a0, val));
                                assert(spec_merge(self@, view_of(rest)) =~= spec_merge(
                                    sv,
                                    view_of(pre),
                                ));
                            }
                        },
                        Err(vr) => {
                            let cur = *vr;
                            *vr = cur.combine(val);
                            proof {
                                assert(self@ == sv.insert(a0, cur.combine_spec(val)));
                                assert(sv.contains_key(a0) && sv[a0] == cur);
                                assert(view_of(pre).contains_key(a0) && view_of(pre)[a0] == val);
                                assert(spec_merge(self@, view_of(rest)) =~= spec_merge(
                                    sv,
                                    view_of(pre),
                                ));
                            }
                        },
                    }
                },
            }
        }
        proof {
            assert(view_of(other_slots@) == Map::<<K as View>::V, V>::empty());
            assert(self@ =~= spec_merge(self0, other_view)) by {
                assert(spec_merge(self@, view_of(other_slots@)) == spec_merge(self0, other_view));
                assert(spec_merge(self@, view_of(other_slots@)) =~= self@);
            }
        }
    }
}

impl<K: Key, V> Table0<K, V> {
    /// Moves every entry whose hash has bit `shift` set into a fresh table of
    /// the same capacity, keeping the rest and re-compacting both probe
    /// structures.
    pub fn split(&mut self, shift: u32) -> (other: Self)
        requires
            old(self).wf(),
            shift < 64,
            old(self).cap_spec() <= usize::MAX / 2,
        ensures
            final(self).wf(),
            other.wf(),
            final(self).cap_spec() == old(self).cap_spec(),
            other.cap_spec() == old(self).cap_spec(),
            final(self)@ == Map::new(
                |a: <K as View>::V| old(self)@.contains_key(a) && !split_selects::<K>(a, shift),
                |a: <K as View>::V| old(self)@[a],
            ),
            other@ == Map::new(
                |a: <K as View>::V| old(self)@.contains_key(a) && split_selects::<K>(a, shift),
                |a: <K as View>::V| old(self)@[a],
            ),
    {
        let cap = self.slots.len();
        let ghost old_view = self@;
        let ghost old_len = self.len as nat;
        let mut other: Table0<K, V> = Table0::with_capacity(cap);
        proof {
            let m = choose|m: nat| 3 <= m <= 63 && self.slots@.len() == pow2(m);
            let j = choose|j: nat| 3 <= j <= 63 && other.slots@.len() == pow2(j);
            lemma2_to64();
            lemma_pow2_adds(m, 1);
            if j < m {
                vstd::arithmetic::power2::lemma_pow2_strictly_increases(j, m);
                assert(false);
            } else if j > m {
                if other.cap_spec() == 8 {
                    vstd::arithmetic::power2::lemma_pow2_strictly_increases(3, j);
                    assert(false);
                } else {
                    if j > m + 1 {
                        vstd::arithmetic::power2::lemma_pow2_strictly_increases(m + 1, j);
                    }
                    assert(false);
                }
            }
            assert(other.cap_spec() == cap);
        }
        let mut old_slots: Vec<Slot<K, V>> = Vec::new();
        core::mem::swap(&mut old_slots, &mut self.slots);
        let mut i: usize = 0;
        while i < cap
            invariant
                self.slots@.len() == i,
                i <= cap,
                forall|j: int| 0 <= j < i ==> !((#[trigger] self.slots@[j]) is Full),
            decreases cap - i,
        {
            self.slots.push(Slot::Empty);
            i = i + 1;
        }
        self.len = 0;
        proof {
            let m = choose|m: nat| 3 <= m <= 63 && old_slots@.len() == pow2(m);
            assert(self.slots@.len() == pow2(m));
            lemma_count_full_empty(self.slots@);
            lemma_view_all_empty(self.slots@);
            lemma_count_full_bound(old_slots@);
            assert(self.wf());
            assert forall|t: int|
                0 <= t < old_slots@.len() && old_slots@[t] is Full implies !K::excluded_abs(
                (#[trigger] old_slots@[t]->Full_key)@) by {
                assert(slot_ok(old_slots@, t));
            }
        }
        while old_slots.len() > 0
            invariant
                shift < 64,
                self.wf(),
                other.wf(),
                self.cap_spec() == cap,
                other.cap_spec() == cap,
                keys_distinct(old_slots@),
                forall|t: int|
                    0 <= t < old_slots@.len() && old_slots@[t] is Full ==> !K::excluded_abs(
                        (#[trigger] old_slots@[t]->Full_key)@,
                    ),
                self.len as nat + other.len as nat + count_full(old_slots@) == old_len,
                old_len <= cap,
                forall|a: <K as View>::V| #[trigger]
                    self@.contains_key(a) ==> old_view.contains_key(a) && !split_selects::<K>(
                        a,
                        shift,
                    ) && self@[a] == old_view[a],
                forall|a: <K as View>::V| #[trigger]
                    other@.contains_key(a) ==> old_view.contains_key(a) && split_selects::<K>(
                        a,
                        shift,
                    ) && other@[a] == old_view[a],
                forall|a: <K as View>::V| #[trigger]
                    old_view.contains_key(a) ==> (self@.contains_key(a) || other@.contains_key(a)
                        || view_of(old_slots@).contains_key(a)),
                forall|a: <K as View>::V| #[trigger]
                    view_of(old_slots@).contains_key(a) ==> old_view.contains_key(a) && old_view[a]
                        == view_of(old_slots@)[a] && !self@.contains_key(a)
                        && !other@.contains_key(a),
            decreases old_slots@.len(),
        {
            let ghost pre = old_slots@;
            let ghost rest = pre.drop_last();
            let slot = old_slots.pop().unwrap();
            proof {
                assert(keys_distinct(rest)) by {
                    assert forall|x: int, y: int|
                        0 <= x < rest.len() && 0 <= y < rest.len() && x != y && rest[x] is Full
                            && rest[y] is Full implies (#[trigger] rest[x]->Full_key)@ != (
                    #[trigger] rest[y]->Full_key)@ by {
                        assert(pre[x] is Full && pre[y] is Full);
                    }
                }
                assert forall|t: int|
                    0 <= t < rest.len() && rest[t] is Full implies !K::excluded_abs(
                    (#[trigger] rest[t]->Full_key)@) by {
                    assert(pre[t] is Full && pre[t]->Full_key == rest[t]->Full_key);
                }
            }
            match slot {
                Slot::Empty => {
                    proof {
                        assert(view_of(pre) == view_of(rest));
                    }
                },
                Slot::Full { key, val } => {
                    let ghost a0 = key@;
                    proof {
                        assert(pre.last() is Full && pre.last()->Full_key == key);
                        assert(view_of(pre) == view_of(rest).insert(a0, val));
                        assert(!view_of(rest).contains_key(a0)) by {
                            lemma_view_contains(rest, a0);
                            if exists|j: int|
                                0 <= j < rest.len() && rest[j] is Full && (
                                #[trigger] rest[j]->Full_key)@ == a0 {
                                let j = choose|j: int|
                                    0 <= j < rest.len() && rest[j] is Full && (
                                    #[trigger] rest[j]->Full_key)@ == a0;
                                assert(pre[j] is Full && pre[pre.len() - 1] is Full);
                                assert(false);
                            }
                        }
                        assert(!K::excluded_abs(a0)) by {
                            assert(pre[pre.len() - 1] is Full);
                        }
                        assert(count_full(pre) == count_full(rest) + 1);
                        assert(view_of(pre).contains_key(a0) && view_of(pre)[a0] == val);
                        assert(!self@.contains_key(a0) && !other@.contains_key(a0));
                    }
                    let h = key.hash();
                    proof {
                        assert((shift as u64) < 64);
                    }
                    let sel = ((h >> (shift as u64)) & 1) != 0;
                    let ghost sv = self@;
                    let ghost ov = other@;
                    if sel {
                        other.raw_insert(key, val);
                    } else {
                        self.raw_insert(key, val);
                    }
                    proof {
                        assert forall|a: <K as View>::V| #[trigger]
                            view_of(rest).contains_key(a) implies old_view.contains_key(a)
                                && old_view[a] == view_of(rest)[a] && !self@.contains_key(a)
                                && !other@.contains_key(a) by {
                            assert(a != a0);
                            assert(view_of(pre).contains_key(a) && view_of(pre)[a] == view_of(
                                rest,
                            )[a]);
                        }
                        assert(old_view.contains_key(a0) && old_view[a0] == val);
                    }
                },
            }
        }
        proof {
            assert(view_of(old_slots@) == Map::<<K as View>::V, V>::empty());
            assert(self@ =~= Map::new(
                |a: <K as View>::V| old_view.contains_key(a) && !split_selects::<K>(a, shift),
                |a: <K as View>::V| old_view[a],
            ));
            assert(other@ =~= Map::new(
                |a: <K as View>::V| old_view.contains_key(a) && split_selects::<K>(a, shift),
                |a: <K as View>::V| old_view[a],
            ));
        }
        other
    }
}

/// Filling the first free slot on a key's probe path preserves the probing
/// invariant and inserts the key into the view.
proof fn lemma_insert_at_free<K: Key, V>(s: Seq<Slot<K, V>>, len: nat, i: int, k: K, v: V)
    requires
        slots_wf(s, len),
        0 <= i < s.len(),
        s[i] is Empty,
        !K::excluded_abs(k@),
        !view_of(s).contains_key(k@),
        forall|d: int|
            0 <= d < dist(spec_home::<K>(k@, s.len() as int), i, s.len() as int)
                ==> #[trigger] s[wrap(spec_home::<K>(k@, s.len() as int), d, s.len() as int)] is Full,
    ensures
        slots_wf(s.update(i, Slot::Full { key: k, val: v }), len + 1),
        view_of(s.update(i, Slot::Full { key: k, val: v })) == view_of(s).insert(k@, v),
{
    let s2 = s.update(i, Slot::Full { key: k, val: v });
    let cap = s.len() as int;
    lemma_count_full_update(s, i, Slot::Full { key: k, val: v });
    lemma_view_fill_empty(s, i, k, v);
    lemma_view_contains(s, k@);
    assert(keys_distinct(s2)) by {
        assert forall|x: int, y: int|
            0 <= x < s2.len() && 0 <= y < s2.len() && x != y && s2[x] is Full
                && s2[y] is Full implies (#[trigger] s2[x]->Full_key)@ != (
        #[trigger] s2[y]->Full_key)@ by {
            if x == i {
                assert(s[y] is Full && s[y]->Full_key@ == s2[y]->Full_key@);
            } else if y == i {
                assert(s[x] is Full && s[x]->Full_key@ == s2[x]->Full_key@);
            } else {
                assert(s[x] is Full && s[y] is Full);
            }
        }
    }
    assert forall|j: int| 0 <= j < s2.len() implies slot_ok(s2, j) by {
        if s2[j] is Full {
            let a = s2[j]->Full_key@;
            if j == i {
                assert forall|d: int| 0 <= d < dist(spec_home::<K>(a, cap), j, cap) implies #[trigger] s2[wrap(
                    spec_home::<K>(a, cap),
                    d,
                    cap,
                )] is Full by {
                    assert(s[wrap(spec_home::<K>(a, cap), d, cap)] is Full);
                }
            } else {
                assert(slot_ok(s, j));
                assert(s[j] is Full && s[j]->Full_key@ == a);
                assert forall|d: int| 0 <= d < dist(spec_home::<K>(a, cap), j, cap) implies #[trigger] s2[wrap(
                    spec_home::<K>(a, cap),
                    d,
                    cap,
                )] is Full by {
                    assert(s[wrap(spec_home::<K>(a, cap), d, cap)] is Full);
                }
            }
        }
    }
}

/// A well-formed capacity is even, so it is strictly below `usize::MAX`.
pub proof fn lemma_cap_lt_max(cap: nat)
    requires
        exists|m: nat| 3 <= m <= 63 && cap == pow2(m),
        cap <= usize::MAX,
    ensures
        cap < usize::MAX,
{
    let m = choose|m: nat| 3 <= m <= 63 && cap == pow2(m);
    lemma_pow2_adds(1, (m - 1) as nat);
    lemma2_to64();
    assert(cap == 2 * pow2((m - 1) as nat));
    vstd::arithmetic::div_mod::lemma_mod_multiples_basic(pow2((m - 1) as nat) as int, 2);
    assert(cap % 2 == 0);
    assert(usize::MAX % 2 == 1);
}

/// A power of two that fits in `usize` has exponent at most 63.
proof fn lemma_pow2_le63(m: nat)
    requires
        pow2(m) <= usize::MAX,
    ensures
        m <= 63,
{
    if m > 63 {
        lemma2_to64_rest();
        if m > 64 {
            vstd::arithmetic::power2::lemma_pow2_strictly_increases(64, m);
        }
        assert(pow2(64) == 0x10000000000000000);
    }
}

proof fn lemma_count_full_skeleton<K, V>(s1: Seq<Slot<K, V>>, s2: Seq<Slot<K, V>>)
    requires
        s1.len() == s2.len(),
        forall|i: int| 0 <= i < s1.len() ==> ((s1[i] is Full) <==> (#[trigger] s2[i]) is Full),
    ensures
        count_full(s1) == count_full(s2),
    decreases s1.len(),
{
    if s1.len() > 0 {
        assert(s1[s1.len() - 1] is Full <==> s2[s2.len() - 1] is Full);
        lemma_count_full_skeleton(s1.drop_last(), s2.drop_last());
    }
}

} // verus!
