//! The adaptive dispatcher's key encodings: short byte strings packed into
//! 64-bit lanes whose final lane is nonzero (`InlineKey`), and long or
//! zero-tailed byte strings kept as owned copies with a precomputed hash
//! (`FallbackKey`). Both abstract to the byte string they encode.

use vstd::prelude::*;
use crate::hash::{
    mix_into, fast_hash_bytes, spec_mix_into, spec_fast_hash_lanes, spec_hash_lanes_fold,
    spec_fast_hash_bytes,
};
use crate::traits::Key;
use crate::utils::{
    byte_at, le_val, lane_bytes, trim_len, read_le, extract_byte, lemma_le_val_of_lane_bytes,
    lemma_trim_le_val, lemma_trim_zero, lemma_trim_len_exact, lemma_le_val_byte_at,
    lemma_le_val_bound, lemma_pow256_values, lemma_pow256_increases,
};

verus! {

/// The byte string encoded by `n` full lanes and a trimmed final lane.
pub open spec fn spec_decode_lanes(lanes: Seq<u64>, last: u64) -> Seq<u8> {
    Seq::new(
        8 * lanes.len() + trim_len(last, 8),
        |i: int|
            if i < 8 * lanes.len() {
                byte_at(lanes[i / 8] as nat, (i % 8) as nat)
            } else {
                byte_at(last as nat, (i - 8 * lanes.len()) as nat)
            },
    )
}

/// The lanes that encode a byte string: eight-byte little-endian words,
/// the final one covering the tail.
pub open spec fn spec_encode_lanes(a: Seq<u8>, n: nat) -> Seq<u64> {
    Seq::new(
        n + 1,
        |j: int|
            le_val(
                a.subrange(
                    8 * j,
                    if 8 * j + 8 <= a.len() {
                        8 * j + 8
                    } else {
                        a.len() as int
                    },
                ),
            ) as u64,
    )
}

/// Decoded lanes encode back to themselves.
pub proof fn lemma_inline_roundtrip(lanes: Seq<u64>, last: u64)
    requires
        last != 0,
    ensures
        ({
            let a = spec_decode_lanes(lanes, last);
            &&& a.len() == 8 * lanes.len() + trim_len(last, 8)
            &&& 8 * lanes.len() + 1 <= a.len() <= 8 * lanes.len() + 8
            &&& a[a.len() - 1] != 0
            &&& spec_encode_lanes(a, lanes.len()) == lanes.push(last)
        }),
{
    let a = spec_decode_lanes(lanes, last);
    let n = lanes.len();
    let t = trim_len(last, 8);
    lemma_trim_le_val(last, 8);
    lemma_trim_zero(last);
    assert(1 <= t <= 8);
    assert(a[a.len() - 1] == byte_at(last as nat, (t - 1) as nat));
    let enc = spec_encode_lanes(a, n);
    assert forall|j: int| 0 <= j < n implies enc[j] == lanes.push(last)[j] by {
        assert(8 * j + 8 <= a.len());
        let sub = a.subrange(8 * j, 8 * j + 8);
        assert(sub =~= lane_bytes(lanes[j])) by {
            assert forall|k: int| 0 <= k < 8 implies sub[k] == lane_bytes(lanes[j])[k] by {
                let i = 8 * j + k;
                vstd::arithmetic::div_mod::lemma_fundamental_div_mod_converse(i, 8, j, k);
                assert(a[i] == byte_at(lanes[i / 8] as nat, (i % 8) as nat));
            }
        }
        lemma_le_val_of_lane_bytes(lanes[j]);
    }
    assert(enc[n as int] == lanes.push(last)[n as int]) by {
        let sub = a.subrange(8 * n as int, a.len() as int);
        assert(sub =~= lane_bytes(last).take(t as int)) by {
            assert forall|k: int| 0 <= k < t implies sub[k] == lane_bytes(last).take(t as int)[k] by {
                assert(a[8 * n + k] == byte_at(last as nat, k as nat));
            }
        }
        assert(lane_bytes(last).take(8) =~= lane_bytes(last));
        lemma_le_val_of_lane_bytes(last);
        assert(le_val(sub) == last);
    }
    assert(enc =~= lanes.push(last));
}

/// The lane hash of a decoded key, unrolled over its at most three lanes.
pub proof fn lemma_inline_hash(lanes: Seq<u64>, last: u64)
    requires
        last != 0,
        lanes.len() <= 2,
    ensures
        spec_fast_hash_lanes(spec_encode_lanes(spec_decode_lanes(lanes, last), lanes.len()))
            == if lanes.len() == 0 {
            spec_mix_into(0u64, last)
        } else if lanes.len() == 1 {
            spec_mix_into(spec_mix_into(0u64, lanes[0]), last)
        } else {
            spec_mix_into(spec_mix_into(spec_mix_into(0u64, lanes[0]), lanes[1]), last)
        },
{
    lemma_inline_roundtrip(lanes, last);
    let ls = lanes.push(last);
    assert(spec_encode_lanes(spec_decode_lanes(lanes, last), lanes.len()) == ls);
    if lanes.len() == 0 {
        let s1 = spec_mix_into(0u64, ls[0]);
        assert(spec_hash_lanes_fold(0u64, ls) == spec_hash_lanes_fold(s1, ls.skip(1)));
        assert(ls.skip(1).len() == 0);
        assert(spec_hash_lanes_fold(s1, ls.skip(1)) == s1);
        assert(ls[0] == last);
    } else if lanes.len() == 1 {
        let s1 = spec_mix_into(0u64, ls[0]);
        let r1 = ls.skip(1);
        assert(spec_hash_lanes_fold(0u64, ls) == spec_hash_lanes_fold(s1, r1));
        let s2 = spec_mix_into(s1, r1[0]);
        let r2 = r1.skip(1);
        assert(spec_hash_lanes_fold(s1, r1) == spec_hash_lanes_fold(s2, r2));
        assert(r2.len() == 0);
        assert(spec_hash_lanes_fold(s2, r2) == s2);
        assert(ls[0] == lanes[0] && r1[0] == last);
    } else {
        let s1 = spec_mix_into(0u64, ls[0]);
        let r1 = ls.skip(1);
        assert(spec_hash_lanes_fold(0u64, ls) == spec_hash_lanes_fold(s1, r1));
        let s2 = spec_mix_into(s1, r1[0]);
        let r2 = r1.skip(1);
        assert(spec_hash_lanes_fold(s1, r1) == spec_hash_lanes_fold(s2, r2));
        let s3 = spec_mix_into(s2, r2[0]);
        let r3 = r2.skip(1);
        assert(spec_hash_lanes_fold(s2, r2) == spec_hash_lanes_fold(s3, r3));
        assert(r3.len() == 0);
        assert(spec_hash_lanes_fold(s3, r3) == s3);
        assert(ls[0] == lanes[0] && r1[0] == lanes[1] && r2[0] == last);
    }
}

/// A short byte-string key of `8N + 1` to `8N + 8` bytes, packed into `N`
/// full 64-bit lanes and a nonzero final lane. The zero-ness of the final
/// lane is the empty-slot sentinel, so a real key's final lane is never zero.
#[derive(Clone, Copy)]
pub struct InlineKey<const N: usize> {
    lanes: [u64; 2],
    last: u64,
}

#[verifier::type_invariant]
spec fn inline_key_inv<const N: usize>(k: InlineKey<N>) -> bool {
    &&& k.last != 0
    &&& N <= 2
    &&& forall|j: int| N <= j < 2 ==> k.lanes@[j] == 0
}

impl<const N: usize> View for InlineKey<N> {
    type V = Seq<u8>;

    closed spec fn view(&self) -> Seq<u8> {
        spec_decode_lanes(self.lanes@.take(N as int), self.last)
    }
}

impl<const N: usize> Key for InlineKey<N> {
    open spec fn excluded_abs(a: Seq<u8>) -> bool {
        false
    }

    open spec fn hash_abs(a: Seq<u8>) -> u64 {
        spec_fast_hash_lanes(spec_encode_lanes(a, N as nat))
    }

    fn equals_zero(this: &Self) -> bool {
        false
    }

    fn hash(&self) -> u64 {
        proof {
            use_type_invariant(self);
            lemma_inline_hash(self.lanes@.take(N as int), self.last);
            assert(self.lanes@.take(N as int).len() == N as int);
            if N >= 1 {
                assert(self.lanes@.take(N as int)[0] == self.lanes@[0]);
            }
            if N >= 2 {
                assert(self.lanes@.take(N as int)[1] == self.lanes@[1]);
            }
        }
        let mut h: u64 = 0;
        if N >= 1 {
            h = mix_into(h, self.lanes[0]);
            if N >= 2 {
                h = mix_into(h, self.lanes[1]);
            }
        }
        mix_into(h, self.last)
    }

    fn key_eq(&self, other: &Self) -> bool {
        let eq = self.lanes[0] == other.lanes[0] && self.lanes[1] == other.lanes[1] && self.last
            == other.last;
        proof {
            use_type_invariant(self);
            use_type_invariant(other);
            lemma_inline_roundtrip(self.lanes@.take(N as int), self.last);
            lemma_inline_roundtrip(other.lanes@.take(N as int), other.last);
            if eq {
                assert(self.lanes@ =~= other.lanes@);
                assert(self@ == other@);
            }
            if self@ == other@ {
                let e1 = self.lanes@.take(N as int).push(self.last);
                let e2 = other.lanes@.take(N as int).push(other.last);
                assert(e1 == e2);
                assert(e1[N as int] == self.last && e2[N as int] == other.last);
                assert(self.lanes@ =~= other.lanes@) by {
                    assert forall|j: int| 0 <= j < 2 implies self.lanes@[j] == other.lanes@[j] by {
                        if j < N {
                            assert(e1[j] == self.lanes@.take(N as int)[j]);
                            assert(e2[j] == other.lanes@.take(N as int)[j]);
                            assert(e1[j] == e2[j]);
                        }
                    }
                }
                assert(eq);
            }
        }
        eq
    }

    proof fn lemma_excluded_unique(a: Seq<u8>, b: Seq<u8>) {
    }

    fn zero_key() -> Self {
        vstd::pervasive::unreached()
    }
}

/// Packs a routed byte string into an inline key. Relied on by the adaptive
/// table: the key abstracts to exactly the packed bytes.
pub fn encode_inline<const N: usize>(key: &[u8]) -> (r: InlineKey<N>)
    requires
        N <= 2,
        8 * N + 1 <= key@.len() <= 8 * N + 8,
        key@[key@.len() - 1] != 0,
    ensures
        r@ == key@,
{
    let len = key.len();
    let l0: u64 = if N >= 1 {
        read_le(key, 0, 8)
    } else {
        0
    };
    let l1: u64 = if N >= 2 {
        read_le(key, 8, 8)
    } else {
        0
    };
    let last: u64 = read_le(key, 8 * N, len - 8 * N);
    proof {
        // the final lane is nonzero: its top byte is the key's nonzero last byte
        let tail = key@.subrange(8 * N as int, len as int);
        let tl = (len - 8 * N) as nat;
        lemma_le_val_byte_at(tail, (tl - 1) as nat);
        assert(tail[tl - 1] == key@[key@.len() - 1]);
        if last == 0 {
            assert(byte_at(0nat, (tl - 1) as nat) == 0) by {
                crate::utils::lemma_pow256_pos((tl - 1) as nat);
                vstd::arithmetic::div_mod::lemma_basic_div(
                    0,
                    crate::utils::pow256((tl - 1) as nat) as int,
                );
                vstd::arithmetic::div_mod::lemma_small_mod(0, 256);
            }
            assert(false);
        }
    }
    let r = InlineKey::<N> { lanes: [l0, l1], last };
    proof {
        let lanes_sig = r.lanes@.take(N as int);
        let a = spec_decode_lanes(lanes_sig, last);
        lemma_inline_roundtrip(lanes_sig, last);
        // the decoded bytes match the input, index by index
        let tail = key@.subrange(8 * N as int, len as int);
        let tl = (len - 8 * N) as nat;
        lemma_le_val_bound(tail);
        assert(trim_len(last, 8) == tl) by {
            assert forall|i: nat| tl <= i < 8 implies byte_at(last as nat, i) == 0 by {
                lemma_le_val_byte_at(tail, i);
            }
            lemma_le_val_byte_at(tail, (tl - 1) as nat);
            lemma_trim_len_exact(last, tl, 8);
        }
        assert(a.len() == key@.len());
        assert forall|i: int| 0 <= i < a.len() implies a[i] == key@[i] by {
            if i < 8 * N {
                let j = i / 8;
                let k = i % 8;
                let sub = key@.subrange(8 * j, 8 * j + 8);
                assert(le_val(sub) == lanes_sig[j]);
                lemma_le_val_byte_at(sub, k as nat);
                assert(sub[k] == key@[i]) by {
                    vstd::arithmetic::div_mod::lemma_fundamental_div_mod(i, 8);
                }
            } else {
                lemma_le_val_byte_at(tail, (i - 8 * N) as nat);
            }
        }
        assert(a =~= key@);
    }
    r
}

/// Bytewise equality of two byte strings.
pub fn bytes_eq(a: &[u8], b: &[u8]) -> (r: bool)
    ensures
        r == (a@ == b@),
{
    if a.len() != b.len() {
        proof {
            assert(a@.len() != b@.len());
        }
        return false;
    }
    let n = a.len();
    let mut i: usize = 0;
    while i < n
        invariant
            n == a@.len(),
            n == b@.len(),
            i <= n,
            forall|j: int| 0 <= j < i ==> a@[j] == b@[j],
        decreases n - i,
    {
        if a[i] != b[i] {
            return false;
        }
        i = i + 1;
    }
    proof {
        assert(a@ =~= b@);
    }
    true
}

/// An owned copy of a byte slice.
pub fn copy_bytes(src: &[u8]) -> (r: Vec<u8>)
    ensures
        r@ == src@,
{
    let n = src.len();
    let mut r: Vec<u8> = Vec::new();
    let mut i: usize = 0;
    while i < n
        invariant
            n == src@.len(),
            i <= n,
            r@ == src@.take(i as int),
        decreases n - i,
    {
        r.push(src[i]);
        proof {
            assert(src@.take(i + 1) =~= src@.take(i as int).push(src@[i as int]));
        }
        i = i + 1;
    }
    proof {
        assert(src@.take(n as int) =~= src@);
    }
    r
}

/// A key for byte strings that the inline encodings cannot carry: an owned
/// copy of the bytes together with their precomputed hash. The absent-copy
/// state is the empty-slot sentinel, so a real key is never "zero".
pub struct FallbackKey {
    bytes: Vec<u8>,
    hash: u64,
}

#[verifier::type_invariant]
spec fn fallback_key_inv(k: FallbackKey) -> bool {
    k.hash == spec_fast_hash_bytes(k.bytes@)
}

impl View for FallbackKey {
    type V = Seq<u8>;

    closed spec fn view(&self) -> Seq<u8> {
        self.bytes@
    }
}

impl FallbackKey {
    /// Copies the bytes and caches their hash.
    pub fn new(key: &[u8]) -> (r: Self)
        ensures
            r@ == key@,
    {
        let bytes = copy_bytes(key);
        let hash = fast_hash_bytes(key);
        FallbackKey { bytes, hash }
    }

    /// A borrowed view of the copied bytes, which the cached hash matches.
    pub fn as_bytes(&self) -> (r: &Vec<u8>)
        ensures
            r@ == self@,
    {
        &self.bytes
    }

    /// The cached hash is the hash of the paired bytes.
    pub fn hash_value(&self) -> (r: u64)
        ensures
            r == spec_fast_hash_bytes(self@),
    {
        proof {
            use_type_invariant(self);
        }
        self.hash
    }
}

impl Key for FallbackKey {
    open spec fn excluded_abs(a: Seq<u8>) -> bool {
        false
    }

    open spec fn hash_abs(a: Seq<u8>) -> u64 {
        spec_fast_hash_bytes(a)
    }

    fn equals_zero(this: &Self) -> bool {
        false
    }

    #[verifier::rlimit(100)]
    #[verifier::spinoff_prover]
    fn hash(&self) -> u64 {
        proof {
            use_type_invariant(self);
        }
        self.hash
    }

    fn key_eq(&self, other: &Self) -> bool {
        proof {
            use_type_invariant(self);
            use_type_invariant(other);
        }
        if self.hash != other.hash {
            proof {
                assert(self@ != other@);
            }
            false
        } else {
            bytes_eq(self.bytes.as_slice(), other.bytes.as_slice())
        }
    }

    proof fn lemma_excluded_unique(a: Seq<u8>, b: Seq<u8>) {
    }

    fn zero_key() -> Self {
        vstd::pervasive::unreached()
    }
}


// ---------------------------------------------------------------------------
// routing
// ---------------------------------------------------------------------------

/// Byte strings with a trailing zero byte, of any length, and byte strings
/// longer than 24 bytes go to the fallback backend: the inline encodings use
/// the final lane's nonzero-ness as their presence sentinel, so a key whose
/// tail pads to all-zero must be kept elsewhere.
pub open spec fn routes_to_fallback(b: Seq<u8>) -> bool {
    (b.len() > 0 && b[b.len() - 1] == 0) || b.len() >= 25
}

/// Byte strings of up to two bytes (with a nonzero tail) are direct-addressed.
pub open spec fn routes_to_encoding(b: Seq<u8>) -> bool {
    !routes_to_fallback(b) && b.len() <= 2
}

/// Byte strings of `8n + 1` to `8n + 8` bytes (at least 3, nonzero tail) are
/// packed into `n + 1` lanes.
pub open spec fn routes_to_inline(b: Seq<u8>, n: nat) -> bool {
    &&& !routes_to_fallback(b)
    &&& 3 <= b.len()
    &&& 8 * n + 1 <= b.len() <= 8 * n + 8
}

/// A short key padded to the two-byte cell it occupies.
pub open spec fn pad2(b: Seq<u8>) -> (u8, u8) {
    (
        if b.len() >= 1 {
            b[0]
        } else {
            0
        },
        if b.len() >= 2 {
            b[1]
        } else {
            0
        },
    )
}

/// The key a two-byte cell stands for: its bytes with trailing zeros removed.
pub open spec fn strip2(p: (u8, u8)) -> Seq<u8> {
    if p.1 != 0 {
        seq![p.0, p.1]
    } else if p.0 != 0 {
        seq![p.0]
    } else {
        Seq::empty()
    }
}

/// Padding and stripping are inverse on keys routed to the encoding table.
pub proof fn lemma_pad_strip(b: Seq<u8>)
    requires
        routes_to_encoding(b),
    ensures
        strip2(pad2(b)) == b,
{
    if b.len() == 0 {
        assert(strip2(pad2(b)) =~= b);
    } else if b.len() == 1 {
        assert(b[0] != 0);
        assert(strip2(pad2(b)) =~= b);
    } else {
        assert(b[1] != 0);
        assert(strip2(pad2(b)) =~= b);
    }
}

/// Every two-byte cell stands for a key routed back to it.
pub proof fn lemma_strip_pad(p: (u8, u8))
    ensures
        routes_to_encoding(strip2(p)),
        pad2(strip2(p)) == p,
{
}

/// The composite map of the five backends: each byte string is looked up in
/// the backend its length and tail route it to.
pub open spec fn spec_view<V>(
    enc: Map<(u8, u8), V>,
    i0: Map<Seq<u8>, V>,
    i1: Map<Seq<u8>, V>,
    i2: Map<Seq<u8>, V>,
    fb: Map<Seq<u8>, V>,
) -> Map<Seq<u8>, V> {
    Map::new(
        |b: Seq<u8>|
            if routes_to_fallback(b) {
                fb.contains_key(b)
            } else if b.len() <= 2 {
                enc.contains_key(pad2(b))
            } else if b.len() <= 8 {
                i0.contains_key(b)
            } else if b.len() <= 16 {
                i1.contains_key(b)
            } else if b.len() <= 24 {
                i2.contains_key(b)
            } else {
                false
            },
        |b: Seq<u8>|
            if routes_to_fallback(b) {
                fb[b]
            } else if b.len() <= 2 {
                enc[pad2(b)]
            } else if b.len() <= 8 {
                i0[b]
            } else if b.len() <= 16 {
                i1[b]
            } else {
                i2[b]
            },
    )
}

/// Inserting into the fallback backend inserts into the composite map.
pub proof fn lemma_view_insert_fallback<V>(
    enc: Map<(u8, u8), V>,
    i0: Map<Seq<u8>, V>,
    i1: Map<Seq<u8>, V>,
    i2: Map<Seq<u8>, V>,
    fb: Map<Seq<u8>, V>,
    b: Seq<u8>,
    v: V,
)
    requires
        routes_to_fallback(b),
    ensures
        spec_view(enc, i0, i1, i2, fb.insert(b, v)) == spec_view(enc, i0, i1, i2, fb).insert(b, v),
{
    assert(spec_view(enc, i0, i1, i2, fb.insert(b, v)) =~= spec_view(enc, i0, i1, i2, fb).insert(
        b,
        v,
    ));
}

/// Inserting into an inline backend inserts into the composite map.
pub proof fn lemma_view_insert_inline<V>(
    enc: Map<(u8, u8), V>,
    i0: Map<Seq<u8>, V>,
    i1: Map<Seq<u8>, V>,
    i2: Map<Seq<u8>, V>,
    fb: Map<Seq<u8>, V>,
    n: nat,
    b: Seq<u8>,
    v: V,
)
    requires
        routes_to_inline(b, n),
        n <= 2,
    ensures
        n == 0 ==> spec_view(enc, i0.insert(b, v), i1, i2, fb) == spec_view(
            enc,
            i0,
            i1,
            i2,
            fb,
        ).insert(b, v),
        n == 1 ==> spec_view(enc, i0, i1.insert(b, v), i2, fb) == spec_view(
            enc,
            i0,
            i1,
            i2,
            fb,
        ).insert(b, v),
        n == 2 ==> spec_view(enc, i0, i1, i2.insert(b, v), fb) == spec_view(
            enc,
            i0,
            i1,
            i2,
            fb,
        ).insert(b, v),
{
    if n == 0 {
        assert(spec_view(enc, i0.insert(b, v), i1, i2, fb) =~= spec_view(
            enc,
            i0,
            i1,
            i2,
            fb,
        ).insert(b, v));
    } else if n == 1 {
        assert(spec_view(enc, i0, i1.insert(b, v), i2, fb) =~= spec_view(
            enc,
            i0,
            i1,
            i2,
            fb,
        ).insert(b, v));
    } else {
        assert(spec_view(enc, i0, i1, i2.insert(b, v), fb) =~= spec_view(
            enc,
            i0,
            i1,
            i2,
            fb,
        ).insert(b, v));
    }
}

/// Inserting into the encoding backend inserts the stripped key into the
/// composite map.
pub proof fn lemma_view_insert_encoding<V>(
    enc: Map<(u8, u8), V>,
    i0: Map<Seq<u8>, V>,
    i1: Map<Seq<u8>, V>,
    i2: Map<Seq<u8>, V>,
    fb: Map<Seq<u8>, V>,
    b: Seq<u8>,
    v: V,
)
    requires
        routes_to_encoding(b),
    ensures
        spec_view(enc.insert(pad2(b), v), i0, i1, i2, fb) == spec_view(
            enc,
            i0,
            i1,
            i2,
            fb,
        ).insert(b, v),
{
    lemma_pad_strip(b);
    let lhs = spec_view(enc.insert(pad2(b), v), i0, i1, i2, fb);
    let rhs = spec_view(enc, i0, i1, i2, fb).insert(b, v);
    assert forall|b2: Seq<u8>|
        #![trigger lhs.contains_key(b2)]
        #![trigger rhs.contains_key(b2)]
        true implies lhs.contains_key(b2) == rhs.contains_key(b2) && (lhs.contains_key(b2)
        ==> lhs[b2] == rhs[b2]) by {
        if b2 != b && routes_to_encoding(b2) {
            lemma_pad_strip(b2);
            if pad2(b2) == pad2(b) {
                assert(strip2(pad2(b2)) == strip2(pad2(b)));
                assert(b2 == b);
            }
            assert(pad2(b2) != pad2(b));
        }
    }
    assert(lhs =~= rhs);
}


// ---------------------------------------------------------------------------
// the dispatcher
// ---------------------------------------------------------------------------

/// The adaptive table: variable-length byte-string keys routed by length and
/// tail byte to one of five fixed-shape backends, presented as one map from
/// byte strings to values.
pub struct AdaptiveHashtable<V> {
    pub encoding: crate::table1::Table1<V>,
    pub inline0: crate::table0::Table0<InlineKey<0>, V>,
    pub inline1: crate::table0::Table0<InlineKey<1>, V>,
    pub inline2: crate::table0::Table0<InlineKey<2>, V>,
    pub fallback: crate::table0::Table0<FallbackKey, V>,
}

impl<V> View for AdaptiveHashtable<V> {
    type V = Map<Seq<u8>, V>;

    open spec fn view(&self) -> Self::V {
        spec_view(self.encoding@, self.inline0@, self.inline1@, self.inline2@, self.fallback@)
    }
}

impl<V> AdaptiveHashtable<V> {
    /// Each backend holds only keys routed to it.
    pub open spec fn wf(self) -> bool {
        &&& self.encoding.wf()
        &&& self.inline0.wf()
        &&& self.inline1.wf()
        &&& self.inline2.wf()
        &&& self.fallback.wf()
        &&& forall|a: Seq<u8>| #[trigger] self.inline0@.contains_key(a) ==> routes_to_inline(a, 0)
        &&& forall|a: Seq<u8>| #[trigger] self.inline1@.contains_key(a) ==> routes_to_inline(a, 1)
        &&& forall|a: Seq<u8>| #[trigger] self.inline2@.contains_key(a) ==> routes_to_inline(a, 2)
        &&& forall|a: Seq<u8>| #[trigger] self.fallback@.contains_key(a) ==> routes_to_fallback(a)
    }

    /// The entry count: the sum of the backends'.
    pub open spec fn spec_len(self) -> nat {
        self.encoding.len as nat + self.inline0.len as nat + self.inline1.len as nat
            + self.inline2.len as nat + self.fallback.len as nat
    }

    pub open spec fn spec_cap(self) -> nat {
        65536 + self.inline0.cap_spec() + self.inline1.cap_spec() + self.inline2.cap_spec()
            + self.fallback.cap_spec()
    }

    /// An empty table: a fresh bitmap table and four 128-slot probing tables.
    pub fn new() -> (r: Self)
        ensures
            r.wf(),
            r@ == Map::<Seq<u8>, V>::empty(),
            r.spec_len() == 0,
    {
        let r = AdaptiveHashtable {
            encoding: crate::table1::Table1::new(),
            inline0: crate::table0::Table0::with_capacity(128),
            inline1: crate::table0::Table0::with_capacity(128),
            inline2: crate::table0::Table0::with_capacity(128),
            fallback: crate::table0::Table0::with_capacity(128),
        };
        proof {
            assert(r@ =~= Map::<Seq<u8>, V>::empty());
        }
        r
    }

    pub fn len(&self) -> (r: usize)
        requires
            self.wf(),
            self.spec_len() <= usize::MAX,
        ensures
            r == self.spec_len(),
    {
        self.encoding.len() + self.inline0.len() + self.inline1.len() + self.inline2.len()
            + self.fallback.len()
    }

    pub fn is_empty(&self) -> (r: bool)
        requires
            self.wf(),
            self.spec_len() <= usize::MAX,
        ensures
            r == (self.spec_len() == 0),
    {
        self.len() == 0
    }

    pub fn capacity(&self) -> (r: usize)
        requires
            self.wf(),
            self.spec_cap() <= usize::MAX,
        ensures
            r == self.spec_cap(),
    {
        self.encoding.capacity() + self.inline0.capacity() + self.inline1.capacity()
            + self.inline2.capacity() + self.fallback.capacity()
    }

    pub fn get(&self, key: &[u8]) -> (r: Option<&V>)
        requires
            self.wf(),
        ensures
            match r {
                Some(v) => self@.contains_key(key@) && *v == self@[key@],
                None => !self@.contains_key(key@),
            },
    {
        let len = key.len();
        let lastz = if len > 0 {
            key[len - 1] == 0
        } else {
            false
        };
        if lastz || len >= 25 {
            let fk = FallbackKey::new(key);
            self.fallback.get(&fk)
        } else if len == 0 {
            self.encoding.get([0u8, 0u8])
        } else if len == 1 {
            self.encoding.get([key[0], 0u8])
        } else if len == 2 {
            self.encoding.get([key[0], key[1]])
        } else if len <= 8 {
            let k = encode_inline::<0>(key);
            self.inline0.get(&k)
        } else if len <= 16 {
            let k = encode_inline::<1>(key);
            self.inline1.get(&k)
        } else {
            let k = encode_inline::<2>(key);
            self.inline2.get(&k)
        }
    }

    pub fn get_mut(&mut self, key: &[u8]) -> (r: Option<&mut V>)
        requires
            old(self).wf(),
        ensures
            old(self)@.contains_key(key@) ==> r is Some && *r.unwrap() == old(self)@[key@]
                && final(self)@ == old(self)@.insert(key@, *final(r.unwrap())) && final(self).wf()
                && final(self).spec_len() == old(self).spec_len(),
            !old(self)@.contains_key(key@) ==> r is None && *final(self) == *old(self),
    {
        let ghost encv = self.encoding@;
        let ghost i0v = self.inline0@;
        let ghost i1v = self.inline1@;
        let ghost i2v = self.inline2@;
        let ghost fbv = self.fallback@;
        let len = key.len();
        let lastz = if len > 0 {
            key[len - 1] == 0
        } else {
            false
        };
        if lastz || len >= 25 {
            proof {
                assert forall|v2: V| #![trigger fbv.insert(key@, v2)]
                    spec_view(encv, i0v, i1v, i2v, fbv.insert(key@, v2)) == spec_view(
                    encv,
                    i0v,
                    i1v,
                    i2v,
                    fbv,
                ).insert(key@, v2) by {
                    lemma_view_insert_fallback(encv, i0v, i1v, i2v, fbv, key@, v2);
                }
            }
            let fk = FallbackKey::new(key);
            self.fallback.get_mut(&fk)
        } else if len <= 2 {
            let pk: [u8; 2] = if len == 0 {
                [0u8, 0u8]
            } else if len == 1 {
                [key[0], 0u8]
            } else {
                [key[0], key[1]]
            };
            proof {
                assert((pk@[0], pk@[1]) == pad2(key@));
                assert forall|v2: V| #![trigger encv.insert(pad2(key@), v2)]
                    spec_view(encv.insert(pad2(key@), v2), i0v, i1v, i2v, fbv) == spec_view(
                    encv,
                    i0v,
                    i1v,
                    i2v,
                    fbv,
                ).insert(key@, v2) by {
                    lemma_view_insert_encoding(encv, i0v, i1v, i2v, fbv, key@, v2);
                }
            }
            self.encoding.get_mut(pk)
        } else if len <= 8 {
            proof {
                assert forall|v2: V| #![trigger i0v.insert(key@, v2)]
                    spec_view(encv, i0v.insert(key@, v2), i1v, i2v, fbv) == spec_view(
                    encv,
                    i0v,
                    i1v,
                    i2v,
                    fbv,
                ).insert(key@, v2) by {
                    lemma_view_insert_inline(encv, i0v, i1v, i2v, fbv, 0, key@, v2);
                }
            }
            let k = encode_inline::<0>(key);
            self.inline0.get_mut(&k)
        } else if len <= 16 {
            proof {
                assert forall|v2: V| #![trigger i1v.insert(key@, v2)]
                    spec_view(encv, i0v, i1v.insert(key@, v2), i2v, fbv) == spec_view(
                    encv,
                    i0v,
                    i1v,
                    i2v,
                    fbv,
                ).insert(key@, v2) by {
                    lemma_view_insert_inline(encv, i0v, i1v, i2v, fbv, 1, key@, v2);
                }
            }
            let k = encode_inline::<1>(key);
            self.inline1.get_mut(&k)
        } else {
            proof {
                assert forall|v2: V| #![trigger i2v.insert(key@, v2)]
                    spec_view(encv, i0v, i1v, i2v.insert(key@, v2), fbv) == spec_view(
                    encv,
                    i0v,
                    i1v,
                    i2v,
                    fbv,
                ).insert(key@, v2) by {
                    lemma_view_insert_inline(encv, i0v, i1v, i2v, fbv, 2, key@, v2);
                }
            }
            let k = encode_inline::<2>(key);
            self.inline2.get_mut(&k)
        }
    }

    /// Inserts a byte-string key, routing it by length and tail byte,
    /// growing the routed backend first if it would pass half full. A new
    /// key's slot is initialized with `value` and handed back as `Ok`; a
    /// present key's value is untouched and handed back as `Err`.
    pub fn insert(&mut self, key: &[u8], value: V) -> (r: Result<&mut V, &mut V>)
        requires
            old(self).wf(),
            old(self).spec_len() + 1 <= usize::MAX / 4,
        ensures
            final(self).wf(),
            match r {
                Ok(v) => !old(self)@.contains_key(key@) && *v == value && final(self).spec_len()
                    == old(self).spec_len() + 1 && final(self)@ == old(self)@.insert(
                    key@,
                    *final(v),
                ),
                Err(v) => old(self)@.contains_key(key@) && *v == old(self)@[key@] && final(self).spec_len() == old(self).spec_len() && final(self)@ == old(self)@.insert(
                    key@,
                    *final(v),
                ),
            },
    {
        let ghost encv = self.encoding@;
        let ghost i0v = self.inline0@;
        let ghost i1v = self.inline1@;
        let ghost i2v = self.inline2@;
        let ghost fbv = self.fallback@;
        let len = key.len();
        let lastz = if len > 0 {
            key[len - 1] == 0
        } else {
            false
        };
        if lastz || len >= 25 {
            proof {
                assert forall|v2: V| #![trigger fbv.insert(key@, v2)]
                    spec_view(encv, i0v, i1v, i2v, fbv.insert(key@, v2)) == spec_view(
                    encv,
                    i0v,
                    i1v,
                    i2v,
                    fbv,
                ).insert(key@, v2) by {
                    lemma_view_insert_fallback(encv, i0v, i1v, i2v, fbv, key@, v2);
                }
            }
            self.fallback.reserve_one();
            let fk = FallbackKey::new(key);
            self.fallback.insert(fk, value)
        } else if len <= 2 {
            let pk: [u8; 2] = if len == 0 {
                [0u8, 0u8]
            } else if len == 1 {
                [key[0], 0u8]
            } else {
                [key[0], key[1]]
            };
            proof {
                assert((pk@[0], pk@[1]) == pad2(key@));
                assert forall|v2: V| #![trigger encv.insert(pad2(key@), v2)]
                    spec_view(encv.insert(pad2(key@), v2), i0v, i1v, i2v, fbv) == spec_view(
                    encv,
                    i0v,
                    i1v,
                    i2v,
                    fbv,
                ).insert(key@, v2) by {
                    lemma_view_insert_encoding(encv, i0v, i1v, i2v, fbv, key@, v2);
                }
            }
            self.encoding.insert(pk, value)
        } else if len <= 8 {
            proof {
                assert forall|v2: V| #![trigger i0v.insert(key@, v2)]
                    spec_view(encv, i0v.insert(key@, v2), i1v, i2v, fbv) == spec_view(
                    encv,
                    i0v,
                    i1v,
                    i2v,
                    fbv,
                ).insert(key@, v2) by {
                    lemma_view_insert_inline(encv, i0v, i1v, i2v, fbv, 0, key@, v2);
                }
            }
            self.inline0.reserve_one();
            let k = encode_inline::<0>(key);
            self.inline0.insert(k, value)
        } else if len <= 16 {
            proof {
                assert forall|v2: V| #![trigger i1v.insert(key@, v2)]
                    spec_view(encv, i0v, i1v.insert(key@, v2), i2v, fbv) == spec_view(
                    encv,
                    i0v,
                    i1v,
                    i2v,
                    fbv,
                ).insert(key@, v2) by {
                    lemma_view_insert_inline(encv, i0v, i1v, i2v, fbv, 1, key@, v2);
                }
            }
            self.inline1.reserve_one();
            let k = encode_inline::<1>(key);
            self.inline1.insert(k, value)
        } else {
            proof {
                assert forall|v2: V| #![trigger i2v.insert(key@, v2)]
                    spec_view(encv, i0v, i1v, i2v.insert(key@, v2), fbv) == spec_view(
                    encv,
                    i0v,
                    i1v,
                    i2v,
                    fbv,
                ).insert(key@, v2) by {
                    lemma_view_insert_inline(encv, i0v, i1v, i2v, fbv, 2, key@, v2);
                }
            }
            self.inline2.reserve_one();
            let k = encode_inline::<2>(key);
            self.inline2.insert(k, value)
        }
    }
}


impl<const N: usize> InlineKey<N> {
    /// The byte string this key encodes, recovered by reading each lane's
    /// bytes and scanning the final lane for its last nonzero byte.
    pub fn to_bytes(&self) -> (r: Vec<u8>)
        ensures
            r@ == self@,
    {
        proof {
            use_type_invariant(self);
            lemma_inline_roundtrip(self.lanes@.take(N as int), self.last);
        }
        let ghost a = self@;
        let mut r: Vec<u8> = Vec::new();
        let mut li: usize = 0;
        while li < N
            invariant
                N <= 2,
                li <= N,
                a == self@,
                a.len() >= 8 * N,
                r@.len() == 8 * li,
                forall|i: int| 0 <= i < r@.len() ==> r@[i] == a[i],
                a == spec_decode_lanes(self.lanes@.take(N as int), self.last),
            decreases N - li,
        {
            let lane = self.lanes[li];
            let mut j: usize = 0;
            while j < 8
                invariant
                    N <= 2,
                    li < N,
                    j <= 8,
                    a == self@,
                    a.len() >= 8 * N,
                    lane == self.lanes@[li as int],
                    r@.len() == 8 * li + j,
                    forall|i: int| 0 <= i < r@.len() ==> r@[i] == a[i],
                    a == spec_decode_lanes(self.lanes@.take(N as int), self.last),
                decreases 8 - j,
            {
                proof {
                    let i = 8 * li + j;
                    vstd::arithmetic::div_mod::lemma_fundamental_div_mod_converse(
                        i as int,
                        8,
                        li as int,
                        j as int,
                    );
                    assert(a[i as int] == byte_at(
                        self.lanes@.take(N as int)[li as int] as nat,
                        j as nat,
                    ));
                    assert(self.lanes@.take(N as int)[li as int] == lane);
                }
                r.push(extract_byte(lane, j));
                j = j + 1;
            }
            li = li + 1;
        }
        let last = self.last;
        let mut l: usize = 0;
        let mut i: usize = 0;
        while i < 8
            invariant
                i <= 8,
                l <= i,
                l == trim_len(last, i as nat),
            decreases 8 - i,
        {
            if extract_byte(last, i) != 0 {
                l = i + 1;
            }
            i = i + 1;
        }
        let mut j: usize = 0;
        while j < l
            invariant
                N <= 2,
                j <= l,
                l <= 8,
                a == self@,
                l == trim_len(last, 8),
                last == self.last,
                a.len() == 8 * N + l,
                r@.len() == 8 * N + j,
                forall|i2: int| 0 <= i2 < r@.len() ==> r@[i2] == a[i2],
                a == spec_decode_lanes(self.lanes@.take(N as int), self.last),
            decreases l - j,
        {
            proof {
                assert(a[(8 * N + j) as int] == byte_at(last as nat, j as nat));
            }
            r.push(extract_byte(last, j));
            j = j + 1;
        }
        proof {
            assert(r@ =~= a);
        }
        r
    }
}


/// The backend a byte string is routed to, as a small discriminant:
/// fallback 0, the three inline widths 1 to 3, the two-byte table 4.
pub open spec fn route_class(b: Seq<u8>) -> int {
    if routes_to_fallback(b) {
        0
    } else if b.len() <= 2 {
        4
    } else if b.len() <= 8 {
        1
    } else if b.len() <= 16 {
        2
    } else {
        3
    }
}

impl<V> AdaptiveHashtable<V> {
    /// The backends hold pairwise disjoint key sets: each key's length and
    /// tail byte route it to exactly one backend, and the full map is their
    /// union.
    pub proof fn lemma_backends_disjoint(self)
        requires
            self.wf(),
        ensures
            forall|b: Seq<u8>|
                !(#[trigger] self.inline0@.contains_key(b) && self.inline1@.contains_key(b)),
            forall|b: Seq<u8>|
                !(#[trigger] self.inline0@.contains_key(b) && self.inline2@.contains_key(b)),
            forall|b: Seq<u8>|
                !(#[trigger] self.inline1@.contains_key(b) && self.inline2@.contains_key(b)),
            forall|b: Seq<u8>|
                !(#[trigger] self.fallback@.contains_key(b) && self.inline0@.contains_key(b)),
            forall|b: Seq<u8>|
                !(#[trigger] self.fallback@.contains_key(b) && self.inline1@.contains_key(b)),
            forall|b: Seq<u8>|
                !(#[trigger] self.fallback@.contains_key(b) && self.inline2@.contains_key(b)),
            forall|p: (u8, u8)| #[trigger]
                self.encoding@.contains_key(p) ==> !self.inline0@.contains_key(strip2(p))
                    && !self.inline1@.contains_key(strip2(p)) && !self.inline2@.contains_key(
                    strip2(p),
                ) && !self.fallback@.contains_key(strip2(p)),
            forall|b: Seq<u8>| #[trigger]
                self@.contains_key(b) ==> (self.fallback@.contains_key(b)
                    || self.inline0@.contains_key(b) || self.inline1@.contains_key(b)
                    || self.inline2@.contains_key(b) || self.encoding@.contains_key(pad2(b))),
    {
        assert forall|p: (u8, u8)| #[trigger] self.encoding@.contains_key(p) implies
            !self.inline0@.contains_key(strip2(p)) && !self.inline1@.contains_key(strip2(p))
                && !self.inline2@.contains_key(strip2(p)) && !self.fallback@.contains_key(
                strip2(p),
            ) by {
            lemma_strip_pad(p);
        }
    }

    /// A present key with a trailing zero byte lives in the fallback backend,
    /// whatever its length.
    pub proof fn lemma_zero_tail_in_fallback(self, b: Seq<u8>)
        requires
            self.wf(),
            self@.contains_key(b),
            b.len() > 0,
            b[b.len() - 1] == 0,
        ensures
            self.fallback@.contains_key(b),
    {
    }
}

impl<V: Copy> AdaptiveHashtable<V> {
    /// All entries, backend by backend: fallback, the three inline widths,
    /// then the two-byte table, each reconstructing the byte string a key
    /// encodes. Each present key appears exactly once.
    #[verifier::rlimit(100)]
    pub fn iter(&self) -> (r: Vec<(Vec<u8>, V)>)
        requires
            self.wf(),
        ensures
            r@.len() == self.spec_len(),
            forall|j: int|
                0 <= j < r@.len() ==> self@.contains_key((#[trigger] r@[j]).0@) && self@[r@[j].0@]
                    == r@[j].1,
            forall|j1: int, j2: int|
                0 <= j1 < j2 < r@.len() ==> (#[trigger] r@[j1]).0@ != (#[trigger] r@[j2]).0@,
            forall|b: Seq<u8>| #[trigger]
                self@.contains_key(b) ==> exists|j: int|
                    0 <= j < r@.len() && (#[trigger] r@[j]).0@ == b,
    {
        let mut r: Vec<(Vec<u8>, V)> = Vec::new();
        // fallback entries, straight from the slots
        let ghost fs = self.fallback.slots@;
        let ghost mut srcs: Seq<int> = Seq::empty();
        let fcap = self.fallback.capacity();
        let mut i: usize = 0;
        while i < fcap
            invariant
                self.wf(),
                fs == self.fallback.slots@,
                fcap == fs.len(),
                i <= fcap,
                r@.len() == crate::table0::count_full(fs.take(i as int)),
                srcs.len() == r@.len(),
                forall|j: int|
                    0 <= j < srcs.len() ==> 0 <= #[trigger] srcs[j] < i && fs[srcs[j]] is Full,
                forall|j: int|
                    0 <= j < r@.len() ==> (#[trigger] r@[j]).0@ == fs[srcs[j]]->Full_key@ && r@[j].1
                        == fs[srcs[j]]->Full_val,
                forall|j1: int, j2: int|
                    0 <= j1 < j2 < srcs.len() ==> #[trigger] srcs[j1] != #[trigger] srcs[j2],
                forall|t: int|
                    0 <= t < i && #[trigger] fs[t] is Full ==> exists|j: int|
                        0 <= j < srcs.len() && #[trigger] srcs[j] == t,
            decreases fcap - i,
        {
            proof {
                assert(fs.take(i + 1).drop_last() =~= fs.take(i as int));
            }
            match &self.fallback.slots[i] {
                crate::table0::Slot::Full { key, val } => {
                    let b = copy_bytes(key.as_bytes().as_slice());
                    r.push((b, *val));
                    proof {
                        let srcs0 = srcs;
                        srcs = srcs.push(i as int);
                        assert forall|t: int|
                            0 <= t < i + 1 && #[trigger] fs[t] is Full implies exists|j: int|
                            0 <= j < srcs.len() && #[trigger] srcs[j] == t by {
                            if t < i {
                                let j = choose|j: int| 0 <= j < srcs0.len() && #[trigger] srcs0[j] == t;
                                assert(srcs[j] == srcs0[j]);
                                assert(srcs[j] == t);
                            } else {
                                assert(srcs[srcs.len() - 1] == t);
                            }
                        }
                    }
                },
                crate::table0::Slot::Empty => {
                    proof {
                        assert forall|t: int|
                            0 <= t < i + 1 && #[trigger] fs[t] is Full implies exists|j: int|
                            0 <= j < srcs.len() && #[trigger] srcs[j] == t by {
                            assert(t != i);
                        }
                    }
                },
            }
            i = i + 1;
        }
        proof {
            assert(fs.take(fcap as int) =~= fs);
        }
        let ghost n1 = r@.len();
        let ghost rs1 = r@;
        // the three inline widths, decoded back to their byte strings
        let c0 = self.inline0.iter();
        let ghost c0v = c0@;
        let mut k0: usize = 0;
        while k0 < c0.len()
            invariant
                c0v == c0@,
                k0 <= c0v.len(),
                r@.len() == n1 + k0,
                forall|j: int| 0 <= j < n1 ==> #[trigger] r@[j] == rs1[j],
                rs1.len() == n1,
                forall|j: int| n1 <= j < r@.len() ==> (#[trigger] r@[j]).0@ == c0v[j - n1].0@
                    && r@[j].1 == c0v[j - n1].1,
            decreases c0v.len() - k0,
        {
            let b = c0[k0].0.to_bytes();
            r.push((b, c0[k0].1));
            k0 = k0 + 1;
        }
        let ghost n2 = r@.len();
        let ghost rs2 = r@;
        let c1 = self.inline1.iter();
        let ghost c1v = c1@;
        let mut k1: usize = 0;
        while k1 < c1.len()
            invariant
                c1v == c1@,
                k1 <= c1v.len(),
                r@.len() == n2 + k1,
                forall|j: int| 0 <= j < n2 ==> #[trigger] r@[j] == rs2[j],
                rs2.len() == n2,
                forall|j: int| n2 <= j < r@.len() ==> (#[trigger] r@[j]).0@ == c1v[j - n2].0@
                    && r@[j].1 == c1v[j - n2].1,
            decreases c1v.len() - k1,
        {
            let b = c1[k1].0.to_bytes();
            r.push((b, c1[k1].1));
            k1 = k1 + 1;
        }
        let ghost n3 = r@.len();
        let ghost rs3 = r@;
        let c2 = self.inline2.iter();
        let ghost c2v = c2@;
        let mut k2: usize = 0;
        while k2 < c2.len()
            invariant
                c2v == c2@,
                k2 <= c2v.len(),
                r@.len() == n3 + k2,
                forall|j: int| 0 <= j < n3 ==> #[trigger] r@[j] == rs3[j],
                rs3.len() == n3,
                forall|j: int| n3 <= j < r@.len() ==> (#[trigger] r@[j]).0@ == c2v[j - n3].0@
                    && r@[j].1 == c2v[j - n3].1,
            decreases c2v.len() - k2,
        {
            let b = c2[k2].0.to_bytes();
            r.push((b, c2[k2].1));
            k2 = k2 + 1;
        }
        let ghost n4 = r@.len();
        let ghost rs4 = r@;
        // the two-byte table, stripped of its zero padding
        let ce = self.encoding.iter();
        let ghost cev = ce@;
        let mut ke: usize = 0;
        while ke < ce.len()
            invariant
                cev == ce@,
                ke <= cev.len(),
                r@.len() == n4 + ke,
                forall|j: int| 0 <= j < n4 ==> #[trigger] r@[j] == rs4[j],
                rs4.len() == n4,
                forall|j: int| n4 <= j < r@.len() ==> (#[trigger] r@[j]).0@ == strip2(
                    (cev[j - n4].0@[0], cev[j - n4].0@[1])) && r@[j].1 == cev[j - n4].1,
            decreases cev.len() - ke,
        {
            let pair = ce[ke].0;
            let b: Vec<u8> = if pair[1] != 0 {
                vec![pair[0], pair[1]]
            } else if pair[0] != 0 {
                vec![pair[0]]
            } else {
                Vec::new()
            };
            proof {
                assert(b@ == strip2((pair@[0], pair@[1]))) by {
                    if pair@[1] != 0 {
                        assert(b@ =~= seq![pair@[0], pair@[1]]);
                    } else if pair@[0] != 0 {
                        assert(b@ =~= seq![pair@[0]]);
                    } else {
                        assert(b@ =~= Seq::<u8>::empty());
                    }
                }
            }
            r.push((b, ce[ke].1));
            ke = ke + 1;
        }
        proof {
            // segment descriptions of the finished vector
            assert forall|j: int| 0 <= j < n1 implies (#[trigger] r@[j]).0@
                == fs[srcs[j]]->Full_key@ && r@[j].1 == fs[srcs[j]]->Full_val by {
                assert(r@[j] == rs4[j]);
                assert(rs4[j] == rs3[j]);
                assert(rs3[j] == rs2[j]);
                assert(rs2[j] == rs1[j]);
            }
            assert forall|j: int| n1 <= j < n2 implies (#[trigger] r@[j]).0@ == c0v[j - n1].0@
                && r@[j].1 == c0v[j - n1].1 by {
                assert(r@[j] == rs4[j]);
                assert(rs4[j] == rs3[j]);
                assert(rs3[j] == rs2[j]);
            }
            assert forall|j: int| n2 <= j < n3 implies (#[trigger] r@[j]).0@ == c1v[j - n2].0@
                && r@[j].1 == c1v[j - n2].1 by {
                assert(r@[j] == rs4[j]);
                assert(rs4[j] == rs3[j]);
            }
            assert forall|j: int| n3 <= j < n4 implies (#[trigger] r@[j]).0@ == c2v[j - n3].0@
                && r@[j].1 == c2v[j - n3].1 by {
                assert(r@[j] == rs4[j]);
            }
            // every entry is present in the composite map, under its class
            assert forall|j: int| 0 <= j < r@.len() implies self@.contains_key(
                (#[trigger] r@[j]).0@) && self@[r@[j].0@] == r@[j].1 && route_class(r@[j].0@) == (
                if j < n1 { 0int } else if j < n2 { 1int } else if j < n3 { 2int }
                else if j < n4 { 3int } else { 4int }) by {
                if j < n1 {
                    crate::table0::lemma_view_at(fs, srcs[j]);
                    assert(self.fallback@.contains_key(r@[j].0@));
                } else if j < n2 {
                    assert(self.inline0@.contains_key(r@[j].0@));
                } else if j < n3 {
                    assert(self.inline1@.contains_key(r@[j].0@));
                } else if j < n4 {
                    assert(self.inline2@.contains_key(r@[j].0@));
                } else {
                    let p = (cev[j - n4].0@[0], cev[j - n4].0@[1]);
                    lemma_strip_pad(p);
                    assert(self.encoding@.contains_key(pad2(r@[j].0@)));
                }
            }
            // distinctness: within a segment from the backend, across
            // segments from the disjoint routing classes
            assert forall|j1: int, j2: int| 0 <= j1 < j2 < r@.len() implies (#[trigger] r@[j1]).0@
                != (#[trigger] r@[j2]).0@ by {
                let seg1: int = if j1 < n1 { 0 } else if j1 < n2 { 1 } else if j1 < n3 { 2 }
                    else if j1 < n4 { 3 } else { 4 };
                let seg2: int = if j2 < n1 { 0 } else if j2 < n2 { 1 } else if j2 < n3 { 2 }
                    else if j2 < n4 { 3 } else { 4 };
                if seg1 != seg2 {
                    assert(route_class(r@[j1].0@) != route_class(r@[j2].0@));
                } else if seg1 == 0 {
                    assert(srcs[j1] != srcs[j2]);
                } else if seg1 == 4 {
                    let p1 = (cev[j1 - n4].0@[0], cev[j1 - n4].0@[1]);
                    let p2 = (cev[j2 - n4].0@[0], cev[j2 - n4].0@[1]);
                    assert(p1 != p2);
                    lemma_strip_pad(p1);
                    lemma_strip_pad(p2);
                    if strip2(p1) == strip2(p2) {
                        assert(pad2(strip2(p1)) == pad2(strip2(p2)));
                        assert(false);
                    }
                }
            }
            // coverage: a contained key is routed to some backend, whose
            // segment carries it
            assert forall|b: Seq<u8>| #[trigger] self@.contains_key(b) implies exists|j: int|
                0 <= j < r@.len() && (#[trigger] r@[j]).0@ == b by {
                if routes_to_fallback(b) {
                    assert(self.fallback@.contains_key(b));
                    crate::table0::lemma_view_contains(fs, b);
                    let t = choose|t: int|
                        0 <= t < fs.len() && fs[t] is Full && (#[trigger] fs[t]->Full_key)@ == b;
                    let j = choose|j: int| 0 <= j < srcs.len() && #[trigger] srcs[j] == t;
                    assert(0 <= j < r@.len() && r@[j].0@ == b);
                } else if b.len() <= 2 {
                    assert(self.encoding@.contains_key(pad2(b)));
                    let jj = choose|jj: int|
                        0 <= jj < cev.len() && ((#[trigger] cev[jj]).0@[0], cev[jj].0@[1]) == pad2(
                            b,
                        );
                    lemma_pad_strip(b);
                    assert(0 <= n4 + jj < r@.len() && r@[n4 + jj].0@ == b);
                } else if b.len() <= 8 {
                    assert(self.inline0@.contains_key(b));
                    let jj = choose|jj: int| 0 <= jj < c0v.len() && (#[trigger] c0v[jj]).0@ == b;
                    assert(0 <= n1 + jj < r@.len() && r@[n1 + jj].0@ == b);
                } else if b.len() <= 16 {
                    assert(self.inline1@.contains_key(b));
                    let jj = choose|jj: int| 0 <= jj < c1v.len() && (#[trigger] c1v[jj]).0@ == b;
                    assert(0 <= n2 + jj < r@.len() && r@[n2 + jj].0@ == b);
                } else {
                    assert(self.inline2@.contains_key(b));
                    let jj = choose|jj: int| 0 <= jj < c2v.len() && (#[trigger] c2v[jj]).0@ == b;
                    assert(0 <= n3 + jj < r@.len() && r@[n3 + jj].0@ == b);
                }
            }
            self.fallback.lemma_len_is_distinct_count();
        }
        r
    }
}

} // verus!




