//! Little-endian interpretation of short byte strings.
//!
//! Keys of up to eight bytes are packed into one 64-bit word; `le_val`
//! is the mathematical value of such a packing, `read_le` computes it,
//! and `extract_byte` recovers a single byte from it.

use vstd::prelude::*;
use vstd::arithmetic::power2::{pow2, lemma_pow2_adds, lemma_pow2_pos, lemma2_to64};
use vstd::bits::{
    lemma_u64_shl_is_mul, lemma_u64_shr_is_div, lemma_u64_low_bits_mask_is_mod, low_bits_mask,
};
use vstd::arithmetic::div_mod::{
    lemma_basic_div, lemma_small_mod, lemma_mod_multiples_vanish,
    lemma_fundamental_div_mod, lemma_fundamental_div_mod_converse,
};

verus! {

/// 256 to the power `n`: the weight of byte `n` in a little-endian word.
pub open spec fn pow256(n: nat) -> nat
    decreases n,
{
    if n == 0 {
        1nat
    } else {
        256nat * pow256((n - 1) as nat)
    }
}

pub proof fn lemma_pow256_is_pow2(n: nat)
    ensures
        pow256(n) == pow2(8 * n),
    decreases n,
{
    if n == 0 {
        lemma2_to64();
    } else {
        lemma_pow256_is_pow2((n - 1) as nat);
        lemma_pow2_adds(8, 8 * (n - 1) as nat);
        lemma2_to64();
    }
}

pub proof fn lemma_pow256_pos(n: nat)
    ensures
        pow256(n) >= 1,
    decreases n,
{
    if n > 0 {
        lemma_pow256_pos((n - 1) as nat);
    }
}

pub proof fn lemma_pow256_adds(a: nat, b: nat)
    ensures
        pow256(a + b) == pow256(a) * pow256(b),
    decreases a,
{
    if a == 0 {
        assert(pow256(0 + b) == 1 * pow256(b));
    } else {
        lemma_pow256_adds((a - 1) as nat, b);
        assert(pow256(a + b) == 256 * pow256(((a - 1) + b) as nat));
        assert(256 * (pow256((a - 1) as nat) * pow256(b)) == (256 * pow256((a - 1) as nat))
            * pow256(b)) by (nonlinear_arith);
        assert(pow256(a) == 256 * pow256((a - 1) as nat));
    }
}

pub proof fn lemma_pow256_increases(a: nat, b: nat)
    requires
        a <= b,
    ensures
        pow256(a) <= pow256(b),
    decreases b,
{
    if a < b {
        lemma_pow256_increases(a, (b - 1) as nat);
        lemma_pow256_pos((b - 1) as nat);
    }
}

pub proof fn lemma_pow256_values()
    ensures
        pow256(8) == 0x10000000000000000,
        pow256(7) == 0x100000000000000,
{
    reveal_with_fuel(pow256, 9);
}

/// The value of a byte string read as a little-endian integer.
pub open spec fn le_val(s: Seq<u8>) -> nat
    decreases s.len(),
{
    if s.len() == 0 {
        0nat
    } else {
        (le_val(s.drop_last()) + s.last() * pow256((s.len() - 1) as nat)) as nat
    }
}

pub proof fn lemma_le_val_bound(s: Seq<u8>)
    ensures
        le_val(s) < pow256(s.len()),
    decreases s.len(),
{
    if s.len() == 0 {
    } else {
        lemma_le_val_bound(s.drop_last());
        lemma_pow256_pos((s.len() - 1) as nat);
        assert(s.last() * pow256((s.len() - 1) as nat) <= 255 * pow256((s.len() - 1) as nat))
            by (nonlinear_arith)
            requires
                s.last() <= 255,
                pow256((s.len() - 1) as nat) >= 1,
        ;
    }
}

pub proof fn lemma_le_val_snoc(s: Seq<u8>, b: u8)
    ensures
        le_val(s.push(b)) == le_val(s) + b * pow256(s.len()),
{
    assert(s.push(b).drop_last() =~= s);
}

/// The byte at little-endian position `i` of the value `v`.
pub open spec fn byte_at(v: nat, i: nat) -> u8 {
    ((v / pow256(i)) % 256) as u8
}

/// Dividing off a multiple of the divisor shifts the quotient.
proof fn lemma_div_add_multiple(x: nat, k: nat, d: nat)
    requires
        d >= 1,
    ensures
        (x + k * d) as int / d as int == x as int / d as int + k,
{
    let q = x as int / d as int;
    let r = x as int % d as int;
    lemma_fundamental_div_mod(x as int, d as int);
    assert(x + k * d == (q + k) * (d as int) + r) by (nonlinear_arith)
        requires
            x == q * d + r,
    ;
    lemma_fundamental_div_mod_converse(x as int + k as int * d as int, d as int, q + k, r);
}

/// The bytes of a little-endian value are exactly the bytes of the string
/// it was read from, with zero beyond the string's end.
pub proof fn lemma_le_val_byte_at(s: Seq<u8>, i: nat)
    requires
        s.len() <= 8,
    ensures
        byte_at(le_val(s), i) == if i < s.len() {
            s[i as int]
        } else {
            0u8
        },
    decreases s.len(),
{
    lemma_pow256_pos(i);
    if s.len() == 0 {
        lemma_basic_div(0, pow256(i) as int);
        lemma_small_mod(0, 256);
    } else {
        let s0 = s.drop_last();
        let l = (s.len() - 1) as nat;
        let last = s.last();
        let v0 = le_val(s0);
        lemma_le_val_bound(s0);
        lemma_pow256_pos(l);
        if i < l {
            lemma_le_val_byte_at(s0, i);
            // the final byte's weight is a multiple of 256 * pow256(i),
            // so it moves the quotient by a multiple of 256
            let w = pow256((l - i - 1) as nat);
            lemma_pow256_adds((l - i - 1) as nat, i + 1);
            assert(pow256(l) == w * (256 * pow256(i)));
            let k = (last * (256 * w)) as nat;
            assert(last * pow256(l) == k * pow256(i)) by (nonlinear_arith)
                requires
                    pow256(l) == w * (256 * pow256(i)),
                    k == last * (256 * w),
            ;
            lemma_div_add_multiple(v0, k, pow256(i));
            let q0 = v0 as int / pow256(i) as int;
            assert(k == 256 * (last * w)) by (nonlinear_arith)
                requires
                    k == last * (256 * w),
            ;
            lemma_mod_multiples_vanish(last as int * w as int, q0, 256);
        } else if i == l {
            lemma_basic_div(v0 as int, pow256(l) as int);
            lemma_div_add_multiple(v0, last as nat, pow256(l));
            lemma_small_mod(last as nat, 256);
        } else {
            lemma_le_val_bound(s);
            lemma_pow256_increases(s.len(), i);
            lemma_basic_div(le_val(s) as int, pow256(i) as int);
            lemma_small_mod(0, 256);
        }
    }
}

/// The eight little-endian bytes of a 64-bit word.
pub open spec fn lane_bytes(x: u64) -> Seq<u8> {
    Seq::new(8, |i: int| byte_at(x as nat, i as nat))
}

/// Reading a word's own bytes yields the word back.
pub proof fn lemma_le_val_of_lane_bytes(x: u64)
    ensures
        le_val(lane_bytes(x)) == x,
{
    lemma_le_val_take_bytes(x, 8);
    assert(lane_bytes(x).take(8) =~= lane_bytes(x));
    lemma_pow256_values();
    vstd::arithmetic::div_mod::lemma_small_mod(x as nat, pow256(8));
}

/// The first `n` bytes of a word read back as the word modulo `256^n`.
proof fn lemma_le_val_take_bytes(x: u64, n: nat)
    requires
        n <= 8,
    ensures
        le_val(lane_bytes(x).take(n as int)) == x as nat % pow256(n),
    decreases n,
{
    lemma_pow256_pos(n);
    if n == 0 {
        lemma_small_mod(0, 1);
        assert(x as nat % pow256(0) == 0) by {
            vstd::arithmetic::div_mod::lemma_mod_self_0(1);
            assert(pow256(0) == 1);
            assert(x as nat % 1 == 0) by (nonlinear_arith);
        }
    } else {
        lemma_le_val_take_bytes(x, (n - 1) as nat);
        let s = lane_bytes(x).take(n as int);
        assert(s.drop_last() =~= lane_bytes(x).take(n - 1));
        assert(s.last() == byte_at(x as nat, (n - 1) as nat));
        lemma_pow256_pos((n - 1) as nat);
        vstd::arithmetic::div_mod::lemma_mod_breakdown(
            x as int,
            pow256((n - 1) as nat) as int,
            256,
        );
        assert(le_val(s) == x as nat % pow256((n - 1) as nat) + ((x as nat / pow256(
            (n - 1) as nat,
        )) % 256) * pow256((n - 1) as nat));
        assert(pow256(n) == pow256((n - 1) as nat) * 256) by {
            lemma_pow256_adds((n - 1) as nat, 1);
            assert(pow256(1) == 256) by {
                reveal_with_fuel(pow256, 2);
            }
        }
    }
}

/// The number of bytes left after stripping trailing zero bytes from the
/// first `n` bytes of a word.
pub open spec fn trim_len(x: u64, n: nat) -> nat
    decreases n,
{
    if n == 0 {
        0nat
    } else if byte_at(x as nat, (n - 1) as nat) != 0 {
        n
    } else {
        trim_len(x, (n - 1) as nat)
    }
}

/// Trimming keeps the value: the stripped bytes are zero.
pub proof fn lemma_trim_le_val(x: u64, n: nat)
    requires
        n <= 8,
    ensures
        trim_len(x, n) <= n,
        le_val(lane_bytes(x).take(trim_len(x, n) as int)) == le_val(lane_bytes(x).take(n as int)),
        forall|i: nat| trim_len(x, n) <= i < n ==> byte_at(x as nat, i) == 0,
        trim_len(x, n) > 0 ==> byte_at(x as nat, (trim_len(x, n) - 1) as nat) != 0,
    decreases n,
{
    if n > 0 {
        if byte_at(x as nat, (n - 1) as nat) != 0 {
        } else {
            lemma_trim_le_val(x, (n - 1) as nat);
            let s = lane_bytes(x).take(n as int);
            assert(s.drop_last() =~= lane_bytes(x).take(n - 1));
            assert(s.last() == 0);
        }
    }
}

/// A word is zero exactly when all of its bytes are zero.
pub proof fn lemma_trim_zero(x: u64)
    ensures
        trim_len(x, 8) == 0 <==> x == 0,
{
    lemma_trim_le_val(x, 8);
    lemma_le_val_of_lane_bytes(x);
    assert(lane_bytes(x).take(8) =~= lane_bytes(x));
    if trim_len(x, 8) == 0 {
        assert(lane_bytes(x).take(0) =~= Seq::<u8>::empty());
    }
    if x == 0 {
        assert forall|i: nat| 0 <= i < 8 implies byte_at(0 as nat, i) == 0 by {
            lemma_pow256_pos(i);
            lemma_basic_div(0, pow256(i) as int);
            lemma_small_mod(0, 256);
        }
        lemma_trim_len_exact(0u64, 0, 8);
    }
}

/// The trim length is pinned by a known top nonzero byte.
pub proof fn lemma_trim_len_exact(x: u64, l: nat, n: nat)
    requires
        l <= n <= 8,
        l > 0 ==> byte_at(x as nat, (l - 1) as nat) != 0,
        forall|i: nat| l <= i < n ==> byte_at(x as nat, i) == 0,
    ensures
        trim_len(x, n) == l,
    decreases n,
{
    if n > l {
        assert(byte_at(x as nat, (n - 1) as nat) == 0);
        lemma_trim_len_exact(x, l, (n - 1) as nat);
    }
}

/// Reads the `len` bytes of `data` starting at `offset` as one
/// little-endian word, zero-extended to 64 bits.
pub fn read_le(data: &[u8], offset: usize, len: usize) -> (r: u64)
    requires
        len <= 8,
        offset + len <= data@.len(),
    ensures
        r as nat == le_val(data@.subrange(offset as int, offset + len)),
{
    let ghost target = data@.subrange(offset as int, offset + len);
    let dlen = data.len();
    let mut acc: u64 = 0;
    let mut j: usize = 0;
    proof {
        lemma_pow256_values();
    }
    while j < len
        invariant
            j <= len,
            len <= 8,
            offset + len <= dlen,
            dlen == data@.len(),
            target == data@.subrange(offset as int, offset + len),
            acc as nat == le_val(target.take(j as int)),
            pow256(8) == 0x10000000000000000,
        decreases len - j,
    {
        let b = data[offset + j];
        proof {
            lemma_le_val_bound(target.take(j as int));
            lemma_pow256_is_pow2(j as nat);
            lemma_pow256_increases((j + 1) as nat, 8);
            lemma_pow256_pos(j as nat);
            assert(b * pow256(j as nat) <= 255 * pow256(j as nat)) by (nonlinear_arith)
                requires
                    b <= 255,
                    pow256(j as nat) >= 1,
            ;
            assert(255 * pow256(j as nat) + pow256(j as nat) == pow256((j + 1) as nat));
            lemma_u64_shl_is_mul(b as u64, (8 * j) as u64);
            assert(target.take(j + 1) =~= target.take(j as int).push(target[j as int]));
            lemma_le_val_snoc(target.take(j as int), target[j as int]);
        }
        let term: u64 = (b as u64) << ((8 * j) as u64);
        acc = acc + term;
        j = j + 1;
    }
    proof {
        assert(target.take(len as int) =~= target);
    }
    acc
}

/// Extracts the byte at little-endian position `i` from `x`.
pub fn extract_byte(x: u64, i: usize) -> (r: u8)
    requires
        i < 8,
    ensures
        r == byte_at(x as nat, i as nat),
{
    proof {
        lemma_u64_shr_is_div(x, (8 * i) as u64);
        lemma_pow256_is_pow2(i as nat);
        lemma_u64_low_bits_mask_is_mod(x >> ((8 * i) as u64), 8);
        lemma2_to64();
        lemma_pow2_pos((8 * i) as nat);
    }
    (((x >> ((8 * i) as u64)) & 0xff) as u8)
}

} // verus!
