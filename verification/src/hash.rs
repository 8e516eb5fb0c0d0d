//! The hash used by every table: a 64-bit multiply-shift-xor mixer over
//! primitive integers, folded eight bytes at a time over byte strings.
//!
//! The hash is deterministic (a pure function of its input), unkeyed, and
//! not meant to resist adversarial inputs.

use vstd::prelude::*;
use crate::utils::{le_val, lemma_le_val_bound, lemma_pow256_values, lemma_pow256_increases, read_le};

verus! {

/// One multiply round of the mixer.
pub open spec fn spec_mix_round(x: u64, m: u64) -> u64 {
    vstd::wrapping::u64_specs::wrapping_mul(x ^ (x >> 33u64), m)
}

/// The 64-bit finalizer: two multiply rounds and a closing xor-shift.
pub open spec fn spec_fast_hash_u64(x: u64) -> u64 {
    let a = spec_mix_round(x, 0xff51afd7ed558ccd);
    let b = spec_mix_round(a, 0xc4ceb9fe1a85ec53);
    b ^ (b >> 33u64)
}

/// Mixes a 64-bit word into a running state.
pub open spec fn spec_mix_into(state: u64, x: u64) -> u64 {
    spec_fast_hash_u64(state ^ x)
}

/// Folds the little-endian 8-byte chunks of `s`, front to back, into `state`.
pub open spec fn spec_hash_fold(state: u64, s: Seq<u8>) -> u64
    decreases s.len(),
{
    if s.len() == 0 {
        state
    } else if s.len() <= 8 {
        spec_mix_into(state, le_val(s) as u64)
    } else {
        spec_hash_fold(spec_mix_into(state, le_val(s.take(8)) as u64), s.skip(8))
    }
}

/// The hash of a byte string: its chunks mixed into a zero-seeded state.
pub open spec fn spec_fast_hash_bytes(s: Seq<u8>) -> u64 {
    spec_hash_fold(0u64, s)
}

/// The hash of a sequence of 64-bit lanes, mixed in order.
pub open spec fn spec_hash_lanes_fold(state: u64, lanes: Seq<u64>) -> u64
    decreases lanes.len(),
{
    if lanes.len() == 0 {
        state
    } else {
        spec_hash_lanes_fold(spec_mix_into(state, lanes[0]), lanes.skip(1))
    }
}

/// The hash of an inline key: each of its lanes mixed into a zero-seeded state.
pub open spec fn spec_fast_hash_lanes(lanes: Seq<u64>) -> u64 {
    spec_hash_lanes_fold(0u64, lanes)
}

/// Mixes a 64-bit word to a 64-bit hash.
pub fn fast_hash_u64(x: u64) -> (r: u64)
    ensures
        r == spec_fast_hash_u64(x),
{
    let mut h = x;
    h = h ^ (h >> 33u64);
    h = h.wrapping_mul(0xff51afd7ed558ccd);
    h = h ^ (h >> 33u64);
    h = h.wrapping_mul(0xc4ceb9fe1a85ec53);
    h = h ^ (h >> 33u64);
    h
}

pub fn mix_into(state: u64, x: u64) -> (r: u64)
    ensures
        r == spec_mix_into(state, x),
{
    fast_hash_u64(state ^ x)
}

/// Hashes a byte string, eight bytes at a time.
pub fn fast_hash_bytes(data: &[u8]) -> (r: u64)
    ensures
        r == spec_fast_hash_bytes(data@),
{
    let len = data.len();
    let mut state: u64 = 0;
    let mut i: usize = 0;
    proof {
        assert(data@.skip(0) =~= data@);
    }
    while i < len
        invariant
            i <= len,
            len == data@.len(),
            spec_hash_fold(state, data@.skip(i as int)) == spec_fast_hash_bytes(data@),
        decreases len - i,
    {
        let rest = len - i;
        let chunk = if rest < 8 { rest } else { 8 };
        let ghost tail = data@.skip(i as int);
        proof {
            lemma_le_val_bound(tail.take(chunk as int));
            lemma_pow256_increases(chunk as nat, 8);
            lemma_pow256_values();
            assert(data@.subrange(i as int, i + chunk) =~= tail.take(chunk as int));
            if rest <= 8 {
                assert(tail.take(chunk as int) =~= tail);
            } else {
                assert(tail.skip(8) =~= data@.skip(i + 8));
            }
        }
        let word = read_le(data, i, chunk);
        state = mix_into(state, word);
        i = i + chunk;
    }
    proof {
        assert(data@.skip(len as int) =~= Seq::<u8>::empty());
    }
    state
}

/// Hashes a sequence of 64-bit lanes, mixed in order.
pub fn fast_hash_lanes(data: &[u64]) -> (r: u64)
    ensures
        r == spec_fast_hash_lanes(data@),
{
    let len = data.len();
    let mut state: u64 = 0;
    let mut i: usize = 0;
    proof {
        assert(data@.skip(0) =~= data@);
    }
    while i < len
        invariant
            i <= len,
            len == data@.len(),
            spec_hash_lanes_fold(state, data@.skip(i as int)) == spec_fast_hash_lanes(data@),
        decreases len - i,
    {
        proof {
            assert(data@.skip(i as int).skip(1) =~= data@.skip(i + 1));
            assert(data@.skip(i as int)[0] == data@[i as int]);
        }
        state = mix_into(state, data[i]);
        i = i + 1;
    }
    proof {
        assert(data@.skip(len as int) =~= Seq::<u64>::empty());
    }
    state
}

/// Deterministic hashing: the hash is a pure function of its input, so equal
/// inputs hash equal within a process and across processes.
pub proof fn lemma_fast_hash_deterministic(a: Seq<u8>, b: Seq<u8>)
    requires
        a == b,
    ensures
        spec_fast_hash_bytes(a) == spec_fast_hash_bytes(b),
{
}

} // verus!
