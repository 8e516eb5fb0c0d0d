//! Key abstractions shared by the tables.
//!
//! A [`Key`] is a value that an open-addressing table can store: it has an
//! abstraction (its [`View`]), a distinguished "zero" pattern reserved as the
//! empty-slot marker, a 64-bit hash, and an executable equality that decides
//! equality of abstractions. Hash and zero-ness are functions of the
//! abstraction, so two keys that abstract alike probe alike.

use vstd::prelude::*;
use crate::hash::{spec_fast_hash_u64, fast_hash_u64};

verus! {

/// A value with a fast, deterministic 64-bit hash.
pub trait FastHash: View + Sized {
    /// The hash as a mathematical function of the value.
    spec fn fast_hash_spec(self) -> u64;

    fn fast_hash(&self) -> (r: u64)
        ensures
            r == self.fast_hash_spec(),
    ;
}

/// A fixed-width key for an open-addressing table with a zero sentinel.
///
/// The table stores keys whose zero pattern is excluded: that pattern marks
/// an empty slot, so a key equal to it must be kept elsewhere (the escape
/// slot of the enclosing table).
pub trait Key: View + Sized {
    /// Whether the abstraction is the reserved zero pattern.
    spec fn excluded_abs(a: <Self as View>::V) -> bool;

    /// The hash of an abstraction, which fixes its home slot.
    spec fn hash_abs(a: <Self as View>::V) -> u64;

    /// Whether `this` is the reserved zero pattern.
    fn equals_zero(this: &Self) -> (r: bool)
        ensures
            r == Self::excluded_abs(this@),
    ;

    fn hash(&self) -> (r: u64)
        ensures
            r == Self::hash_abs(self@),
    ;

    /// Equality of keys, deciding equality of their abstractions.
    fn key_eq(&self, other: &Self) -> (r: bool)
        ensures
            r == (self@ == other@),
    ;

    /// At most one abstraction is the zero pattern, so every zero key stands
    /// for the same entry.
    proof fn lemma_excluded_unique(a: <Self as View>::V, b: <Self as View>::V)
        requires
            Self::excluded_abs(a),
            Self::excluded_abs(b),
        ensures
            a == b,
    ;

    /// The zero key itself, for key types that have one.
    fn zero_key() -> (r: Self)
        requires
            exists|a: <Self as View>::V| Self::excluded_abs(a),
        ensures
            Self::excluded_abs(r@),
    ;
}

/// A value that can absorb another on a key collision, as when two tables
/// are merged and both hold an entry for the same key.
pub trait Combine: Sized {
    /// The combined value as a mathematical function of the two inputs.
    spec fn combine_spec(self, other: Self) -> Self;

    fn combine(self, other: Self) -> (r: Self)
        ensures
            r == self.combine_spec(other),
    ;
}

/// Counters combine by wrapping addition.
impl Combine for u64 {
    open spec fn combine_spec(self, other: Self) -> Self {
        vstd::wrapping::u64_specs::wrapping_add(self, other)
    }

    fn combine(self, other: Self) -> Self {
        self.wrapping_add(other)
    }
}

impl Combine for u32 {
    open spec fn combine_spec(self, other: Self) -> Self {
        vstd::wrapping::u32_specs::wrapping_add(self, other)
    }

    fn combine(self, other: Self) -> Self {
        self.wrapping_add(other)
    }
}

impl FastHash for u64 {
    open spec fn fast_hash_spec(self) -> u64 {
        spec_fast_hash_u64(self)
    }

    fn fast_hash(&self) -> u64 {
        fast_hash_u64(*self)
    }
}

impl Key for u64 {
    open spec fn excluded_abs(a: u64) -> bool {
        a == 0
    }

    open spec fn hash_abs(a: u64) -> u64 {
        spec_fast_hash_u64(a)
    }

    fn equals_zero(this: &Self) -> bool {
        *this == 0
    }

    fn hash(&self) -> u64 {
        fast_hash_u64(*self)
    }

    fn key_eq(&self, other: &Self) -> bool {
        *self == *other
    }

    proof fn lemma_excluded_unique(a: u64, b: u64) {
    }

    fn zero_key() -> Self {
        0
    }
}

impl FastHash for u32 {
    open spec fn fast_hash_spec(self) -> u64 {
        spec_fast_hash_u64(self as u64)
    }

    fn fast_hash(&self) -> u64 {
        fast_hash_u64(*self as u64)
    }
}

impl Key for u32 {
    open spec fn excluded_abs(a: u32) -> bool {
        a == 0
    }

    open spec fn hash_abs(a: u32) -> u64 {
        spec_fast_hash_u64(a as u64)
    }

    fn equals_zero(this: &Self) -> bool {
        *this == 0
    }

    fn hash(&self) -> u64 {
        fast_hash_u64(*self as u64)
    }

    fn key_eq(&self, other: &Self) -> bool {
        *self == *other
    }

    proof fn lemma_excluded_unique(a: u32, b: u32) {
    }

    fn zero_key() -> Self {
        0
    }
}

impl FastHash for u16 {
    open spec fn fast_hash_spec(self) -> u64 {
        spec_fast_hash_u64(self as u64)
    }

    fn fast_hash(&self) -> u64 {
        fast_hash_u64(*self as u64)
    }
}

impl Key for u16 {
    open spec fn excluded_abs(a: u16) -> bool {
        a == 0
    }

    open spec fn hash_abs(a: u16) -> u64 {
        spec_fast_hash_u64(a as u64)
    }

    fn equals_zero(this: &Self) -> bool {
        *this == 0
    }

    fn hash(&self) -> u64 {
        fast_hash_u64(*self as u64)
    }

    fn key_eq(&self, other: &Self) -> bool {
        *self == *other
    }

    proof fn lemma_excluded_unique(a: u16, b: u16) {
    }

    fn zero_key() -> Self {
        0
    }
}

impl FastHash for u8 {
    open spec fn fast_hash_spec(self) -> u64 {
        spec_fast_hash_u64(self as u64)
    }

    fn fast_hash(&self) -> u64 {
        fast_hash_u64(*self as u64)
    }
}

impl Key for u8 {
    open spec fn excluded_abs(a: u8) -> bool {
        a == 0
    }

    open spec fn hash_abs(a: u8) -> u64 {
        spec_fast_hash_u64(a as u64)
    }

    fn equals_zero(this: &Self) -> bool {
        *this == 0
    }

    fn hash(&self) -> u64 {
        fast_hash_u64(*self as u64)
    }

    fn key_eq(&self, other: &Self) -> bool {
        *self == *other
    }

    proof fn lemma_excluded_unique(a: u8, b: u8) {
    }

    fn zero_key() -> Self {
        0
    }
}


impl FastHash for i64 {
    open spec fn fast_hash_spec(self) -> u64 {
        spec_fast_hash_u64(self as u64)
    }

    fn fast_hash(&self) -> u64 {
        fast_hash_u64(*self as u64)
    }
}

impl Key for i64 {
    open spec fn excluded_abs(a: i64) -> bool {
        a == 0
    }

    open spec fn hash_abs(a: i64) -> u64 {
        spec_fast_hash_u64(a as u64)
    }

    fn equals_zero(this: &Self) -> bool {
        *this == 0
    }

    fn hash(&self) -> u64 {
        fast_hash_u64(*self as u64)
    }

    fn key_eq(&self, other: &Self) -> bool {
        *self == *other
    }

    proof fn lemma_excluded_unique(a: i64, b: i64) {
    }

    fn zero_key() -> Self {
        0
    }
}

impl FastHash for i32 {
    open spec fn fast_hash_spec(self) -> u64 {
        spec_fast_hash_u64(self as u64)
    }

    fn fast_hash(&self) -> u64 {
        fast_hash_u64(*self as u64)
    }
}

impl Key for i32 {
    open spec fn excluded_abs(a: i32) -> bool {
        a == 0
    }

    open spec fn hash_abs(a: i32) -> u64 {
        spec_fast_hash_u64(a as u64)
    }

    fn equals_zero(this: &Self) -> bool {
        *this == 0
    }

    fn hash(&self) -> u64 {
        fast_hash_u64(*self as u64)
    }

    fn key_eq(&self, other: &Self) -> bool {
        *self == *other
    }

    proof fn lemma_excluded_unique(a: i32, b: i32) {
    }

    fn zero_key() -> Self {
        0
    }
}

impl FastHash for i16 {
    open spec fn fast_hash_spec(self) -> u64 {
        spec_fast_hash_u64(self as u64)
    }

    fn fast_hash(&self) -> u64 {
        fast_hash_u64(*self as u64)
    }
}

impl Key for i16 {
    open spec fn excluded_abs(a: i16) -> bool {
        a == 0
    }

    open spec fn hash_abs(a: i16) -> u64 {
        spec_fast_hash_u64(a as u64)
    }

    fn equals_zero(this: &Self) -> bool {
        *this == 0
    }

    fn hash(&self) -> u64 {
        fast_hash_u64(*self as u64)
    }

    fn key_eq(&self, other: &Self) -> bool {
        *self == *other
    }

    proof fn lemma_excluded_unique(a: i16, b: i16) {
    }

    fn zero_key() -> Self {
        0
    }
}

impl FastHash for i8 {
    open spec fn fast_hash_spec(self) -> u64 {
        spec_fast_hash_u64(self as u64)
    }

    fn fast_hash(&self) -> u64 {
        fast_hash_u64(*self as u64)
    }
}

impl Key for i8 {
    open spec fn excluded_abs(a: i8) -> bool {
        a == 0
    }

    open spec fn hash_abs(a: i8) -> u64 {
        spec_fast_hash_u64(a as u64)
    }

    fn equals_zero(this: &Self) -> bool {
        *this == 0
    }

    fn hash(&self) -> u64 {
        fast_hash_u64(*self as u64)
    }

    fn key_eq(&self, other: &Self) -> bool {
        *self == *other
    }

    proof fn lemma_excluded_unique(a: i8, b: i8) {
    }

    fn zero_key() -> Self {
        0
    }
}

/// A key paired with its precomputed hash, so that repeated probing does not
/// rehash. The cached hash always equals the key's own hash.
pub struct WithHash<K: Key> {
    hash: u64,
    key: K,
}

#[verifier::type_invariant]
spec fn with_hash_inv<K: Key>(w: WithHash<K>) -> bool {
    w.hash == K::hash_abs(w.key@)
}

impl<K: Key> View for WithHash<K> {
    type V = <K as View>::V;

    closed spec fn view(&self) -> Self::V {
        self.key@
    }
}

impl<K: Key> WithHash<K> {
    pub closed spec fn key_spec(self) -> K {
        self.key
    }

    /// The pair abstracts to its key's abstraction.
    pub proof fn lemma_view_is_key(self)
        ensures
            self@ == self.key_spec()@,
    {
    }

    pub fn new(key: K) -> (r: Self)
        ensures
            r@ == key@,
            r.key_spec() == key,
    {
        Self { hash: key.hash(), key }
    }

    pub fn key(self) -> (r: K)
        ensures
            r == self.key_spec(),
    {
        self.key
    }
}

impl<K: Key> Key for WithHash<K> {
    open spec fn excluded_abs(a: <K as View>::V) -> bool {
        K::excluded_abs(a)
    }

    open spec fn hash_abs(a: <K as View>::V) -> u64 {
        K::hash_abs(a)
    }

    fn equals_zero(this: &Self) -> bool {
        K::equals_zero(&this.key)
    }

    fn hash(&self) -> u64 {
        proof {
            use_type_invariant(self);
        }
        self.hash
    }

    fn key_eq(&self, other: &Self) -> bool {
        self.key.key_eq(&other.key)
    }

    proof fn lemma_excluded_unique(a: <K as View>::V, b: <K as View>::V) {
        K::lemma_excluded_unique(a, b);
    }

    fn zero_key() -> Self {
        WithHash::new(K::zero_key())
    }
}

} // verus!
