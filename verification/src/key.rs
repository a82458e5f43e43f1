//! Keys of the table: how a key is hashed (through aHash) and compared.

use std::hash::Hash;
use std::hash::Hasher;
use vstd::prelude::*;

verus! {

/// What the table needs of a key: a hash that depends on the key alone, and
/// an equality test that agrees with equality of values.
pub trait DominusKey: Copy + Sized {
    /// The hash of the key, as `hash_key` computes it.
    spec fn spec_hash(self) -> u64;

    /// Hashes the key with aHash's fixed-key hasher.
    fn hash_key(&self) -> (h: u64)
        ensures
            h == self.spec_hash(),
    ;

    /// Tells whether two keys are equal.
    fn same_key(&self, other: &Self) -> (b: bool)
        ensures
            b == (*self == *other),
    ;
}

/// The hash that `ahash::AHasher::default()` gives an `i32` fed to it
/// through `Hash::hash`.
pub uninterp spec fn ahash_of_i32(key: i32) -> u64;

/// The hash that `ahash::AHasher::default()` gives an `i64`.
pub uninterp spec fn ahash_of_i64(key: i64) -> u64;

/// The hash that `ahash::AHasher::default()` gives a `u32`.
pub uninterp spec fn ahash_of_u32(key: u32) -> u64;

/// The hash that `ahash::AHasher::default()` gives a `u64`.
pub uninterp spec fn ahash_of_u64(key: u64) -> u64;

/// Calls `ahash::AHasher::default()`, `<i32 as Hash>::hash` and
/// `Hasher::finish`. Claimed: the result is a function of the key alone.
/// This holds because the crate is built without aHash's `runtime-rng` and
/// `compile-time-rng` features, so `AHasher::default()` keys every hasher
/// with the same built-in constants (for a given compilation target).
#[verifier::external_body]
fn ahash_i32(key: i32) -> (h: u64)
    ensures
        h == ahash_of_i32(key),
{
    let mut hasher = ahash::AHasher::default();
    key.hash(&mut hasher);
    hasher.finish()
}

/// As `ahash_i32`, for `<i64 as Hash>::hash`.
#[verifier::external_body]
fn ahash_i64(key: i64) -> (h: u64)
    ensures
        h == ahash_of_i64(key),
{
    let mut hasher = ahash::AHasher::default();
    key.hash(&mut hasher);
    hasher.finish()
}

/// As `ahash_i32`, for `<u32 as Hash>::hash`.
#[verifier::external_body]
fn ahash_u32(key: u32) -> (h: u64)
    ensures
        h == ahash_of_u32(key),
{
    let mut hasher = ahash::AHasher::default();
    key.hash(&mut hasher);
    hasher.finish()
}

/// As `ahash_i32`, for `<u64 as Hash>::hash`.
#[verifier::external_body]
fn ahash_u64(key: u64) -> (h: u64)
    ensures
        h == ahash_of_u64(key),
{
    let mut hasher = ahash::AHasher::default();
    key.hash(&mut hasher);
    hasher.finish()
}

impl DominusKey for i32 {
    open spec fn spec_hash(self) -> u64 {
        ahash_of_i32(self)
    }

    fn hash_key(&self) -> (h: u64) {
        ahash_i32(*self)
    }

    fn same_key(&self, other: &Self) -> (b: bool) {
        *self == *other
    }
}

impl DominusKey for i64 {
    open spec fn spec_hash(self) -> u64 {
        ahash_of_i64(self)
    }

    fn hash_key(&self) -> (h: u64) {
        ahash_i64(*self)
    }

    fn same_key(&self, other: &Self) -> (b: bool) {
        *self == *other
    }
}

impl DominusKey for u32 {
    open spec fn spec_hash(self) -> u64 {
        ahash_of_u32(self)
    }

    fn hash_key(&self) -> (h: u64) {
        ahash_u32(*self)
    }

    fn same_key(&self, other: &Self) -> (b: bool) {
        *self == *other
    }
}

impl DominusKey for u64 {
    open spec fn spec_hash(self) -> u64 {
        ahash_of_u64(self)
    }

    fn hash_key(&self) -> (h: u64) {
        ahash_u64(*self)
    }

    fn same_key(&self, other: &Self) -> (b: bool) {
        *self == *other
    }
}

/// Every key type hashes its keys with aHash: the hash of a key is the aHash
/// of that very key, for every key of every type.
pub proof fn lemma_keys_hash_with_ahash(a: i32, b: i64, c: u32, d: u64)
    ensures
        a.spec_hash() == ahash_of_i32(a),
        b.spec_hash() == ahash_of_i64(b),
        c.spec_hash() == ahash_of_u32(c),
        d.spec_hash() == ahash_of_u64(d),
{
}

} // verus!
