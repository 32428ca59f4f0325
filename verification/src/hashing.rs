//! Keyed hashing through `ahash`, with seeds that the library keeps itself so
//! that one map always hashes one key to one value.

use vstd::prelude::*;

verus! {

/// The value that `ahash::RandomState::with_seeds(k0, k1, k2, k3).hash_one(key)`
/// gives for a string key.
pub uninterp spec fn ahash_str(k0: u64, k1: u64, k2: u64, k3: u64, key: Seq<char>) -> u64;

/// The value that `ahash::RandomState::with_seeds(k0, k1, k2, k3).hash_one(key)`
/// gives for a `u64` key.
pub uninterp spec fn ahash_u64(k0: u64, k1: u64, k2: u64, k3: u64, key: u64) -> u64;

/// The four seeds of one hasher.
#[derive(Clone, Copy, Debug)]
pub struct HashSeeds {
    pub k0: u64,
    pub k1: u64,
    pub k2: u64,
    pub k3: u64,
}

/// Calls `ahash::RandomState::new()` and hashes `salt` with it: a number that
/// depends on the process's random source, of which nothing is promised.
#[verifier::external_body]
fn random_seed_word(salt: u64) -> u64 {
    ahash::RandomState::new().hash_one(salt)
}

/// Calls `ahash::RandomState::with_seeds(..).hash_one(key)` on a string. The
/// crate documents that states built from the same seeds produce identical
/// hashers, and it picks its algorithm when it is compiled, so in one build
/// the result is a function of the seeds and the key; it is named as such.
/// Which value it is, and that it differs between builds with and without
/// hardware AES, is left unsaid.
#[verifier::external_body]
fn with_seeds_hash_str(seeds: &HashSeeds, key: &str) -> (h: u64)
    ensures
        h == ahash_str(seeds.k0, seeds.k1, seeds.k2, seeds.k3, key@),
{
    ahash::RandomState::with_seeds(seeds.k0, seeds.k1, seeds.k2, seeds.k3).hash_one(key)
}

/// Calls `ahash::RandomState::with_seeds(..).hash_one(key)` on a `u64`; named
/// for the same reason as the string form.
#[verifier::external_body]
fn with_seeds_hash_u64(seeds: &HashSeeds, key: u64) -> (h: u64)
    ensures
        h == ahash_u64(seeds.k0, seeds.k1, seeds.k2, seeds.k3, key),
{
    ahash::RandomState::with_seeds(seeds.k0, seeds.k1, seeds.k2, seeds.k3).hash_one(key)
}

impl HashSeeds {
    /// Fresh seeds drawn from `ahash`'s random source.
    pub fn random() -> (s: HashSeeds) {
        HashSeeds {
            k0: random_seed_word(0),
            k1: random_seed_word(1),
            k2: random_seed_word(2),
            k3: random_seed_word(3),
        }
    }

    /// Seeds given by the caller.
    pub fn from_words(k0: u64, k1: u64, k2: u64, k3: u64) -> (s: HashSeeds)
        ensures
            s == (HashSeeds { k0, k1, k2, k3 }),
    {
        HashSeeds { k0, k1, k2, k3 }
    }

    /// Hash of a string under these seeds.
    pub fn hash_str(&self, key: &str) -> (h: u64)
        ensures
            h == ahash_str(self.k0, self.k1, self.k2, self.k3, key@),
    {
        with_seeds_hash_str(self, key)
    }

    /// Hash of a `u64` under these seeds.
    pub fn hash_u64(&self, key: u64) -> (h: u64)
        ensures
            h == ahash_u64(self.k0, self.k1, self.k2, self.k3, key),
    {
        with_seeds_hash_u64(self, key)
    }
}

/// A key that a map of this crate can hold: it hashes under a set of seeds to
/// a value fixed by its view, and two keys are the same key when their views
/// are equal.
pub trait MapKey: View + Sized {
    spec fn spec_hash(seeds: HashSeeds, key: Self::V) -> u64;

    fn key_hash(&self, seeds: &HashSeeds) -> (h: u64)
        ensures
            h == Self::spec_hash(*seeds, self@),
    ;

    fn key_eq(&self, other: &Self) -> (b: bool)
        ensures
            b == (self@ == other@),
    ;
}

impl MapKey for String {
    open spec fn spec_hash(seeds: HashSeeds, key: Seq<char>) -> u64 {
        ahash_str(seeds.k0, seeds.k1, seeds.k2, seeds.k3, key)
    }

    fn key_hash(&self, seeds: &HashSeeds) -> (h: u64) {
        seeds.hash_str(self.as_str())
    }

    fn key_eq(&self, other: &Self) -> (b: bool) {
        *self == *other
    }
}

impl MapKey for usize {
    open spec fn spec_hash(seeds: HashSeeds, key: usize) -> u64 {
        ahash_u64(seeds.k0, seeds.k1, seeds.k2, seeds.k3, key as u64)
    }

    fn key_hash(&self, seeds: &HashSeeds) -> (h: u64) {
        seeds.hash_u64(*self as u64)
    }

    fn key_eq(&self, other: &Self) -> (b: bool) {
        *self == *other
    }
}

impl MapKey for u64 {
    open spec fn spec_hash(seeds: HashSeeds, key: u64) -> u64 {
        ahash_u64(seeds.k0, seeds.k1, seeds.k2, seeds.k3, key)
    }

    fn key_hash(&self, seeds: &HashSeeds) -> (h: u64) {
        seeds.hash_u64(*self)
    }

    fn key_eq(&self, other: &Self) -> (b: bool) {
        *self == *other
    }
}

impl MapKey for u32 {
    open spec fn spec_hash(seeds: HashSeeds, key: u32) -> u64 {
        ahash_u64(seeds.k0, seeds.k1, seeds.k2, seeds.k3, key as u64)
    }

    fn key_hash(&self, seeds: &HashSeeds) -> (h: u64) {
        seeds.hash_u64(*self as u64)
    }

    fn key_eq(&self, other: &Self) -> (b: bool) {
        *self == *other
    }
}

impl MapKey for i32 {
    open spec fn spec_hash(seeds: HashSeeds, key: i32) -> u64 {
        ahash_u64(seeds.k0, seeds.k1, seeds.k2, seeds.k3, key as u64)
    }

    fn key_hash(&self, seeds: &HashSeeds) -> (h: u64) {
        seeds.hash_u64(*self as u64)
    }

    fn key_eq(&self, other: &Self) -> (b: bool) {
        *self == *other
    }
}

} // verus!
