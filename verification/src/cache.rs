//! The tiered-cache front ends. Without a tiered cache engine behind them,
//! these caches keep nothing: lookups miss and insertions are dropped, so
//! every read falls through to the columns and the disk. The controls of
//! such an engine's background daemon (its health, graceful shutdown,
//! suspension and resumption) forward to the engine alone, so they have no
//! counterpart here.

use vstd::prelude::*;
use core::marker::PhantomData;

verus! {

/// The memory budget of a tiered cache.
#[derive(Clone, Debug)]
pub struct Config;

impl Config {
    /// A budget of `budget` bytes of which `percent` go to the hot tier.
    pub fn with_memory_budget(budget: usize, percent: usize) -> (c: Self) {
        Config
    }
}

/// A tiered cache that holds nothing.
pub struct DualCacheFF<K, V> {
    marker: PhantomData<(K, V)>,
}

impl<K, V> DualCacheFF<K, V> {
    /// An empty cache.
    pub fn new(config: Config) -> (c: Self) {
        DualCacheFF { marker: PhantomData }
    }

    /// Drops the pair.
    pub fn insert(&self, key: K, value: V) {
    }

    /// Nothing is held, so nothing is removed.
    pub fn remove(&self, key: &K) -> (r: Option<V>)
        ensures
            r is None,
    {
        None
    }

    /// Nothing is held, so every lookup misses.
    pub fn get(&self, key: &K) -> (r: Option<&V>)
        ensures
            r is None,
    {
        None
    }
}

/// Tracks which entities are hot, per partition.
pub trait HotIndexProvider: Send + Sync {
    type Handle;

    /// A handle for the calling thread.
    fn register_thread(&self) -> Self::Handle;

    /// Whether entity `entity_id` of partition `partition_id` is hot.
    fn is_hot(&self, partition_id: u32, entity_id: usize, handle: &Self::Handle) -> bool;

    /// Marks entities of a partition as hot.
    fn prewarm(&self, partition_id: u32, entity_ids: &[usize]);
}

impl HotIndexProvider for DualCacheFF<(u32, usize), ()> {
    type Handle = ();

    fn register_thread(&self) {
    }

    fn is_hot(&self, partition_id: u32, entity_id: usize, handle: &()) -> (b: bool)
        ensures
            !b,
    {
        false
    }

    fn prewarm(&self, partition_id: u32, entity_ids: &[usize]) {
    }
}

/// A cache with the calling thread's registration handled for the caller.
pub struct HitCache<K, V> {
    pub inner: DualCacheFF<K, V>,
}

impl<K, V: Clone> HitCache<K, V> {
    /// An empty cache.
    pub fn new() -> (c: Self) {
        HitCache { inner: DualCacheFF::new(Config) }
    }

    /// A copy of the value cached under `key`.
    pub fn get(&self, key: &K) -> (r: Option<V>)
        ensures
            r is None,
    {
        match self.inner.get(key) {
            Some(v) => Some(v.clone()),
            None => None,
        }
    }

    /// Caches `value` under `key`.
    pub fn insert(&self, key: K, value: V) {
        self.inner.insert(key, value)
    }
}

impl<K, V: Clone> Default for HitCache<K, V> {
    fn default() -> (c: Self) {
        HitCache::new()
    }
}

/// A cache with a managed background daemon.
pub struct CdDBManagedCache<K, V> {
    pub inner: DualCacheFF<K, V>,
}

impl<K, V: Clone> CdDBManagedCache<K, V> {
    /// An empty cache with the given budget.
    pub fn new(config: Config) -> (c: Self) {
        CdDBManagedCache { inner: DualCacheFF::new(config) }
    }

    /// Caches `value` under `key`.
    pub fn insert(&self, key: K, value: V) {
        self.inner.insert(key, value)
    }

    /// A copy of the value cached under `key`.
    pub fn get(&self, key: &K) -> (r: Option<V>)
        ensures
            r is None,
    {
        match self.inner.get(key) {
            Some(v) => Some(v.clone()),
            None => None,
        }
    }

    /// Removes `key`.
    pub fn remove(&self, key: &K) {
        let _ = self.inner.remove(key);
    }

    /// Places the pair in the hot tier; without a tiered engine there is
    /// no tier to place it in.
    pub fn pin_to_t1(&self, key: K, value: V) {
    }
}

/// How the cache subsystem runs.
#[derive(Debug, Clone, Copy)]
pub struct CacheConfig {
    pub daemon_mode: bool,
    pub cata_tuning: bool,
}

impl Default for CacheConfig {
    fn default() -> (c: Self)
        ensures
            c.daemon_mode,
            !c.cata_tuning,
    {
        CacheConfig { daemon_mode: true, cata_tuning: false }
    }
}

} // verus!
