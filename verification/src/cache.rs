//! A thread-safe, LRU-cached store of codecs keyed by
//! `(data_shards, parity_shards)`.
use vstd::prelude::*;
use std::sync::Arc;
use lru::LruCache;
use parking_lot::lock_api::{Mutex, MutexGuard};
use parking_lot::RawMutex;
use crate::engine::{new_outcome, Error, SimdReedSolomon};

verus! {

pub const DEFAULT_CACHE_CAPACITY: usize = 64;

#[verifier::external_type_specification]
#[verifier::external_body]
#[verifier::reject_recursive_types(K)]
#[verifier::reject_recursive_types(V)]
#[verifier::reject_recursive_types(S)]
pub struct ExLruCache<K, V, S>(LruCache<K, V, S>);

#[verifier::external_type_specification]
#[verifier::external_body]
pub struct ExDefaultHasher(lru::DefaultHasher);

#[verifier::external_type_specification]
#[verifier::external_body]
pub struct ExRawMutex(RawMutex);

#[verifier::external_type_specification]
#[verifier::external_body]
#[verifier::reject_recursive_types(R)]
#[verifier::reject_recursive_types(T)]
pub struct ExMutex<R, T: ?Sized>(Mutex<R, T>);

/// The cache while its lock is held (the lock's guard, which Verus cannot
/// declare, kept in a private field).
#[verifier::external_body]
pub struct LockedCodecs<'a> {
    guard: MutexGuard<'a, RawMutex, LruCache<(usize, usize), Arc<SimdReedSolomon>>>,
}

/// The most codecs a cache holds: the capacity it was made with.
pub uninterp spec fn lru_capacity(c: LruCache<(usize, usize), Arc<SimdReedSolomon>>) -> nat;

/// The capacity of the cache that a lock holds.
pub uninterp spec fn lock_capacity(
    m: Mutex<RawMutex, LruCache<(usize, usize), Arc<SimdReedSolomon>>>,
) -> nat;

/// `lru::LruCache::new`: an empty cache that holds at most `capacity` codecs;
/// its capacity is the one given. Its contents are not modelled.
#[verifier::external_body]
fn lru_new(capacity: usize) -> (c: LruCache<(usize, usize), Arc<SimdReedSolomon>>)
    ensures
        lru_capacity(c) == capacity,
{
    LruCache::new(capacity)
}

/// `parking_lot::Mutex::new`: a lock around the cache, which holds the cache
/// it was given, with its capacity.
#[verifier::external_body]
fn mutex_new(cache: LruCache<(usize, usize), Arc<SimdReedSolomon>>) -> (m: Mutex<
    RawMutex,
    LruCache<(usize, usize), Arc<SimdReedSolomon>>,
>)
    ensures
        lock_capacity(m) == lru_capacity(cache),
{
    Mutex::new(cache)
}

/// `parking_lot::Mutex::lock`: blocks until the lock is held. Nothing is
/// stated of what the cache behind it holds.
#[verifier::external_body]
fn mutex_lock(m: &Mutex<RawMutex, LruCache<(usize, usize), Arc<SimdReedSolomon>>>) -> LockedCodecs<
    '_,
> {
    LockedCodecs { guard: m.lock() }
}

/// `lru::LruCache::get` through the lock, with the found entry's `Arc`
/// cloned. Nothing is stated of the result: the contents of the cache across
/// lock acquisitions are not modelled.
#[verifier::external_body]
fn lru_get(
    locked: &mut LockedCodecs<'_>,
    key: &(usize, usize),
) -> Option<Arc<SimdReedSolomon>> {
    locked.guard.get(key).cloned()
}

/// `lru::LruCache::put` through the lock. Nothing is stated of it.
#[verifier::external_body]
fn lru_put(
    locked: &mut LockedCodecs<'_>,
    key: (usize, usize),
    value: Arc<SimdReedSolomon>,
) {
    locked.guard.put(key, value);
}

/// Thread-safe LRU cache of Reed-Solomon codec instances.
#[derive(Debug)]
pub struct ReedSolomonCache {
    cache: Mutex<RawMutex, LruCache<(usize, usize), Arc<SimdReedSolomon>>>,
}

impl Default for ReedSolomonCache {
    fn default() -> (c: Self)
        ensures
            c.capacity() == DEFAULT_CACHE_CAPACITY,
    {
        Self::new(DEFAULT_CACHE_CAPACITY)
    }
}

impl ReedSolomonCache {
    /// The most codecs the cache keeps at once.
    pub closed spec fn capacity(&self) -> nat {
        lock_capacity(self.cache)
    }

    /// Creates a new cache with the specified capacity.
    pub fn new(capacity: usize) -> (c: Self)
        ensures
            c.capacity() == capacity,
    {
        Self { cache: mutex_new(lru_new(capacity)) }
    }

    /// Retrieves an existing codec from the cache or instantiates a new one.
    ///
    /// Succeeds exactly when a codec for these counts can be made, and then
    /// gives the codec for these counts.
    pub fn get(&self, data_shards: usize, parity_shards: usize) -> (res: Result<
        Arc<SimdReedSolomon>,
        Error,
    >)
        ensures
            res is Ok <==> new_outcome(data_shards as nat, parity_shards as nat) is Ok,
            res is Ok <==> (1 <= data_shards && 1 <= parity_shards && data_shards + parity_shards
                <= 256),
            res matches Err(e) ==> new_outcome(data_shards as nat, parity_shards as nat) == Err::<
                (),
                Error,
            >(e),
            res matches Ok(rs) ==> rs.wf() && rs.data_count() == data_shards && rs.parity_count()
                == parity_shards,
    {
        let key = (data_shards, parity_shards);
        let mut cache = mutex_lock(&self.cache);
        if let Some(entry) = lru_get(&mut cache, &key) {
            // Every entry is put under its own counts; a codec is handed out
            // only when its counts are the key's.
            if entry.data_shard_count() == data_shards && entry.parity_shard_count()
                == parity_shards {
                proof {
                    use_type_invariant(&*entry);
                }
                return Ok(entry);
            }
        }
        let rs = match SimdReedSolomon::new(data_shards, parity_shards) {
            Ok(rs) => Arc::new(rs),
            Err(e) => {
                return Err(e);
            },
        };
        lru_put(&mut cache, key, Arc::clone(&rs));
        Ok(rs)
    }
}

} // verus!
