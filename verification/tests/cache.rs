use std::sync::Arc;
use solana_turbine_simd::cache::ReedSolomonCache;
use solana_turbine_simd::Error;

#[test]
fn test_reed_solomon_cache() {
    let cache = ReedSolomonCache::default();
    let rs1 = cache.get(32, 32).expect("Get (32, 32)");
    let rs2 = cache.get(32, 32).expect("Get (32, 32) cached");
    assert!(Arc::ptr_eq(&rs1, &rs2));

    let rs3 = cache.get(16, 16).expect("Get (16, 16)");
    assert!(!Arc::ptr_eq(&rs1, &rs3));
    assert_eq!(rs3.data_shard_count(), 16);
    assert_eq!(rs3.parity_shard_count(), 16);
}

#[test]
fn test_cache_errors_and_eviction() {
    let cache = ReedSolomonCache::new(1);
    assert_eq!(cache.get(0, 3).unwrap_err(), Error::TooFewDataShards);
    assert_eq!(cache.get(300, 3).unwrap_err(), Error::TooManyShards);
    let a = cache.get(4, 2).unwrap();
    let b = cache.get(5, 2).unwrap();
    let c = cache.get(4, 2).unwrap();
    assert!(!Arc::ptr_eq(&a, &b));
    assert!(!Arc::ptr_eq(&a, &c));
    assert_eq!(c.data_shard_count(), 4);
}
