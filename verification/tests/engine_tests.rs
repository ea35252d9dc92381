use region_cache_engine::codec::TAG_VALUE;
use region_cache_engine::engine::{CfName, SkiplistEngine};
use region_cache_engine::read::RegionCacheMemoryEngine;
use region_cache_engine::region_manager::{CacheRegion, FailedReason, RegionState};
use region_cache_engine::store::{store_seek_ge, store_seek_gt};

fn construct_user_key(i: u64) -> Vec<u8> {
    format!("zk{:08}", i).into_bytes()
}

fn construct_key(i: u64, mvcc: u64) -> Vec<u8> {
    let mut k = format!("zk{:08}", i).into_bytes();
    k.extend_from_slice(&(!mvcc).to_be_bytes());
    k
}

fn construct_value(i: u64, mvcc: u64) -> String {
    format!("value-{:04}-{:04}", i, mvcc)
}

#[test]
fn test_skiplist_engine_evict_range() {
    let mut sl_engine = SkiplistEngine::new();
    for cf in [CfName::Default, CfName::Lock, CfName::Write] {
        for i in 1..60 {
            let key = construct_key(i, 1);
            let val = construct_value(i, 1);
            sl_engine.put(cf, &key, 1, val.into_bytes());
        }
    }

    let start = construct_user_key(20);
    let end = construct_user_key(40);
    sl_engine.delete_range(&start, &end);

    for cf in [CfName::Default, CfName::Lock, CfName::Write] {
        let store = sl_engine.cf_store(cf);
        let mut cursor = store_seek_ge(store, &(Vec::new(), 0, 0));
        for i in (1..20).chain(40..60) {
            let entry = cursor.expect("entry");
            let expected_key = construct_key(i, 1);
            assert_eq!(entry.0 .0, expected_key);
            cursor = store_seek_gt(store, &entry.0);
        }
        assert!(cursor.is_none());
    }
}

fn verify_evict_region_deleted(engine: &RegionCacheMemoryEngine, region: &CacheRegion) {
    // the region's record is gone
    assert!(engine.region_manager.region_state(region.id).is_none());
    // and its keys are absent from the write family
    let store = engine.engine.cf_store(CfName::Write);
    let probe = (region.start.clone(), 0u64, 0u8);
    match store_seek_ge(store, &probe) {
        Some(entry) => assert!(entry.0 .0 >= region.end),
        None => (),
    }
}

#[test]
fn test_evict_region_without_snapshot() {
    let mut engine = RegionCacheMemoryEngine::new();
    let region = CacheRegion::new(1, 0, construct_user_key(0), construct_user_key(30));
    engine.new_region(region.clone());

    engine.set_safe_point(region.id, 5);
    for i in 0..30 {
        let user_key = construct_key(i, 10);
        let v = construct_value(i, 10);
        engine.put(CfName::Write, &user_key, 10, v.into_bytes());
    }

    let new_regions = vec![
        CacheRegion::new(1, 1, construct_user_key(0), construct_user_key(10)),
        CacheRegion::new(2, 1, construct_user_key(10), construct_user_key(20)),
        CacheRegion::new(3, 1, construct_user_key(20), construct_user_key(30)),
    ];

    engine.split_region(&region, new_regions.clone());

    let evict_region = new_regions[1].clone();
    let removable = engine.evict_region(evict_region.id);
    for r in &removable {
        engine.delete_region(r);
    }
    assert_eq!(
        engine.snapshot(&region, 10, 200).unwrap_err(),
        FailedReason::EpochNotMatch
    );
    assert_eq!(
        engine.snapshot(&evict_region, 10, 200).unwrap_err(),
        FailedReason::NotCached
    );

    let r_left = new_regions[0].clone();
    let r_right = new_regions[2].clone();
    let snap_left = engine.snapshot(&r_left, 10, 200).unwrap();

    let mut iter_opt = region_cache_engine::read::IterOptions::new();
    iter_opt.set_lower_bound(&construct_user_key(0));
    iter_opt.set_upper_bound(&construct_user_key(10));
    let mut iter = engine
        .iterator_opt(&snap_left, CfName::Write, iter_opt)
        .unwrap();
    let store = engine.engine.cf_store(CfName::Write);
    iter.seek_to_first(store).unwrap();
    for i in 0..10 {
        assert_eq!(iter.key(), &construct_key(i, 10)[..]);
        assert_eq!(iter.value(), construct_value(i, 10).as_bytes());
        iter.next(store).unwrap();
    }
    assert!(!iter.valid());

    let snap_right = engine.snapshot(&r_right, 10, 200).unwrap();
    let mut iter_opt = region_cache_engine::read::IterOptions::new();
    iter_opt.set_lower_bound(&construct_user_key(20));
    iter_opt.set_upper_bound(&construct_user_key(30));
    let mut iter = engine
        .iterator_opt(&snap_right, CfName::Write, iter_opt)
        .unwrap();
    let store = engine.engine.cf_store(CfName::Write);
    iter.seek_to_first(store).unwrap();
    for i in 20..30 {
        assert_eq!(iter.key(), &construct_key(i, 10)[..]);
        assert_eq!(iter.value(), construct_value(i, 10).as_bytes());
        iter.next(store).unwrap();
    }
    assert!(!iter.valid());

    // verify the key, values are deleted
    verify_evict_region_deleted(&engine, &evict_region);
}

#[test]
fn test_evict_range_with_snapshot() {
    let mut engine = RegionCacheMemoryEngine::new();
    let region = CacheRegion::new(1, 0, construct_user_key(0), construct_user_key(30));
    engine.new_region(region.clone());

    engine.set_safe_point(region.id, 5);
    for i in 0..30 {
        let user_key = construct_key(i, 10);
        let v = construct_value(i, 10);
        engine.put(CfName::Write, &user_key, 10, v.into_bytes());
    }

    let s1 = engine.snapshot(&region, 10, 10).unwrap();
    let s2 = engine.snapshot(&region, 20, 20).unwrap();

    let new_regions = vec![
        CacheRegion::new(1, 1, construct_user_key(0), construct_user_key(10)),
        CacheRegion::new(2, 1, construct_user_key(10), construct_user_key(20)),
        CacheRegion::new(3, 1, construct_user_key(20), construct_user_key(30)),
    ];
    engine.split_region(&region, new_regions.clone());

    let evict_region = new_regions[1].clone();
    let removable = engine.evict_region(evict_region.id);
    assert!(removable.is_empty());

    let r_left = new_regions[0].clone();
    let s3 = engine.snapshot(&r_left, 20, 20).unwrap();
    let r_right = new_regions[2].clone();
    let s4 = engine.snapshot(&r_right, 20, 20).unwrap();

    let removed = engine.release_snapshot(s3);
    assert!(removed.is_empty());
    let removable_left = engine.evict_region(r_left.id);
    assert!(removable_left.is_empty());

    // evict_region is not eligible for delete
    assert_eq!(
        engine.region_manager.region_state(evict_region.id).unwrap(),
        RegionState::PendingEvict
    );

    let removed = engine.release_snapshot(s1);
    assert!(removed.is_empty());
    // evict_region is still not eligible for delete
    assert_eq!(
        engine.region_manager.region_state(evict_region.id).unwrap(),
        RegionState::PendingEvict
    );

    // Now, all snapshots before evicting `evict_region` are released
    let removed = engine.release_snapshot(s2);
    for r in &removed {
        engine.delete_region(r);
    }
    verify_evict_region_deleted(&engine, &evict_region);

    let removed = engine.release_snapshot(s4);
    for r in &removed {
        engine.delete_region(r);
    }
    verify_evict_region_deleted(&engine, &r_left);
}

#[test]
fn seek_skips_other_column_families() {
    // a write in one family never surfaces in another: the families are
    // independent ordered maps
    let mut engine = SkiplistEngine::new();
    engine.put(CfName::Default, b"za", 1, b"x".to_vec());
    let write_store = engine.cf_store(CfName::Write);
    assert!(store_seek_ge(write_store, &(Vec::new(), 0, 0)).is_none());
    let default_store = engine.cf_store(CfName::Default);
    let entry = store_seek_ge(default_store, &(Vec::new(), 0, 0)).unwrap();
    assert_eq!(entry.0 .0, b"za".to_vec());
    assert_eq!(entry.0 .2, TAG_VALUE);
    assert_eq!(entry.1, b"x".to_vec());
}
