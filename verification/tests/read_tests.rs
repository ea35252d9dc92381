use region_cache_engine::engine::CfName;
use region_cache_engine::read::{
    IterOptions, ReadOptions, RegionCacheIterator, RegionCacheMemoryEngine, RegionCacheSnapshot,
};
use region_cache_engine::region_manager::{CacheRegion, FailedReason};

fn new_region(id: u64, start: &[u8], end: &[u8]) -> CacheRegion {
    CacheRegion::new(id, 0, start.to_vec(), end.to_vec())
}

fn construct_user_key(i: u64) -> Vec<u8> {
    format!("zk{:08}", i).into_bytes()
}

fn construct_key(i: u64, mvcc: u64) -> Vec<u8> {
    let mut k = format!("zk{:08}", i).into_bytes();
    k.extend_from_slice(&(!mvcc).to_be_bytes());
    k
}

fn construct_value(i: u64, mvcc: u64) -> String {
    format!("value-{:04}-{:04}", i, mvcc)
}

fn construct_mvcc_key(key: &str, mvcc: u64) -> Vec<u8> {
    let mut k = b"z".to_vec();
    k.extend_from_slice(key.as_bytes());
    k.extend_from_slice(&(!mvcc).to_be_bytes());
    k
}

fn fill_data(
    engine: &mut RegionCacheMemoryEngine,
    cf: CfName,
    key_range: impl Iterator<Item = u64> + Clone,
    mvcc_range: impl Iterator<Item = u64>,
    mut start_seq: u64,
) {
    for mvcc in mvcc_range {
        for i in key_range.clone() {
            let key = construct_key(i, mvcc);
            let val = construct_value(i, mvcc);
            engine.put(cf, &key, start_seq, val.into_bytes());
        }
        start_seq += 1;
    }
}

fn delete_data(
    engine: &mut RegionCacheMemoryEngine,
    cf: CfName,
    key_range: impl Iterator<Item = u64>,
    mvcc_range: impl Iterator<Item = u64> + Clone,
    mut seq: u64,
) {
    for i in key_range {
        for mvcc in mvcc_range.clone() {
            let key = construct_key(i, mvcc);
            engine.delete(cf, &key, seq);
        }
        seq += 1;
    }
}

fn put_key_val(engine: &mut RegionCacheMemoryEngine, key: &str, val: &str, mvcc: u64, seq: u64) {
    let k = construct_mvcc_key(key, mvcc);
    engine.put(CfName::Write, &k, seq, val.as_bytes().to_vec());
}

fn delete_key(engine: &mut RegionCacheMemoryEngine, key: &str, mvcc: u64, seq: u64) {
    let k = construct_mvcc_key(key, mvcc);
    engine.delete(CfName::Write, &k, seq);
}

fn verify_key_value(k: &[u8], v: &[u8], i: u64, mvcc: u64) {
    let key = construct_key(i, mvcc);
    let val = construct_value(i, mvcc);
    assert_eq!(k, &key[..]);
    assert_eq!(v, val.as_bytes());
}

fn verify_key_not_equal(k: &[u8], i: u64, mvcc: u64) {
    let key = construct_key(i, mvcc);
    assert_ne!(k, &key[..]);
}

fn verify_key_values(
    engine: &RegionCacheMemoryEngine,
    iter: &mut RegionCacheIterator,
    key_range: impl Iterator<Item = u32>,
    mvcc_range: impl Iterator<Item = u32> + Clone,
    foward: bool,
    ended: bool,
) {
    let store = engine.engine.cf_store(CfName::Write);
    for i in key_range {
        for mvcc in mvcc_range.clone() {
            let k = iter.key().to_vec();
            let val = iter.value().to_vec();
            verify_key_value(&k, &val, i as u64, mvcc as u64);
            if foward {
                iter.next(store).unwrap();
            } else {
                iter.prev(store).unwrap();
            }
        }
    }
    if ended {
        assert!(!iter.valid());
    }
}

fn bounded_iter(
    engine: &RegionCacheMemoryEngine,
    snap: &RegionCacheSnapshot,
    cf: CfName,
    lower: &[u8],
    upper: &[u8],
) -> RegionCacheIterator {
    let mut opt = IterOptions::new();
    opt.set_lower_bound(lower);
    opt.set_upper_bound(upper);
    engine.iterator_opt(snap, cf, opt).unwrap()
}

#[test]
fn test_snapshot() {
    let mut engine = RegionCacheMemoryEngine::new();
    let region = new_region(1, b"k00", b"k10");
    engine.new_region(region.clone());

    let s1 = engine.snapshot(&region, 5, u64::MAX).unwrap();

    // the safe-point admits reads at or above it, so reads strictly below
    // the new safe-point fail
    assert!(engine.set_safe_point(region.id, 6));
    assert_eq!(
        engine.snapshot(&region, 5, u64::MAX).unwrap_err(),
        FailedReason::TooOldRead
    );
    let s2 = engine.snapshot(&region, 10, u64::MAX).unwrap();

    assert_eq!(engine.region_manager.snapshot_count(region.id, 5), 1);
    assert_eq!(engine.region_manager.snapshot_count(region.id, 10), 1);
    let s3 = engine.snapshot(&region, 10, u64::MAX).unwrap();
    assert_eq!(engine.region_manager.snapshot_count(region.id, 10), 2);

    engine.release_snapshot(s1);
    assert_eq!(engine.region_manager.snapshot_count(region.id, 5), 0);
    engine.release_snapshot(s2);
    assert_eq!(engine.region_manager.snapshot_count(region.id, 10), 1);
    let s4 = engine.snapshot(&region, 10, u64::MAX).unwrap();
    assert_eq!(engine.region_manager.snapshot_count(region.id, 10), 2);
    engine.release_snapshot(s4);
    assert_eq!(engine.region_manager.snapshot_count(region.id, 10), 1);
    engine.release_snapshot(s3);
    assert_eq!(engine.region_manager.snapshot_total(region.id), 0);
}

#[test]
fn test_seek() {
    let mut engine = RegionCacheMemoryEngine::new();
    let region = new_region(1, b"", b"zz");
    engine.new_region(region.clone());

    engine.set_safe_point(region.id, 5);
    put_key_val(&mut engine, "b", "val", 10, 5);
    put_key_val(&mut engine, "c", "vall", 10, 5);

    let snapshot = engine.snapshot(&region, u64::MAX, 100).unwrap();
    let mut iter = bounded_iter(&engine, &snapshot, CfName::Write, &region.start, &region.end);
    let store = engine.engine.cf_store(CfName::Write);

    let key = construct_mvcc_key("b", 10);
    iter.seek(store, &key).unwrap();
    assert_eq!(iter.value(), b"val");
    let key = construct_mvcc_key("d", 10);
    iter.seek(store, &key).unwrap();
    assert!(!iter.valid());

    let key = construct_mvcc_key("b", 10);
    iter.seek_for_prev(store, &key).unwrap();
    assert_eq!(iter.value(), b"val");
    let key = construct_mvcc_key("a", 10);
    iter.seek_for_prev(store, &key).unwrap();
    assert!(!iter.valid());
}

#[test]
fn test_get_value() {
    let mut engine = RegionCacheMemoryEngine::new();
    let region = new_region(1, b"", b"zz");
    engine.new_region(region.clone());

    engine.set_safe_point(region.id, 5);
    fill_data(&mut engine, CfName::Write, 1..10, 1..50, 1);
    // k1 is deleted at seq_num 150 while k49 is deleted at seq num 101
    delete_data(&mut engine, CfName::Write, 1..10, 1..50, 100);

    let opts = ReadOptions::new();
    {
        let snapshot = engine.snapshot(&region, 10, 60).unwrap();
        for i in 1..10 {
            for mvcc in 1..50 {
                let k = construct_key(i, mvcc);
                let v = snapshot
                    .get_value_cf_opt(&engine.engine, &opts, CfName::Write, &k)
                    .unwrap()
                    .unwrap();
                verify_key_value(&k, v.as_slice(), i, mvcc);
            }
            let k = construct_key(i, 50);
            assert!(snapshot
                .get_value_cf_opt(&engine.engine, &opts, CfName::Write, &k)
                .unwrap()
                .is_none());
        }
    }

    // all deletions
    {
        let snapshot = engine.snapshot(&region, 10, u64::MAX).unwrap();
        for i in 1..10 {
            for mvcc in 1..50 {
                let k = construct_key(i, mvcc);
                assert!(snapshot
                    .get_value_cf_opt(&engine.engine, &opts, CfName::Write, &k)
                    .unwrap()
                    .is_none());
            }
        }
    }

    // some deletions
    {
        let snapshot = engine.snapshot(&region, 10, 105).unwrap();
        for mvcc in 1..50 {
            for i in 1..7 {
                let k = construct_key(i, mvcc);
                assert!(snapshot
                    .get_value_cf_opt(&engine.engine, &opts, CfName::Write, &k)
                    .unwrap()
                    .is_none());
            }
            for i in 7..10 {
                let k = construct_key(i, mvcc);
                let v = snapshot
                    .get_value_cf_opt(&engine.engine, &opts, CfName::Write, &k)
                    .unwrap()
                    .unwrap();
                verify_key_value(&k, v.as_slice(), i, mvcc);
            }
        }
    }
}

#[test]
fn test_iterator_forawrd() {
    let mut engine = RegionCacheMemoryEngine::new();
    let region = new_region(1, b"", b"zz");
    engine.new_region(region.clone());

    let step: usize = 2;
    engine.set_safe_point(region.id, 5);
    fill_data(&mut engine, CfName::Write, (1..100).step_by(step), 1..10, 1);
    delete_data(&mut engine, CfName::Write, (1..100).step_by(step), 1..10, 200);
    // the lock and default families hold nothing
    let snapshot = engine.snapshot(&region, 10, u64::MAX).unwrap();
    // boundaries are not set
    assert!(engine
        .iterator_opt(&snapshot, CfName::Lock, IterOptions::new())
        .is_err());

    let lower_bound = construct_user_key(1);
    let upper_bound = construct_user_key(100);

    let mut iter = bounded_iter(&engine, &snapshot, CfName::Lock, &lower_bound, &upper_bound);
    assert!(!iter.seek_to_first(engine.engine.cf_store(CfName::Lock)).unwrap());

    let mut iter = bounded_iter(&engine, &snapshot, CfName::Default, &lower_bound, &upper_bound);
    assert!(!iter.seek_to_first(engine.engine.cf_store(CfName::Default)).unwrap());

    // Not restricted by bounds, no deletion (seq_num 150)
    {
        let snapshot = engine.snapshot(&region, 100, 150).unwrap();
        let mut iter = bounded_iter(&engine, &snapshot, CfName::Write, &lower_bound, &upper_bound);
        let store = engine.engine.cf_store(CfName::Write);
        iter.seek_to_first(store).unwrap();
        verify_key_values(&engine, &mut iter, (1..100).step_by(step), (1..10).rev(), true, true);

        // seek key that is in the store
        let seek_key = construct_key(11, u64::MAX);
        iter.seek(store, &seek_key).unwrap();
        verify_key_values(&engine, &mut iter, (11..100).step_by(step), (1..10).rev(), true, true);

        // seek key that is not in the store
        let seek_key = construct_key(12, u64::MAX);
        iter.seek(store, &seek_key).unwrap();
        verify_key_values(&engine, &mut iter, (13..100).step_by(step), (1..10).rev(), true, true);
    }

    // Not restricted by bounds, some deletions (seq_num 230)
    {
        let snapshot = engine.snapshot(&region, 10, 230).unwrap();
        let mut iter = bounded_iter(&engine, &snapshot, CfName::Write, &lower_bound, &upper_bound);
        let store = engine.engine.cf_store(CfName::Write);
        iter.seek_to_first(store).unwrap();
        verify_key_values(&engine, &mut iter, (63..100).step_by(step), (1..10).rev(), true, true);

        // sequence can see the deletion
        {
            let seek_key = construct_key(21, u64::MAX);
            assert!(iter.seek(store, &seek_key).unwrap());
            verify_key_not_equal(iter.key(), 21, 9);

            let seek_key = construct_key(22, u64::MAX);
            assert!(iter.seek(store, &seek_key).unwrap());
            verify_key_not_equal(iter.key(), 23, 9);
        }

        // sequence cannot see the deletion
        {
            let seek_key = construct_key(65, u64::MAX);
            iter.seek(store, &seek_key).unwrap();
            verify_key_value(&iter.key().to_vec(), &iter.value().to_vec(), 65, 9);

            let seek_key = construct_key(66, u64::MAX);
            iter.seek(store, &seek_key).unwrap();
            verify_key_value(&iter.key().to_vec(), &iter.value().to_vec(), 67, 9);
        }
    }

    // with bounds, no deletion (seq_num 150)
    let lower_bound = construct_user_key(20);
    let upper_bound = construct_user_key(40);
    {
        let snapshot = engine.snapshot(&region, 10, 150).unwrap();
        let mut iter = bounded_iter(&engine, &snapshot, CfName::Write, &lower_bound, &upper_bound);
        let store = engine.engine.cf_store(CfName::Write);

        assert!(iter.seek_to_first(store).unwrap());
        verify_key_values(&engine, &mut iter, (21..40).step_by(step), (1..10).rev(), true, true);

        // seek a key that is below the lower bound is the same with seek_to_first
        let seek_key = construct_key(19, u64::MAX);
        assert!(iter.seek(store, &seek_key).unwrap());
        verify_key_values(&engine, &mut iter, (21..40).step_by(step), (1..10).rev(), true, true);

        // seek a key that is larger or equal to upper bound won't get any key
        let seek_key = construct_key(41, u64::MAX);
        assert!(!iter.seek(store, &seek_key).unwrap());
        assert!(!iter.valid());

        let seek_key = construct_key(32, u64::MAX);
        assert!(iter.seek(store, &seek_key).unwrap());
        verify_key_values(&engine, &mut iter, (33..40).step_by(step), (1..10).rev(), true, true);
    }

    // with bounds, some deletions (seq_num 215)
    {
        let snapshot = engine.snapshot(&region, 10, 215).unwrap();
        let mut iter = bounded_iter(&engine, &snapshot, CfName::Write, &lower_bound, &upper_bound);
        let store = engine.engine.cf_store(CfName::Write);

        // sequence can see the deletion
        {
            let seek_key = construct_key(21, u64::MAX);
            assert!(iter.seek(store, &seek_key).unwrap());
            verify_key_not_equal(iter.key(), 21, 9);

            let seek_key = construct_key(20, u64::MAX);
            assert!(iter.seek(store, &seek_key).unwrap());
            verify_key_not_equal(iter.key(), 21, 9);
        }

        // sequence cannot see the deletion
        {
            let seek_key = construct_key(33, u64::MAX);
            iter.seek(store, &seek_key).unwrap();
            verify_key_value(&iter.key().to_vec(), &iter.value().to_vec(), 33, 9);

            let seek_key = construct_key(32, u64::MAX);
            iter.seek(store, &seek_key).unwrap();
            verify_key_value(&iter.key().to_vec(), &iter.value().to_vec(), 33, 9);
        }
    }
}

#[test]
fn test_iterator_backward() {
    let mut engine = RegionCacheMemoryEngine::new();
    let region = new_region(1, b"", b"zz");
    engine.new_region(region.clone());
    let step: usize = 2;

    engine.set_safe_point(region.id, 5);
    fill_data(&mut engine, CfName::Write, (1..100).step_by(step), 1..10, 1);
    delete_data(&mut engine, CfName::Write, (1..100).step_by(step), 1..10, 200);

    let lower_bound = construct_user_key(1);
    let upper_bound = construct_user_key(100);

    // Not restricted by bounds, no deletion (seq_num 150)
    {
        let snapshot = engine.snapshot(&region, 10, 150).unwrap();
        let mut iter = bounded_iter(&engine, &snapshot, CfName::Write, &lower_bound, &upper_bound);
        let store = engine.engine.cf_store(CfName::Write);
        assert!(iter.seek_to_last(store).unwrap());
        verify_key_values(&engine, &mut iter, (1..100).step_by(step).rev(), 1..10, false, true);

        // seek key that is in the store
        let seek_key = construct_key(81, 0);
        assert!(iter.seek_for_prev(store, &seek_key).unwrap());
        verify_key_values(&engine, &mut iter, (1..82).step_by(step).rev(), 1..10, false, true);

        let seek_key = construct_key(80, 0);
        assert!(iter.seek_for_prev(store, &seek_key).unwrap());
        verify_key_values(&engine, &mut iter, (1..80).step_by(step).rev(), 1..10, false, true);
    }

    let lower_bound = construct_user_key(21);
    let upper_bound = construct_user_key(39);
    {
        let snapshot = engine.snapshot(&region, 10, 150).unwrap();
        let mut iter = bounded_iter(&engine, &snapshot, CfName::Write, &lower_bound, &upper_bound);
        let store = engine.engine.cf_store(CfName::Write);

        assert!(iter.seek_to_last(store).unwrap());
        verify_key_values(&engine, &mut iter, (21..38).step_by(step).rev(), 1..10, false, true);

        // seek a key that is above the upper bound is the same with seek_to_last
        let seek_key = construct_key(40, 0);
        assert!(iter.seek_for_prev(store, &seek_key).unwrap());
        verify_key_values(&engine, &mut iter, (21..38).step_by(step).rev(), 1..10, false, true);

        // seek a key that is less than the lower bound won't get any key
        let seek_key = construct_key(20, u64::MAX);
        assert!(!iter.seek_for_prev(store, &seek_key).unwrap());
        assert!(!iter.valid());

        let seek_key = construct_key(26, 0);
        assert!(iter.seek_for_prev(store, &seek_key).unwrap());
        verify_key_values(&engine, &mut iter, (21..26).step_by(step).rev(), 1..10, false, true);
    }
}
