use region_cache_engine::engine::CfName;
use region_cache_engine::read::{
    IterOptions, ReadOptions, RegionCacheIterator, RegionCacheMemoryEngine, RegionCacheSnapshot,
};
use region_cache_engine::region_manager::CacheRegion;

fn new_region(id: u64, start: &[u8], end: &[u8]) -> CacheRegion {
    CacheRegion::new(id, 0, start.to_vec(), end.to_vec())
}

fn construct_mvcc_key(key: &str, mvcc: u64) -> Vec<u8> {
    let mut k = b"z".to_vec();
    k.extend_from_slice(key.as_bytes());
    k.extend_from_slice(&(!mvcc).to_be_bytes());
    k
}

fn construct_key(i: u64, mvcc: u64) -> Vec<u8> {
    let mut k = format!("zk{:08}", i).into_bytes();
    k.extend_from_slice(&(!mvcc).to_be_bytes());
    k
}

fn construct_user_key(i: u64) -> Vec<u8> {
    format!("zk{:08}", i).into_bytes()
}

fn construct_value(i: u64, mvcc: u64) -> String {
    format!("value-{:04}-{:04}", i, mvcc)
}

fn put_key_val(engine: &mut RegionCacheMemoryEngine, key: &str, val: &str, mvcc: u64, seq: u64) {
    let k = construct_mvcc_key(key, mvcc);
    engine.put(CfName::Write, &k, seq, val.as_bytes().to_vec());
}

fn delete_key(engine: &mut RegionCacheMemoryEngine, key: &str, mvcc: u64, seq: u64) {
    let k = construct_mvcc_key(key, mvcc);
    engine.delete(CfName::Write, &k, seq);
}

fn get_write(
    engine: &RegionCacheMemoryEngine,
    snapshot: &RegionCacheSnapshot,
    key: &[u8],
) -> Option<Vec<u8>> {
    snapshot
        .get_value_cf_opt(&engine.engine, &ReadOptions::new(), CfName::Write, key)
        .unwrap()
        .map(|v| v.as_slice().to_vec())
}

fn bounded_iter(
    engine: &RegionCacheMemoryEngine,
    snap: &RegionCacheSnapshot,
    cf: CfName,
    lower: &[u8],
    upper: &[u8],
) -> RegionCacheIterator {
    let mut opt = IterOptions::new();
    opt.set_lower_bound(lower);
    opt.set_upper_bound(upper);
    engine.iterator_opt(snap, cf, opt).unwrap()
}

#[test]
fn test_seq_visibility() {
    let mut engine = RegionCacheMemoryEngine::new();
    let region = new_region(1, b"", b"zz");
    engine.new_region(region.clone());

    engine.set_safe_point(region.id, 5);
    put_key_val(&mut engine, "aaa", "va1", 10, 1);
    put_key_val(&mut engine, "aaa", "va2", 10, 3);
    delete_key(&mut engine, "aaa", 10, 4);
    put_key_val(&mut engine, "aaa", "va4", 10, 6);

    put_key_val(&mut engine, "bbb", "vb1", 10, 2);
    put_key_val(&mut engine, "bbb", "vb2", 10, 4);

    put_key_val(&mut engine, "ccc", "vc1", 10, 2);
    put_key_val(&mut engine, "ccc", "vc2", 10, 4);
    put_key_val(&mut engine, "ccc", "vc3", 10, 5);
    delete_key(&mut engine, "ccc", 10, 6);

    // seq num 1
    {
        let snapshot = engine.snapshot(&region, u64::MAX, 1).unwrap();
        let mut iter = bounded_iter(&engine, &snapshot, CfName::Write, &region.start, &region.end);
        let store = engine.engine.cf_store(CfName::Write);
        iter.seek_to_first(store).unwrap();
        assert_eq!(iter.value(), b"va1");
        assert!(!iter.next(store).unwrap());
        let key = construct_mvcc_key("aaa", 10);
        assert_eq!(get_write(&engine, &snapshot, &key).unwrap(), b"va1");
        assert!(iter.seek(store, &key).unwrap());
        assert_eq!(iter.value(), b"va1");

        let key = construct_mvcc_key("bbb", 10);
        assert!(get_write(&engine, &snapshot, &key).is_none());
        assert!(!iter.seek(store, &key).unwrap());

        let key = construct_mvcc_key("ccc", 10);
        assert!(get_write(&engine, &snapshot, &key).is_none());
        assert!(!iter.seek(store, &key).unwrap());
    }

    // seq num 2
    {
        let snapshot = engine.snapshot(&region, u64::MAX, 2).unwrap();
        let mut iter = bounded_iter(&engine, &snapshot, CfName::Write, &region.start, &region.end);
        let store = engine.engine.cf_store(CfName::Write);
        iter.seek_to_first(store).unwrap();
        assert_eq!(iter.value(), b"va1");
        iter.next(store).unwrap();
        assert_eq!(iter.value(), b"vb1");
        iter.next(store).unwrap();
        assert_eq!(iter.value(), b"vc1");
        assert!(!iter.next(store).unwrap());
    }

    // seq num 5
    {
        let snapshot = engine.snapshot(&region, u64::MAX, 5).unwrap();
        let mut iter = bounded_iter(&engine, &snapshot, CfName::Write, &region.start, &region.end);
        let store = engine.engine.cf_store(CfName::Write);
        iter.seek_to_first(store).unwrap();
        assert_eq!(iter.value(), b"vb2");
        iter.next(store).unwrap();
        assert_eq!(iter.value(), b"vc3");
        assert!(!iter.next(store).unwrap());
    }

    // seq num 6
    {
        let snapshot = engine.snapshot(&region, u64::MAX, 6).unwrap();
        let mut iter = bounded_iter(&engine, &snapshot, CfName::Write, &region.start, &region.end);
        let store = engine.engine.cf_store(CfName::Write);
        iter.seek_to_first(store).unwrap();
        assert_eq!(iter.value(), b"va4");
        iter.next(store).unwrap();
        assert_eq!(iter.value(), b"vb2");
        assert!(!iter.next(store).unwrap());

        let key = construct_mvcc_key("aaa", 10);
        assert_eq!(get_write(&engine, &snapshot, &key).unwrap(), b"va4");
        assert!(iter.seek(store, &key).unwrap());
        assert_eq!(iter.value(), b"va4");

        let key = construct_mvcc_key("bbb", 10);
        assert_eq!(get_write(&engine, &snapshot, &key).unwrap(), b"vb2");
        assert!(iter.seek(store, &key).unwrap());
        assert_eq!(iter.value(), b"vb2");

        let key = construct_mvcc_key("ccc", 10);
        assert!(get_write(&engine, &snapshot, &key).is_none());
        assert!(!iter.seek(store, &key).unwrap());
    }
}

#[test]
fn test_seq_visibility_backward() {
    let mut engine = RegionCacheMemoryEngine::new();
    let region = new_region(1, b"", b"zz");
    engine.new_region(region.clone());

    engine.set_safe_point(region.id, 5);
    put_key_val(&mut engine, "aaa", "va1", 10, 2);
    put_key_val(&mut engine, "aaa", "va2", 10, 4);
    put_key_val(&mut engine, "aaa", "va3", 10, 5);
    delete_key(&mut engine, "aaa", 10, 6);

    put_key_val(&mut engine, "bbb", "vb1", 10, 2);
    put_key_val(&mut engine, "bbb", "vb2", 10, 4);

    put_key_val(&mut engine, "ccc", "vc1", 10, 1);
    put_key_val(&mut engine, "ccc", "vc2", 10, 3);
    delete_key(&mut engine, "ccc", 10, 4);
    put_key_val(&mut engine, "ccc", "vc4", 10, 6);

    // seq num 1
    {
        let snapshot = engine.snapshot(&region, u64::MAX, 1).unwrap();
        let mut iter = bounded_iter(&engine, &snapshot, CfName::Write, &region.start, &region.end);
        let store = engine.engine.cf_store(CfName::Write);
        iter.seek_to_last(store).unwrap();
        assert_eq!(iter.value(), b"vc1");
        assert!(!iter.prev(store).unwrap());
        let key = construct_mvcc_key("aaa", 10);
        assert!(!iter.seek_for_prev(store, &key).unwrap());

        let key = construct_mvcc_key("bbb", 10);
        assert!(!iter.seek_for_prev(store, &key).unwrap());

        let key = construct_mvcc_key("ccc", 10);
        assert!(iter.seek_for_prev(store, &key).unwrap());
        assert_eq!(iter.value(), b"vc1");
    }

    // seq num 2
    {
        let snapshot = engine.snapshot(&region, u64::MAX, 2).unwrap();
        let mut iter = bounded_iter(&engine, &snapshot, CfName::Write, &region.start, &region.end);
        let store = engine.engine.cf_store(CfName::Write);
        iter.seek_to_last(store).unwrap();
        assert_eq!(iter.value(), b"vc1");
        iter.prev(store).unwrap();
        assert_eq!(iter.value(), b"vb1");
        iter.prev(store).unwrap();
        assert_eq!(iter.value(), b"va1");
        assert!(!iter.prev(store).unwrap());
    }

    // seq num 5
    {
        let snapshot = engine.snapshot(&region, u64::MAX, 5).unwrap();
        let mut iter = bounded_iter(&engine, &snapshot, CfName::Write, &region.start, &region.end);
        let store = engine.engine.cf_store(CfName::Write);
        iter.seek_to_last(store).unwrap();
        assert_eq!(iter.value(), b"vb2");
        iter.prev(store).unwrap();
        assert_eq!(iter.value(), b"va3");
        assert!(!iter.prev(store).unwrap());
    }

    // seq num 6
    {
        let snapshot = engine.snapshot(&region, u64::MAX, 6).unwrap();
        let mut iter = bounded_iter(&engine, &snapshot, CfName::Write, &region.start, &region.end);
        let store = engine.engine.cf_store(CfName::Write);
        iter.seek_to_last(store).unwrap();
        assert_eq!(iter.value(), b"vc4");
        iter.prev(store).unwrap();
        assert_eq!(iter.value(), b"vb2");
        assert!(!iter.prev(store).unwrap());

        let key = construct_mvcc_key("ccc", 10);
        assert!(iter.seek_for_prev(store, &key).unwrap());
        assert_eq!(iter.value(), b"vc4");

        let key = construct_mvcc_key("bbb", 10);
        assert!(iter.seek_for_prev(store, &key).unwrap());
        assert_eq!(iter.value(), b"vb2");

        let key = construct_mvcc_key("aaa", 10);
        assert!(!iter.seek_for_prev(store, &key).unwrap());
    }
}

#[test]
fn test_iter_user_skip() {
    // backward, all put
    {
        let mut engine = RegionCacheMemoryEngine::new();
        let region = new_region(1, b"", b"zz");
        engine.new_region(region.clone());
        engine.set_safe_point(region.id, 5);

        let mut s = 1;
        for seq in 2..50 {
            put_key_val(&mut engine, "a", "val", 10, s + 1);
            for i in 2..50 {
                let v = construct_value(i, i);
                put_key_val(&mut engine, "b", v.as_str(), 10, s + i);
            }

            let snapshot = engine.snapshot(&region, 10, s + seq).unwrap();
            let mut iter =
                bounded_iter(&engine, &snapshot, CfName::Write, &region.start, &region.end);
            let store = engine.engine.cf_store(CfName::Write);
            assert!(iter.seek_to_last(store).unwrap());
            let k = construct_mvcc_key("b", 10);
            let v = construct_value(seq, seq);
            assert_eq!(iter.key(), &k[..]);
            assert_eq!(iter.value(), v.as_bytes());

            assert!(iter.prev(store).unwrap());
            let k = construct_mvcc_key("a", 10);
            assert_eq!(iter.key(), &k[..]);
            assert_eq!(iter.value(), b"val");
            assert!(!iter.prev(store).unwrap());
            assert!(!iter.valid());
            s += 100;
        }
    }

    // backward, all deletes
    {
        let mut engine = RegionCacheMemoryEngine::new();
        let region = new_region(1, b"", b"zz");
        engine.new_region(region.clone());
        engine.set_safe_point(region.id, 5);

        let mut s = 1;
        for seq in 2..50 {
            put_key_val(&mut engine, "a", "val", 10, s + 1);
            for i in 2..50 {
                delete_key(&mut engine, "b", 10, s + i);
            }

            let snapshot = engine.snapshot(&region, 10, s + seq).unwrap();
            let mut iter =
                bounded_iter(&engine, &snapshot, CfName::Write, &region.start, &region.end);
            let store = engine.engine.cf_store(CfName::Write);
            assert!(iter.seek_to_last(store).unwrap());
            let k = construct_mvcc_key("a", 10);
            assert_eq!(iter.key(), &k[..]);
            assert_eq!(iter.value(), b"val");
            assert!(!iter.prev(store).unwrap());
            assert!(!iter.valid());
            s += 100;
        }
    }

    // backward, all deletes except for last put, last put's seq
    {
        let mut engine = RegionCacheMemoryEngine::new();
        let region = new_region(1, b"", b"zz");
        engine.new_region(region.clone());
        engine.set_safe_point(region.id, 5);
        put_key_val(&mut engine, "a", "val", 10, 1);
        for i in 2..50 {
            delete_key(&mut engine, "b", 10, i);
        }
        let v = construct_value(50, 50);
        put_key_val(&mut engine, "b", v.as_str(), 10, 50);
        let snapshot = engine.snapshot(&region, 10, 50).unwrap();
        let mut iter = bounded_iter(&engine, &snapshot, CfName::Write, &region.start, &region.end);
        let store = engine.engine.cf_store(CfName::Write);
        assert!(iter.seek_to_last(store).unwrap());
        let k = construct_mvcc_key("b", 10);
        let v = construct_value(50, 50);
        assert_eq!(iter.key(), &k[..]);
        assert_eq!(iter.value(), v.as_bytes());

        assert!(iter.prev(store).unwrap());
        let k = construct_mvcc_key("a", 10);
        assert_eq!(iter.key(), &k[..]);
        assert_eq!(iter.value(), b"val");
        assert!(!iter.prev(store).unwrap());
        assert!(!iter.valid());
    }

    // all deletes except for last put, deletions' seq
    {
        let mut engine = RegionCacheMemoryEngine::new();
        let region = new_region(1, b"", b"zz");
        engine.new_region(region.clone());
        engine.set_safe_point(region.id, 5);
        let mut s = 1;
        for seq in 2..50 {
            for i in 2..50 {
                delete_key(&mut engine, "b", 10, s + i);
            }
            let v = construct_value(50, 50);
            put_key_val(&mut engine, "b", v.as_str(), 10, s + 50);

            let snapshot = engine.snapshot(&region, 10, s + seq).unwrap();
            let mut iter =
                bounded_iter(&engine, &snapshot, CfName::Write, &region.start, &region.end);
            let store = engine.engine.cf_store(CfName::Write);
            assert!(!iter.seek_to_first(store).unwrap());
            assert!(!iter.valid());

            assert!(!iter.seek_to_last(store).unwrap());
            assert!(!iter.valid());

            s += 100;
        }
    }
}

#[test]
fn test_prefix_seek() {
    let mut engine = RegionCacheMemoryEngine::new();
    let region = new_region(1, b"zk000", b"zk100");
    engine.new_region(region.clone());

    engine.set_safe_point(region.id, 5);
    for i in 1..5 {
        for mvcc in 10..20 {
            let user_key = construct_key(i, mvcc);
            let v = format!("v{:02}{:02}", i, mvcc);
            engine.put(CfName::Write, &user_key, 10, v.into_bytes());
        }
    }

    let lower_bound = construct_user_key(1);
    let upper_bound = construct_user_key(5);
    let snapshot = engine.snapshot(&region, u64::MAX, u64::MAX).unwrap();
    let mut iter_opt = IterOptions::new();
    iter_opt.set_upper_bound(&upper_bound);
    iter_opt.set_lower_bound(&lower_bound);
    iter_opt.set_prefix_same_as_start(true);
    let mut iter = engine.iterator_opt(&snapshot, CfName::Write, iter_opt).unwrap();
    let store = engine.engine.cf_store(CfName::Write);

    // prefix seek, forward
    for i in 1..5 {
        let seek_key = construct_key(i, 100);
        assert!(iter.seek(store, &seek_key).unwrap());
        let mut start = 19;
        while iter.valid() {
            let user_key = iter.key();
            let mvcc = !u64::from_be_bytes(user_key[user_key.len() - 8..].try_into().unwrap());
            assert_eq!(mvcc, start);
            let v = format!("v{:02}{:02}", i, start);
            assert_eq!(v.as_bytes(), iter.value());
            start -= 1;
            iter.next(store).unwrap();
        }
        assert_eq!(start, 9);
    }

    // prefix seek, backward
    for i in 1..5 {
        let seek_key = construct_key(i, 0);
        assert!(iter.seek_for_prev(store, &seek_key).unwrap());
        let mut start = 10;
        while iter.valid() {
            let user_key = iter.key();
            let mvcc = !u64::from_be_bytes(user_key[user_key.len() - 8..].try_into().unwrap());
            assert_eq!(mvcc, start);
            let v = format!("v{:02}{:02}", i, start);
            assert_eq!(v.as_bytes(), iter.value());
            start += 1;
            iter.prev(store).unwrap();
        }
        assert_eq!(start, 20);
    }
}

#[test]
fn test_tombstone_count_when_iterating() {
    let mut engine = RegionCacheMemoryEngine::new();
    let region = new_region(1, b"", b"zz");
    engine.new_region(region.clone());

    engine.set_safe_point(region.id, 5);
    delete_key(&mut engine, "a", 10, 5);
    delete_key(&mut engine, "b", 10, 5);
    put_key_val(&mut engine, "c", "valc", 10, 5);
    put_key_val(&mut engine, "d", "vald", 10, 5);
    put_key_val(&mut engine, "e", "vale", 10, 5);
    delete_key(&mut engine, "f", 10, 5);
    delete_key(&mut engine, "g", 10, 5);

    let snapshot = engine.snapshot(&region, u64::MAX, 100).unwrap();
    let mut iter = bounded_iter(&engine, &snapshot, CfName::Write, &region.start, &region.end);
    let store = engine.engine.cf_store(CfName::Write);
    iter.seek_to_first(store).unwrap();
    while iter.valid() {
        iter.next(store).unwrap();
    }

    let collector = iter.metrics_collector();
    assert_eq!(4, collector.internal_delete_skipped_count());
    assert_eq!(3, collector.internal_key_skipped_count());

    iter.seek_to_last(store).unwrap();
    while iter.valid() {
        iter.prev(store).unwrap();
    }
    let collector = iter.metrics_collector();
    assert_eq!(8, collector.internal_delete_skipped_count());
    assert_eq!(10, collector.internal_key_skipped_count());
}
