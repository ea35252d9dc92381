use region_cache_engine::codec::{
    decode_key, encode_key, encode_seek_for_prev_key, encode_seek_key, ValueType,
};
use region_cache_engine::MAX_SEQUENCE_NUMBER;
use region_cache_engine::engine::CfName;
use region_cache_engine::read::{EngineError, IterOptions, ReadOptions, RegionCacheMemoryEngine};
use region_cache_engine::region_manager::{CacheRegion, FailedReason, RegionState};

fn new_region(id: u64, start: &[u8], end: &[u8]) -> CacheRegion {
    CacheRegion::new(id, 0, start.to_vec(), end.to_vec())
}

#[test]
fn codec_round_trip_exact_bytes() {
    // user key, inverted 56-bit sequence big-endian, tag byte
    let enc = encode_key(b"ab", 3, ValueType::Value);
    let rev = MAX_SEQUENCE_NUMBER - 3;
    let mut expected = b"ab".to_vec();
    expected.extend_from_slice(&rev.to_be_bytes());
    expected.push(1);
    assert_eq!(enc, expected);

    let (user, seq, vt) = decode_key(&enc);
    assert_eq!(user, b"ab".to_vec());
    assert_eq!(seq, 3);
    assert_eq!(vt, ValueType::Value);

    let enc = encode_key(b"k", 0, ValueType::Deletion);
    let (user, seq, vt) = decode_key(&enc);
    assert_eq!(user, b"k".to_vec());
    assert_eq!(seq, 0);
    assert_eq!(vt, ValueType::Deletion);

    // a forward seek key sorts at or before every version with a lower or
    // equal sequence; a backward seek key after every version
    let newer = encode_key(b"k", 9, ValueType::Value);
    let older = encode_key(b"k", 2, ValueType::Value);
    assert!(newer < older);
    let seek = encode_seek_key(b"k", 9);
    assert!(seek <= newer);
    let seek_prev = encode_seek_for_prev_key(b"k", 0);
    assert!(seek_prev >= older);
}

#[test]
fn mvcc_visibility_point_reads() {
    // the newest visible value wins unless a newer visible tombstone
    // covers it
    let mut engine = RegionCacheMemoryEngine::new();
    let region = new_region(1, b"", b"zz");
    engine.new_region(region.clone());
    engine.put(CfName::Write, b"zk1", 1, b"v1".to_vec());
    engine.put(CfName::Write, b"zk1", 3, b"v3".to_vec());
    engine.delete(CfName::Write, b"zk1", 5);
    engine.put(CfName::Write, b"zk1", 7, b"v7".to_vec());

    let opts = ReadOptions::new();
    let mut read = |engine: &mut RegionCacheMemoryEngine, snap_seq: u64| {
        let snap = engine.snapshot(&region, 100, snap_seq).unwrap();
        snap.get_value_cf_opt(&engine.engine, &opts, CfName::Write, b"zk1")
            .unwrap()
            .map(|v| v.as_slice().to_vec())
    };
    assert_eq!(read(&mut engine, 1).unwrap(), b"v1");
    assert_eq!(read(&mut engine, 2).unwrap(), b"v1");
    assert_eq!(read(&mut engine, 4).unwrap(), b"v3");
    assert!(read(&mut engine, 5).is_none());
    assert!(read(&mut engine, 6).is_none());
    assert_eq!(read(&mut engine, 7).unwrap(), b"v7");
}

#[test]
fn scan_point_equivalence_three_records() {
    // forward scan, backward scan (reversed) and point reads agree
    let mut engine = RegionCacheMemoryEngine::new();
    let region = new_region(1, b"", b"zz");
    engine.new_region(region.clone());
    engine.put(CfName::Write, b"za", 1, b"1".to_vec());
    engine.put(CfName::Write, b"zb", 2, b"2".to_vec());
    engine.delete(CfName::Write, b"zb", 3);
    engine.put(CfName::Write, b"zc", 2, b"3".to_vec());
    engine.put(CfName::Write, b"zd", 9, b"9".to_vec());

    let snap = engine.snapshot(&region, 100, 5).unwrap();
    let mut opt = IterOptions::new();
    opt.set_lower_bound(&region.start);
    opt.set_upper_bound(&region.end);
    let mut iter = engine.iterator_opt(&snap, CfName::Write, opt).unwrap();
    let store = engine.engine.cf_store(CfName::Write);

    let mut forward = vec![];
    iter.seek_to_first(store).unwrap();
    while iter.valid() {
        forward.push((iter.key().to_vec(), iter.value().to_vec()));
        iter.next(store).unwrap();
    }

    let mut backward = vec![];
    iter.seek_to_last(store).unwrap();
    while iter.valid() {
        backward.push((iter.key().to_vec(), iter.value().to_vec()));
        iter.prev(store).unwrap();
    }
    backward.reverse();
    assert_eq!(forward, backward);
    assert_eq!(
        forward,
        vec![
            (b"za".to_vec(), b"1".to_vec()),
            (b"zc".to_vec(), b"3".to_vec()),
        ]
    );

    let opts = ReadOptions::new();
    for (k, v) in &forward {
        let got = snap
            .get_value_cf_opt(&engine.engine, &opts, CfName::Write, k)
            .unwrap()
            .unwrap();
        assert_eq!(got.as_slice(), &v[..]);
    }
    // and the tombstoned key is absent everywhere
    assert!(snap
        .get_value_cf_opt(&engine.engine, &opts, CfName::Write, b"zb")
        .unwrap()
        .is_none());
}

#[test]
fn bound_exclusivity() {
    // the upper bound is exclusive, the lower inclusive
    let mut engine = RegionCacheMemoryEngine::new();
    let region = new_region(1, b"", b"zz");
    engine.new_region(region.clone());
    engine.put(CfName::Write, b"za", 1, b"1".to_vec());
    engine.put(CfName::Write, b"zb", 1, b"2".to_vec());
    engine.put(CfName::Write, b"zc", 1, b"3".to_vec());

    let snap = engine.snapshot(&region, 100, 10).unwrap();
    let mut opt = IterOptions::new();
    opt.set_lower_bound(b"za");
    opt.set_upper_bound(b"zc");
    let mut iter = engine.iterator_opt(&snap, CfName::Write, opt).unwrap();
    let store = engine.engine.cf_store(CfName::Write);
    let mut seen = vec![];
    iter.seek_to_first(store).unwrap();
    while iter.valid() {
        seen.push(iter.key().to_vec());
        iter.next(store).unwrap();
    }
    // a key equal to the upper bound is never emitted
    assert_eq!(seen, vec![b"za".to_vec(), b"zb".to_vec()]);

    iter.seek_to_last(store).unwrap();
    assert_eq!(iter.key(), b"zb");
    // seeking at the upper bound clamps below it
    iter.seek_for_prev(store, b"zc").unwrap();
    assert_eq!(iter.key(), b"zb");
}

#[test]
fn iterator_error_variants() {
    let mut engine = RegionCacheMemoryEngine::new();
    let region = new_region(1, b"zb", b"zd");
    engine.new_region(region.clone());
    let snap = engine.snapshot(&region, 100, 10).unwrap();

    // both bounds are mandatory
    let mut opt = IterOptions::new();
    opt.set_lower_bound(b"zb");
    match engine.iterator_opt(&snap, CfName::Write, opt) {
        Err(e) => assert_eq!(e, EngineError::BoundaryNotSet),
        Ok(_) => panic!("expected a boundary error"),
    }
    // bounds must lie inside the snapshot's region
    let mut opt = IterOptions::new();
    opt.set_lower_bound(b"za");
    opt.set_upper_bound(b"zc");
    match engine.iterator_opt(&snap, CfName::Write, opt) {
        Err(e) => assert_eq!(e, EngineError::RangeOutOfSnapshot),
        Ok(_) => panic!("expected a range error"),
    }
    let mut opt = IterOptions::new();
    opt.set_lower_bound(b"zb");
    opt.set_upper_bound(b"ze");
    match engine.iterator_opt(&snap, CfName::Write, opt) {
        Err(e) => assert_eq!(e, EngineError::RangeOutOfSnapshot),
        Ok(_) => panic!("expected a range error"),
    }
    // a point read outside the region is refused as well
    let opts = ReadOptions::new();
    assert_eq!(
        snap.get_value_cf_opt(&engine.engine, &opts, CfName::Write, b"za")
            .unwrap_err(),
        EngineError::RangeOutOfSnapshot
    );
}

#[test]
fn snapshot_error_variants() {
    let mut engine = RegionCacheMemoryEngine::new();
    let region = new_region(1, b"za", b"zc");
    engine.new_region(region.clone());
    engine.set_safe_point(1, 10);
    assert_eq!(
        engine.snapshot(&region, 9, 10).unwrap_err(),
        FailedReason::TooOldRead
    );
    let wrong_epoch = CacheRegion::new(1, 7, b"za".to_vec(), b"zc".to_vec());
    assert_eq!(
        engine.snapshot(&wrong_epoch, 100, 10).unwrap_err(),
        FailedReason::EpochNotMatch
    );
    let unknown = CacheRegion::new(9, 0, b"za".to_vec(), b"zc".to_vec());
    assert_eq!(
        engine.snapshot(&unknown, 100, 10).unwrap_err(),
        FailedReason::NotCached
    );
    // a pending-evict region is not cached for new readers
    let snap = engine.snapshot(&region, 100, 10).unwrap();
    engine.evict_region(1);
    assert_eq!(
        engine.snapshot(&region, 100, 10).unwrap_err(),
        FailedReason::NotCached
    );
    engine.release_snapshot(snap);
}

#[test]
fn safe_point_monotonicity() {
    // set_safe_point(r, t2) after set_safe_point(r, t1) leaves the
    // safe-point at max(t1, t2)
    let mut engine = RegionCacheMemoryEngine::new();
    let region = new_region(1, b"za", b"zc");
    engine.new_region(region.clone());
    assert!(engine.set_safe_point(1, 20));
    assert_eq!(engine.region_manager.safe_point_of(1), 20);
    // a lower value is refused and nothing changes
    assert!(!engine.set_safe_point(1, 5));
    assert_eq!(engine.region_manager.safe_point_of(1), 20);
    assert!(engine.set_safe_point(1, 30));
    assert_eq!(engine.region_manager.safe_point_of(1), 30);
    // an unknown region accepts nothing
    assert!(!engine.set_safe_point(9, 1));
}

#[test]
fn snapshot_lifetime_exact_kth_drop() {
    // a region in PendingEvict with k outstanding snapshots becomes
    // deletable after exactly the k-th drop, not before
    let mut engine = RegionCacheMemoryEngine::new();
    let region = new_region(1, b"za", b"zz");
    engine.new_region(region.clone());
    engine.put(CfName::Write, b"zb", 1, b"v".to_vec());

    let s1 = engine.snapshot(&region, 10, 10).unwrap();
    let s2 = engine.snapshot(&region, 20, 20).unwrap();
    let s3 = engine.snapshot(&region, 30, 30).unwrap();

    assert!(engine.evict_region(1).is_empty());
    assert_eq!(
        engine.region_manager.region_state(1).unwrap(),
        RegionState::PendingEvict
    );
    assert!(engine.release_snapshot(s1).is_empty());
    assert_eq!(
        engine.region_manager.region_state(1).unwrap(),
        RegionState::PendingEvict
    );
    assert!(engine.release_snapshot(s2).is_empty());
    assert_eq!(
        engine.region_manager.region_state(1).unwrap(),
        RegionState::PendingEvict
    );
    let removable = engine.release_snapshot(s3);
    assert_eq!(removable.len(), 1);
    assert_eq!(removable[0].id, 1);
    assert_eq!(
        engine.region_manager.region_state(1).unwrap(),
        RegionState::Evicting
    );
    for r in &removable {
        engine.delete_region(r);
    }
    assert!(engine.region_manager.region_state(1).is_none());
}
