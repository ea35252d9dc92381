use region_cache_engine::engine::CfName;
use region_cache_engine::read::{IterOptions, RegionCacheIterator, RegionCacheMemoryEngine,
    RegionCacheSnapshot};
use region_cache_engine::region_manager::CacheRegion;

fn new_region(id: u64, start: &[u8], end: &[u8]) -> CacheRegion {
    CacheRegion::new(id, 0, start.to_vec(), end.to_vec())
}

fn bounded_iter(
    engine: &RegionCacheMemoryEngine,
    snap: &RegionCacheSnapshot,
    lower: &[u8],
    upper: &[u8],
) -> RegionCacheIterator {
    let mut opt = IterOptions::new();
    opt.set_lower_bound(lower);
    opt.set_upper_bound(upper);
    engine.iterator_opt(snap, CfName::Default, opt).unwrap()
}

fn set_up_for_iteator(
    puts: &[(&[u8], &[u8])],
    wb_sequence: u64,
    snap_sequence: u64,
) -> (RegionCacheMemoryEngine, RegionCacheSnapshot, RegionCacheIterator) {
    let mut engine = RegionCacheMemoryEngine::new();
    let region = new_region(1, b"", b"zz");
    engine.new_region(region.clone());

    // a write batch assigns consecutive sequence numbers from its base
    let mut seq = wb_sequence;
    for (k, v) in puts {
        engine.put(CfName::Default, k, seq, v.to_vec());
        seq += 1;
    }

    let snap = engine.snapshot(&region, 100, snap_sequence).unwrap();
    let iter = bounded_iter(&engine, &snap, &region.start, &region.end);
    (engine, snap, iter)
}

#[test]
fn test_iterator() {
    let (engine, _snap, mut iter) = set_up_for_iteator(
        &[(b"za", b"1"), (b"zb", b"2"), (b"zc", b"3"), (b"zd", b"4")],
        100,
        200,
    );
    let store = engine.engine.cf_store(CfName::Default);

    iter.seek(store, b"zc").unwrap();
    assert!(iter.valid());
    iter.prev(store).unwrap();
    assert!(iter.valid());
    assert_eq!(iter.key(), b"zb");
    assert_eq!(iter.value(), b"2");

    iter.next(store).unwrap();
    assert!(iter.valid());
    assert_eq!(iter.key(), b"zc");
    assert_eq!(iter.value(), b"3");

    iter.seek_for_prev(store, b"zc").unwrap();
    assert!(iter.valid());
    iter.next(store).unwrap();
    assert!(iter.valid());
    assert_eq!(iter.key(), b"zd");
    assert_eq!(iter.value(), b"4");

    iter.prev(store).unwrap();
    assert!(iter.valid());
    assert_eq!(iter.key(), b"zc");
    assert_eq!(iter.value(), b"3");
}

#[test]
fn test_next_with_newer_seq() {
    let (mut engine, _snap, mut iter) = set_up_for_iteator(
        &[(b"z0", b"0"), (b"za", b"b"), (b"zc", b"d"), (b"zd", b"e")],
        100,
        110,
    );

    engine.put(CfName::Default, b"zb", 200, b"f".to_vec());
    let store = engine.engine.cf_store(CfName::Default);

    iter.seek(store, b"za").unwrap();
    assert_eq!(iter.key(), b"za");
    assert_eq!(iter.value(), b"b");

    iter.next(store).unwrap();
    assert_eq!(iter.key(), b"zc");
    assert_eq!(iter.value(), b"d");

    iter.seek_for_prev(store, b"zb").unwrap();
    assert_eq!(iter.key(), b"za");
    assert_eq!(iter.value(), b"b");

    iter.next(store).unwrap();
    assert_eq!(iter.key(), b"zc");
    assert_eq!(iter.value(), b"d");

    iter.seek(store, b"zd").unwrap();
    assert_eq!(iter.key(), b"zd");
    assert_eq!(iter.value(), b"e");

    iter.prev(store).unwrap();
    assert_eq!(iter.key(), b"zc");
    assert_eq!(iter.value(), b"d");

    iter.prev(store).unwrap();
    assert_eq!(iter.key(), b"za");
    assert_eq!(iter.value(), b"b");

    iter.prev(store).unwrap();
    iter.seek_for_prev(store, b"zd").unwrap();
    assert_eq!(iter.key(), b"zd");
    assert_eq!(iter.value(), b"e");

    iter.prev(store).unwrap();
    assert_eq!(iter.key(), b"zc");
    assert_eq!(iter.value(), b"d");

    iter.prev(store).unwrap();
    assert_eq!(iter.key(), b"za");
    assert_eq!(iter.value(), b"b");
}

#[test]
fn test_reverse_direction() {
    let (engine, _snap, _iter) = set_up_for_iteator(
        &[
            (b"a", b"val_a1"),   // seq 100
            (b"b", b"val_b1"),   // seq 101
            (b"c", b"val_c1"),   // seq 102
            (b"a", b"val_a2"),   // seq 103
            (b"b", b"val_b2"),   // seq 104
            (b"c", b"val_c2"),   // seq 105
            (b"a", b"val_a3"),   // seq 106
            (b"b", b"val_b3"),   // seq 107
            (b"c", b"val_c3"),   // seq 108
        ],
        100,
        100,
    );
    let region = new_region(1, b"", b"z");

    // For sequence number 102
    let mut engine2 = engine;
    let snap = engine2.snapshot(&region, 100, 102).unwrap();
    let mut iter = bounded_iter(&engine2, &snap, &region.start, &region.end);
    let store = engine2.engine.cf_store(CfName::Default);
    iter.seek(store, b"c").unwrap();
    assert_eq!(iter.key(), b"c");
    assert_eq!(iter.value(), b"val_c1");

    iter.prev(store).unwrap();
    assert_eq!(iter.key(), b"b");
    assert_eq!(iter.value(), b"val_b1");

    iter.seek(store, b"b").unwrap();
    assert_eq!(iter.key(), b"b");
    assert_eq!(iter.value(), b"val_b1");

    iter.prev(store).unwrap();
    assert_eq!(iter.key(), b"a");
    assert_eq!(iter.value(), b"val_a1");

    iter.next(store).unwrap();
    assert_eq!(iter.key(), b"b");
    assert_eq!(iter.value(), b"val_b1");

    iter.seek_for_prev(store, b"a").unwrap();
    assert_eq!(iter.key(), b"a");
    assert_eq!(iter.value(), b"val_a1");

    iter.next(store).unwrap();
    assert_eq!(iter.key(), b"b");
    assert_eq!(iter.value(), b"val_b1");

    iter.next(store).unwrap();
    assert_eq!(iter.key(), b"c");
    assert_eq!(iter.value(), b"val_c1");

    iter.next(store).unwrap();
    assert!(!iter.valid());

    // For sequence number 104
    let snap = engine2.snapshot(&region, 100, 104).unwrap();
    let mut iter = bounded_iter(&engine2, &snap, &region.start, &region.end);
    let store = engine2.engine.cf_store(CfName::Default);
    iter.seek(store, b"c").unwrap();
    assert_eq!(iter.key(), b"c");
    assert_eq!(iter.value(), b"val_c1");

    iter.prev(store).unwrap();
    assert_eq!(iter.key(), b"b");
    assert_eq!(iter.value(), b"val_b2");

    iter.seek(store, b"b").unwrap();
    assert_eq!(iter.key(), b"b");
    assert_eq!(iter.value(), b"val_b2");

    iter.prev(store).unwrap();
    assert_eq!(iter.key(), b"a");
    assert_eq!(iter.value(), b"val_a2");

    iter.next(store).unwrap();
    assert_eq!(iter.key(), b"b");
    assert_eq!(iter.value(), b"val_b2");

    iter.seek_for_prev(store, b"a").unwrap();
    assert_eq!(iter.key(), b"a");
    assert_eq!(iter.value(), b"val_a2");

    iter.next(store).unwrap();
    assert_eq!(iter.key(), b"b");
    assert_eq!(iter.value(), b"val_b2");

    iter.next(store).unwrap();
    assert_eq!(iter.key(), b"c");
    assert_eq!(iter.value(), b"val_c1");

    iter.next(store).unwrap();
    assert!(!iter.valid());

    // For sequence number 108
    let snap = engine2.snapshot(&region, 100, 108).unwrap();
    let mut iter = bounded_iter(&engine2, &snap, &region.start, &region.end);
    let store = engine2.engine.cf_store(CfName::Default);
    iter.seek(store, b"c").unwrap();
    assert_eq!(iter.key(), b"c");
    assert_eq!(iter.value(), b"val_c3");

    iter.prev(store).unwrap();
    assert_eq!(iter.key(), b"b");
    assert_eq!(iter.value(), b"val_b3");

    iter.seek(store, b"b").unwrap();
    assert_eq!(iter.key(), b"b");
    assert_eq!(iter.value(), b"val_b3");

    iter.prev(store).unwrap();
    assert_eq!(iter.key(), b"a");
    assert_eq!(iter.value(), b"val_a3");

    iter.next(store).unwrap();
    assert_eq!(iter.key(), b"b");
    assert_eq!(iter.value(), b"val_b3");

    iter.seek_for_prev(store, b"a").unwrap();
    assert_eq!(iter.key(), b"a");
    assert_eq!(iter.value(), b"val_a3");

    iter.next(store).unwrap();
    assert_eq!(iter.key(), b"b");
    assert_eq!(iter.value(), b"val_b3");

    iter.next(store).unwrap();
    assert_eq!(iter.key(), b"c");
    assert_eq!(iter.value(), b"val_c3");

    iter.next(store).unwrap();
    assert!(!iter.valid());
}
