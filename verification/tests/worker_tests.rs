use region_cache_engine::engine::CfName;
use region_cache_engine::worker::{
    check_abort, conclude_apply, delete_strategy_for_cf, ingest_maybe_stall, pre_apply_check,
    DeleteStrategy, JobStatus, PendingDeleteRanges, Runner, SnapError, Task,
};

fn insert_range(m: &mut PendingDeleteRanges, id: u64, s: &str, e: &str, stale_sequence: u64) {
    m.insert(id, s.as_bytes().to_vec(), e.as_bytes().to_vec(), stale_sequence);
}

fn view(p: &region_cache_engine::worker::PendingRange) -> (u64, Vec<u8>, Vec<u8>, u64) {
    (
        p.region_id,
        p.start_key.clone(),
        p.end_key.clone(),
        p.stale_sequence,
    )
}

#[test]
fn test_pending_delete_ranges() {
    let mut pending_delete_ranges = PendingDeleteRanges::new();
    let id = 0;

    let timeout1 = 10;
    insert_range(&mut pending_delete_ranges, id, "a", "c", timeout1);
    insert_range(&mut pending_delete_ranges, id, "m", "n", timeout1);
    insert_range(&mut pending_delete_ranges, id, "x", "z", timeout1);
    insert_range(&mut pending_delete_ranges, id + 1, "f", "i", timeout1);
    insert_range(&mut pending_delete_ranges, id + 1, "p", "t", timeout1);
    assert_eq!(pending_delete_ranges.len(), 5);

    //  a____c    f____i    m____n    p____t    x____z
    //              g___________________q
    // when we want to insert [g, q), we first extract overlap ranges,
    // which are [f, i), [m, n), [p, t)
    let timeout2 = 12;
    let overlap_ranges = pending_delete_ranges.drain_overlap_ranges(b"g", b"q");
    let overlap: Vec<_> = overlap_ranges.iter().map(view).collect();
    assert_eq!(
        overlap,
        vec![
            (id + 1, b"f".to_vec(), b"i".to_vec(), timeout1),
            (id, b"m".to_vec(), b"n".to_vec(), timeout1),
            (id + 1, b"p".to_vec(), b"t".to_vec(), timeout1),
        ]
    );
    assert_eq!(pending_delete_ranges.len(), 2);
    insert_range(&mut pending_delete_ranges, id + 2, "g", "q", timeout2);
    assert_eq!(pending_delete_ranges.len(), 3);

    // at t1, [a, c) and [x, z) will timeout
    {
        let now = 11;
        let ranges = pending_delete_ranges.stale_ranges(now);
        let got: Vec<_> = ranges
            .iter()
            .map(|(rid, s, e)| (*rid, s.clone(), e.clone()))
            .collect();
        assert_eq!(
            got,
            vec![
                (id, b"a".to_vec(), b"c".to_vec()),
                (id, b"x".to_vec(), b"z".to_vec()),
            ]
        );
        for (_, start, _) in ranges {
            pending_delete_ranges.remove(&start);
        }
        assert_eq!(pending_delete_ranges.len(), 1);
    }

    // at t2, [g, q) will timeout
    {
        let now = 14;
        let ranges = pending_delete_ranges.stale_ranges(now);
        let got: Vec<_> = ranges
            .iter()
            .map(|(rid, s, e)| (*rid, s.clone(), e.clone()))
            .collect();
        assert_eq!(got, vec![(id + 2, b"g".to_vec(), b"q".to_vec())]);
        for (_, start, _) in ranges {
            pending_delete_ranges.remove(&start);
        }
        assert_eq!(pending_delete_ranges.len(), 0);
    }
}

#[test]
fn overlap_free_after_inserts() {
    // whatever sequence of coalescing inserts built the map, its entries
    // stay pairwise disjoint
    let mut runner = Runner::new(1024, false, false, 2);
    let ranges: &[(&str, &str)] = &[("a", "c"), ("m", "n"), ("f", "i"), ("p", "t"), ("g", "q"), ("b", "s")];
    let mut id = 1;
    for (s, e) in ranges {
        runner.insert_pending_delete_range(id, s.as_bytes().to_vec(), e.as_bytes().to_vec(), id * 10, 5);
        id += 1;
    }
    let m = &runner.pending_delete_ranges;
    for i in 0..m.ranges.len() {
        for j in 0..m.ranges.len() {
            if i != j {
                let a = &m.ranges[i];
                let b = &m.ranges[j];
                let overlap = a.start_key < b.end_key && b.start_key < a.end_key;
                assert!(!overlap);
            }
        }
    }
}

#[test]
fn coalescing_insert_takes_union_hull() {
    let mut runner = Runner::new(1024, false, false, 2);
    runner.insert_pending_delete_range(1, b"a".to_vec(), b"c".to_vec(), 10, 100);
    runner.insert_pending_delete_range(2, b"f".to_vec(), b"i".to_vec(), 10, 100);
    runner.insert_pending_delete_range(3, b"m".to_vec(), b"n".to_vec(), 10, 100);
    // inserting [g, q) drains [f, i) and [m, n); since both are stale
    // below the oldest snapshot, they are handed back for file deletion
    let (df, pos) = runner.insert_pending_delete_range(4, b"g".to_vec(), b"q".to_vec(), 12, 100);
    let drained: Vec<_> = df.iter().map(|(id, s, e)| (*id, s.clone(), e.clone())).collect();
    assert_eq!(
        drained,
        vec![
            (2, b"f".to_vec(), b"i".to_vec()),
            (3, b"m".to_vec(), b"n".to_vec()),
        ]
    );
    let entry = &runner.pending_delete_ranges.ranges[pos];
    assert_eq!(entry.start_key, b"f".to_vec());
    assert_eq!(entry.end_key, b"q".to_vec());
    assert_eq!(entry.stale_sequence, 12);
    assert_eq!(runner.pending_delete_ranges.len(), 2);
}

#[test]
fn stale_sweep_plan_respects_stall_and_cap() {
    let mut runner = Runner::new(1024, false, false, 2);
    for i in 0..70u64 {
        let s = format!("k{:03}a", i).into_bytes();
        let e = format!("k{:03}b", i).into_bytes();
        runner.insert_pending_delete_range(i, s, e, 5, 100);
    }
    // a stalled or offlined store defers the sweep entirely
    assert!(runner.plan_stale_cleanup(100, true, false).is_empty());
    assert!(runner.plan_stale_cleanup(100, false, true).is_empty());
    // only entries below the oldest live snapshot qualify
    assert!(runner.plan_stale_cleanup(5, false, false).is_empty());
    // and at most 64 per sweep
    let plan = runner.plan_stale_cleanup(100, false, false);
    assert_eq!(plan.len(), 64);
    // in key order from the start
    assert_eq!(plan[0].1, b"k000a".to_vec());
}

#[test]
fn apply_queue_is_fifo_and_stall_aware() {
    let mut runner = Runner::new(1024, false, false, 2);
    runner.push_pending_apply(Task::Apply { region_id: 1, peer_id: 10 });
    runner.push_pending_apply(Task::Apply { region_id: 2, peer_id: 20 });
    // write stall defers everything
    assert!(runner.next_pending_apply(true, true).is_none());
    // the engine refusing the apply defers as well
    assert!(runner.next_pending_apply(false, false).is_none());
    match runner.next_pending_apply(false, true).unwrap() {
        Task::Apply { region_id, .. } => assert_eq!(region_id, 1),
        _ => panic!("expected apply"),
    }
    match runner.next_pending_apply(false, true).unwrap() {
        Task::Apply { region_id, .. } => assert_eq!(region_id, 2),
        _ => panic!("expected apply"),
    }
    assert!(runner.next_pending_apply(false, true).is_none());
}

#[test]
fn pre_apply_decides_missing_file_and_abort() {
    // cancellation wins over everything, then the file must exist
    assert_eq!(pre_apply_check(JobStatus::Cancelling, true), Err(SnapError::Abort));
    assert_eq!(pre_apply_check(JobStatus::Cancelling, false), Err(SnapError::Abort));
    assert_eq!(
        pre_apply_check(JobStatus::Running, false),
        Err(SnapError::MissingSnapshotFile)
    );
    assert_eq!(pre_apply_check(JobStatus::Running, true), Ok(()));
}

#[test]
fn apply_job_lifecycle() {
    // cooperative cancellation aborts without tombstoning the peer
    assert_eq!(check_abort(JobStatus::Cancelling), Err(SnapError::Abort));
    assert_eq!(check_abort(JobStatus::Running), Ok(()));
    assert_eq!(
        conclude_apply(Ok(()), JobStatus::Running),
        (JobStatus::Finished, false)
    );
    assert_eq!(
        conclude_apply(Err(SnapError::Abort), JobStatus::Cancelling),
        (JobStatus::Cancelled, false)
    );
    // a missing snapshot file or an engine failure tombstones the peer
    assert_eq!(
        conclude_apply(Err(SnapError::MissingSnapshotFile), JobStatus::Running),
        (JobStatus::Failed, true)
    );
    assert_eq!(
        conclude_apply(Err(SnapError::Io), JobStatus::Running),
        (JobStatus::Failed, true)
    );
}

#[test]
fn delete_strategies_per_cf() {
    assert_eq!(
        delete_strategy_for_cf(CfName::Lock, true, false),
        DeleteStrategy::DeleteByKey
    );
    assert_eq!(
        delete_strategy_for_cf(CfName::Write, true, false),
        DeleteStrategy::DeleteByRange
    );
    assert_eq!(
        delete_strategy_for_cf(CfName::Write, false, true),
        DeleteStrategy::DeleteByKey
    );
    assert_eq!(
        delete_strategy_for_cf(CfName::Write, false, false),
        DeleteStrategy::DeleteByWriter
    );
    assert!(ingest_maybe_stall(true, false));
    assert!(ingest_maybe_stall(false, true));
    assert!(!ingest_maybe_stall(false, false));
}

#[test]
fn worker_tick_schedules_sweep() {
    let mut runner = Runner::new(1024, false, false, 3);
    assert!(!runner.on_timeout_tick());
    assert!(!runner.on_timeout_tick());
    assert!(runner.on_timeout_tick());
    assert!(!runner.on_timeout_tick());
    let t = Task::destroy(7, b"a".to_vec(), b"b".to_vec());
    match t {
        Task::Destroy { region_id, start_key, end_key } => {
            assert_eq!(region_id, 7);
            assert_eq!(start_key, b"a".to_vec());
            assert_eq!(end_key, b"b".to_vec());
        }
        _ => panic!("expected destroy"),
    }
}
