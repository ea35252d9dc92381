use region_cache_engine::admin::{
    on_admin_command, AdminCmdType, AdminDecision, AdminRequest, GatewayState, PeerInfo,
    FLAG_PRE_FLUSH_FINISHED, FLAG_TRANSFER_LEADER_PROPOSAL,
};
use region_cache_engine::compact::{
    auto_compactions_is_disabled, compaction_output_level, pick_output_compression,
    select_files_for_range, subcompactions_for, CompressionType, SstFileMeta,
};

fn base_state() -> GatewayState {
    GatewayState {
        serving: true,
        applied_to_current_term: true,
        has_conflict: false,
        has_pending_prepare_merge: false,
        is_merging: false,
        tablet_being_flushed: false,
        self_peer_id: 1,
        peers: vec![
            PeerInfo { peer_id: 1, is_voter: true, is_witness: false },
            PeerInfo { peer_id: 2, is_voter: true, is_witness: false },
            PeerInfo { peer_id: 3, is_voter: false, is_witness: false },
            PeerInfo { peer_id: 4, is_voter: true, is_witness: true },
            PeerInfo { peer_id: 5, is_voter: true, is_witness: false },
        ],
    }
}

fn req(cmd: AdminCmdType, flags: u64) -> AdminRequest {
    AdminRequest {
        has_admin_request: true,
        cmd_type: cmd,
        header_flags: flags,
        is_conf_change: false,
    }
}

#[test]
fn admin_gateway_validation_order() {
    let mut state = base_state();
    state.serving = false;
    assert!(matches!(
        on_admin_command(&state, &req(AdminCmdType::CompactLog, 0), true, true, true),
        AdminDecision::NotifyRegionRemoved
    ));

    let state = base_state();
    let mut r = req(AdminCmdType::CompactLog, 0);
    r.has_admin_request = false;
    assert!(matches!(
        on_admin_command(&state, &r, true, true, true),
        AdminDecision::ReportInvalidRequest
    ));
    assert!(matches!(
        on_admin_command(&state, &req(AdminCmdType::CompactLog, 0), false, true, true),
        AdminDecision::ReportPreProposeError
    ));
    assert!(matches!(
        on_admin_command(&state, &req(AdminCmdType::CompactLog, 0), true, false, true),
        AdminDecision::ReportValidationError
    ));

    let mut state = base_state();
    state.applied_to_current_term = false;
    assert!(matches!(
        on_admin_command(&state, &req(AdminCmdType::CompactLog, 0), true, true, true),
        AdminDecision::ReportNotAppliedToTerm
    ));
    // a pre-transfer-leader warm-up is exempt from the applied-term check
    assert!(matches!(
        on_admin_command(&state, &req(AdminCmdType::TransferLeader, 0), true, true, true),
        AdminDecision::StartTransferLeader
    ));

    let mut state = base_state();
    state.has_conflict = true;
    assert!(matches!(
        on_admin_command(&state, &req(AdminCmdType::CompactLog, 0), true, true, true),
        AdminDecision::DelayByConflict
    ));

    let mut state = base_state();
    state.is_merging = true;
    assert!(matches!(
        on_admin_command(&state, &req(AdminCmdType::CompactLog, 0), true, true, true),
        AdminDecision::ReportMergingMode
    ));

    let state = base_state();
    assert!(matches!(
        on_admin_command(&state, &req(AdminCmdType::Split, 0), true, true, true),
        AdminDecision::ReportSplitDeprecated
    ));
    assert!(matches!(
        on_admin_command(
            &state,
            &req(AdminCmdType::TransferLeader, FLAG_TRANSFER_LEADER_PROPOSAL),
            true,
            true,
            true
        ),
        AdminDecision::ProposeTransferLeader
    ));
    assert!(matches!(
        on_admin_command(&state, &req(AdminCmdType::PrepareMerge, 0), true, true, true),
        AdminDecision::ProposePrepareMerge
    ));
}

#[test]
fn admin_gateway_batch_split_pre_flush() {
    let state = base_state();
    // first proposal: flush is scheduled and the voting, non-witness
    // followers are told to flush
    match on_admin_command(&state, &req(AdminCmdType::BatchSplit, 0), true, true, true) {
        AdminDecision::ScheduleFlushAndBroadcast { targets } => {
            assert_eq!(targets, vec![2, 5]);
        }
        _ => panic!("expected flush scheduling"),
    }
    // while the flush runs, a concurrent proposal is dropped
    let mut flushing = base_state();
    flushing.tablet_being_flushed = true;
    assert!(matches!(
        on_admin_command(&flushing, &req(AdminCmdType::BatchSplit, 0), true, true, true),
        AdminDecision::IgnoreBeingFlushed
    ));
    // the re-enqueued proposal carries the finished flag and is proposed
    assert!(matches!(
        on_admin_command(
            &state,
            &req(AdminCmdType::BatchSplit, FLAG_PRE_FLUSH_FINISHED),
            true,
            true,
            true
        ),
        AdminDecision::ProposeSplit
    ));
    // an invalid split never reaches the flush phase
    assert!(matches!(
        on_admin_command(&state, &req(AdminCmdType::BatchSplit, 0), true, true, false),
        AdminDecision::ReportInvalidSplit
    ));
}

fn file(name: &str, level: usize, smallest: &str, largest: &str) -> SstFileMeta {
    SstFileMeta {
        name: name.as_bytes().to_vec(),
        level,
        smallest_key: smallest.as_bytes().to_vec(),
        largest_key: largest.as_bytes().to_vec(),
    }
}

#[test]
fn compaction_file_selection() {
    let files = vec![
        file("f0", 0, "a", "c"),
        file("f1", 0, "d", "f"),
        file("f2", 1, "a", "f"),
        file("f3", 2, "a", "f"),
    ];
    // files wholly before the start or at/after the end are skipped
    let got = select_files_for_range(&files, &Some(b"d".to_vec()), &None, 2);
    assert_eq!(got, vec![b"f1".to_vec(), b"f2".to_vec()]);
    let got = select_files_for_range(&files, &None, &Some(b"d".to_vec()), 2);
    assert_eq!(got, vec![b"f0".to_vec(), b"f2".to_vec()]);
    let got = select_files_for_range(&files, &None, &None, 1);
    assert_eq!(got, vec![b"f0".to_vec(), b"f1".to_vec()]);

    assert_eq!(compaction_output_level(Some(1), 7), 1);
    assert_eq!(compaction_output_level(None, 7), 6);
    assert_eq!(subcompactions_for(8), 8);
    assert_eq!(subcompactions_for(64), 32);
    let per_level = vec![CompressionType::NoCompression, CompressionType::Zstd];
    assert_eq!(pick_output_compression(&per_level, 1), CompressionType::Zstd);
    assert_eq!(
        pick_output_compression(&per_level, 5),
        CompressionType::NoCompression
    );
    assert!(auto_compactions_is_disabled(&vec![false, true]));
    assert!(!auto_compactions_is_disabled(&vec![false, false]));
}
