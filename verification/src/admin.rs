//! The admin-command gateway.
//!
//! Admin proposals are validated against the peer's state and routed; a
//! batch split goes through a pre-flush phase first: the gateway
//! schedules a memtable flush, broadcasts flush requests to the voting,
//! non-witness followers, and only re-proposes once the flush finishes.

use vstd::prelude::*;

verus! {

/// The kinds of admin command the gateway routes.
#[derive(Clone, Copy, PartialEq, Eq, Structural, Debug)]
pub enum AdminCmdType {
    Split,
    BatchSplit,
    TransferLeader,
    CompactLog,
    UpdateGcPeer,
    PrepareMerge,
    CommitMerge,
    RollbackMerge,
}

/// What applying an admin command produced.
#[derive(Clone, Copy, PartialEq, Eq, Structural, Debug)]
pub enum AdminCmdResult {
    /// The command produced no side effect.
    NoSideEffect,
    SplitRegion,
    ConfChange,
    TransferLeader(u64),
    CompactLog,
    UpdateGcPeers,
    PrepareMerge,
    CommitMerge,
}

/// Header flag: this transfer-leader request is to be proposed to the
/// group rather than starting the local warm-up.
pub const FLAG_TRANSFER_LEADER_PROPOSAL: u64 = 1;

/// Header flag: the pre-split memtable flush has finished.
pub const FLAG_PRE_FLUSH_FINISHED: u64 = 2;

pub open spec fn flag_set(flags: u64, bit: u64) -> bool {
    flags & bit != 0
}

/// An admin proposal, by the fields the gateway inspects.
pub struct AdminRequest {
    pub has_admin_request: bool,
    pub cmd_type: AdminCmdType,
    pub header_flags: u64,
    pub is_conf_change: bool,
}

/// A peer of the region, by the fields the flush broadcast inspects.
pub struct PeerInfo {
    pub peer_id: u64,
    pub is_voter: bool,
    pub is_witness: bool,
}

/// The proposing peer's state, as the gateway reads it.
pub struct GatewayState {
    pub serving: bool,
    pub applied_to_current_term: bool,
    pub has_conflict: bool,
    pub has_pending_prepare_merge: bool,
    pub is_merging: bool,
    pub tablet_being_flushed: bool,
    pub self_peer_id: u64,
    pub peers: Vec<PeerInfo>,
}

/// What the gateway decides to do with a proposal.
pub enum AdminDecision {
    /// The peer no longer serves; tell the caller the region is gone.
    NotifyRegionRemoved,
    /// The request carries no admin payload.
    ReportInvalidRequest,
    /// An observer vetoed the proposal.
    ReportPreProposeError,
    /// The header did not validate.
    ReportValidationError,
    /// The peer has not applied up to its current term.
    ReportNotAppliedToTerm,
    /// An in-flight admin command conflicts; park the proposal.
    DelayByConflict,
    /// A merge is in flight and this command may not interleave.
    ReportMergingMode,
    /// Plain split is no longer served; batch split replaces it.
    ReportSplitDeprecated,
    /// The batch split's requested keys did not validate.
    ReportInvalidSplit,
    /// Another split's pre-flush is still running; drop silently.
    IgnoreBeingFlushed,
    /// Start the pre-split flush and ask these followers to flush.
    ScheduleFlushAndBroadcast { targets: Vec<u64> },
    ProposeSplit,
    ProposeTransferLeader,
    StartTransferLeader,
    ProposeCompactLog,
    ProposeUpdateGcPeer,
    ProposeConfChange,
    ProposePrepareMerge,
    ProposeCommitMerge,
    /// A command kind the gateway does not serve.
    ReportUnsupported,
}

/// The voting, non-witness peers other than the proposer: those told to
/// flush their memtables before a batch split.
pub open spec fn broadcast_targets_upto(peers: Seq<PeerInfo>, self_id: u64, n: int) -> Seq<u64>
    decreases n,
{
    if n <= 0 {
        Seq::empty()
    } else if peers[n - 1].peer_id != self_id && peers[n - 1].is_voter && !peers[n - 1].is_witness {
        broadcast_targets_upto(peers, self_id, n - 1).push(peers[n - 1].peer_id)
    } else {
        broadcast_targets_upto(peers, self_id, n - 1)
    }
}

pub open spec fn broadcast_targets(peers: Seq<PeerInfo>, self_id: u64) -> Seq<u64> {
    broadcast_targets_upto(peers, self_id, peers.len() as int)
}

/// The gateway's decision, in the order the checks run: serving, admin
/// payload present, observer approval, header validation, applied term
/// (waived for a transfer-leader warm-up), conflicts, merge gating, and
/// then the command's own routing.
pub open spec fn decision_post(
    state: GatewayState,
    req: AdminRequest,
    pre_propose_ok: bool,
    validate_ok: bool,
    batch_split_valid: bool,
    r: AdminDecision,
) -> bool {
    if !state.serving {
        r is NotifyRegionRemoved
    } else if !req.has_admin_request {
        r is ReportInvalidRequest
    } else if !pre_propose_ok {
        r is ReportPreProposeError
    } else if !validate_ok {
        r is ReportValidationError
    } else {
        let pre_transfer_leader = req.cmd_type == AdminCmdType::TransferLeader && !flag_set(
            req.header_flags,
            FLAG_TRANSFER_LEADER_PROPOSAL,
        );
        if !state.applied_to_current_term && !pre_transfer_leader {
            r is ReportNotAppliedToTerm
        } else if state.has_conflict {
            r is DelayByConflict
        } else if (state.has_pending_prepare_merge && req.cmd_type != AdminCmdType::PrepareMerge)
            || (state.is_merging && req.cmd_type != AdminCmdType::RollbackMerge) {
            r is ReportMergingMode
        } else if req.is_conf_change {
            r is ProposeConfChange
        } else {
            match req.cmd_type {
                AdminCmdType::Split => r is ReportSplitDeprecated,
                AdminCmdType::BatchSplit => if !batch_split_valid {
                    r is ReportInvalidSplit
                } else if !flag_set(req.header_flags, FLAG_PRE_FLUSH_FINISHED) {
                    if state.tablet_being_flushed {
                        r is IgnoreBeingFlushed
                    } else {
                        r matches AdminDecision::ScheduleFlushAndBroadcast { targets } && targets@
                            == broadcast_targets(state.peers@, state.self_peer_id)
                    }
                } else {
                    r is ProposeSplit
                },
                AdminCmdType::TransferLeader => if flag_set(
                    req.header_flags,
                    FLAG_TRANSFER_LEADER_PROPOSAL,
                ) {
                    r is ProposeTransferLeader
                } else {
                    r is StartTransferLeader
                },
                AdminCmdType::CompactLog => r is ProposeCompactLog,
                AdminCmdType::UpdateGcPeer => r is ProposeUpdateGcPeer,
                AdminCmdType::PrepareMerge => r is ProposePrepareMerge,
                AdminCmdType::CommitMerge => r is ProposeCommitMerge,
                AdminCmdType::RollbackMerge => r is ReportUnsupported,
            }
        }
    }
}

/// Routes one admin proposal. `pre_propose_ok`, `validate_ok` and
/// `batch_split_valid` carry the observer's and the header validation's
/// verdicts, which other components compute.
pub fn on_admin_command(
    state: &GatewayState,
    req: &AdminRequest,
    pre_propose_ok: bool,
    validate_ok: bool,
    batch_split_valid: bool,
) -> (r: AdminDecision)
    ensures
        decision_post(*state, *req, pre_propose_ok, validate_ok, batch_split_valid, r),
{
    if !state.serving {
        return AdminDecision::NotifyRegionRemoved;
    }
    if !req.has_admin_request {
        return AdminDecision::ReportInvalidRequest;
    }
    if !pre_propose_ok {
        return AdminDecision::ReportPreProposeError;
    }
    if !validate_ok {
        return AdminDecision::ReportValidationError;
    }
    let pre_transfer_leader = matches!(req.cmd_type, AdminCmdType::TransferLeader)
        && req.header_flags & FLAG_TRANSFER_LEADER_PROPOSAL == 0;
    if !state.applied_to_current_term && !pre_transfer_leader {
        return AdminDecision::ReportNotAppliedToTerm;
    }
    if state.has_conflict {
        return AdminDecision::DelayByConflict;
    }
    if (state.has_pending_prepare_merge && !matches!(req.cmd_type, AdminCmdType::PrepareMerge)) || (
    state.is_merging && !matches!(req.cmd_type, AdminCmdType::RollbackMerge)) {
        return AdminDecision::ReportMergingMode;
    }
    if req.is_conf_change {
        return AdminDecision::ProposeConfChange;
    }
    match req.cmd_type {
        AdminCmdType::Split => AdminDecision::ReportSplitDeprecated,
        AdminCmdType::BatchSplit => {
            if !batch_split_valid {
                AdminDecision::ReportInvalidSplit
            } else if req.header_flags & FLAG_PRE_FLUSH_FINISHED == 0 {
                if state.tablet_being_flushed {
                    AdminDecision::IgnoreBeingFlushed
                } else {
                    let mut targets: Vec<u64> = Vec::new();
                    let mut i: usize = 0;
                    while i < state.peers.len()
                        invariant
                            i <= state.peers@.len(),
                            targets@ == broadcast_targets_upto(
                                state.peers@,
                                state.self_peer_id,
                                i as int,
                            ),
                        decreases state.peers@.len() - i,
                    {
                        let p = &state.peers[i];
                        if p.peer_id != state.self_peer_id && p.is_voter && !p.is_witness {
                            targets.push(p.peer_id);
                        }
                        i += 1;
                    }
                    AdminDecision::ScheduleFlushAndBroadcast { targets }
                }
            } else {
                AdminDecision::ProposeSplit
            }
        },
        AdminCmdType::TransferLeader => {
            if req.header_flags & FLAG_TRANSFER_LEADER_PROPOSAL != 0 {
                AdminDecision::ProposeTransferLeader
            } else {
                AdminDecision::StartTransferLeader
            }
        },
        AdminCmdType::CompactLog => AdminDecision::ProposeCompactLog,
        AdminCmdType::UpdateGcPeer => AdminDecision::ProposeUpdateGcPeer,
        AdminCmdType::PrepareMerge => AdminDecision::ProposePrepareMerge,
        AdminCmdType::CommitMerge => AdminDecision::ProposeCommitMerge,
        AdminCmdType::RollbackMerge => AdminDecision::ReportUnsupported,
    }
}

} // verus!
