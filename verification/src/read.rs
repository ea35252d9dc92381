//! Snapshot reads over the cached column families.
//!
//! A snapshot pins a region at a read timestamp and a sequence number;
//! point reads and iterators opened through it see exactly the records
//! with sequence at most the snapshot's, newest version first, with
//! tombstones hiding what they cover.

use vstd::prelude::*;

use crate::MAX_SEQUENCE_NUMBER;
use crate::byteorder::{bytes_eq, bytes_le, bytes_lt, lex_le, lex_lt};
use crate::codec::{TAG_DELETION, TAG_VALUE, rev_of_seq};
use crate::engine::{CfName, SkiplistEngine};
use crate::model::{CfModel, entry_visible, has_visible_entry, is_newest_visible, keys_above,
    keys_below, lemma_visible_get_deletion,
    lemma_visible_get_none, lemma_visible_get_value, visible_get, visible_has_value, wf_contents};
use crate::region_manager::{CacheRegion, FailedReason, RegionManager, RegionState, copy_region};
use crate::store::{CfStore, IKey, IKeyModel, ikey_le, ikey_lt, ikey_view, store_contents,
    store_seek_ge, store_seek_gt, store_seek_le, store_seek_lt};

verus! {

/// What identifies a snapshot: the region it was taken on, its read
/// timestamp, and the engine sequence number it reads at.
#[derive(Debug)]
pub struct RegionCacheSnapshotMeta {
    pub region: CacheRegion,
    pub snapshot_ts: u64,
    pub sequence_number: u64,
}

impl RegionCacheSnapshotMeta {
    pub fn new(region: CacheRegion, snapshot_ts: u64, sequence_number: u64) -> (r:
        RegionCacheSnapshotMeta)
        ensures
            r.region@ == region@,
            r.snapshot_ts == snapshot_ts,
            r.sequence_number == sequence_number,
    {
        RegionCacheSnapshotMeta { region, snapshot_ts, sequence_number }
    }
}

/// Errors of the read path.
#[derive(Clone, Copy, PartialEq, Eq, Structural, Debug)]
pub enum EngineError {
    /// An iterator needs both bounds.
    BoundaryNotSet,
    /// The requested bounds or key fall outside the snapshot's region.
    RangeOutOfSnapshot,
}

/// Options of a point read. The cache serves every read from memory, so
/// none are needed; the type keeps the call shape of the wider system.
pub struct ReadOptions {}

impl ReadOptions {
    pub fn new() -> ReadOptions {
        ReadOptions {  }
    }
}

/// Options of an iterator: both bounds must be set; prefix mode restricts
/// the iterator to user keys sharing the seek key's prefix, the user key
/// minus its trailing eight bytes.
pub struct IterOptions {
    pub lower_bound: Option<Vec<u8>>,
    pub upper_bound: Option<Vec<u8>>,
    pub prefix_same_as_start: bool,
}

impl IterOptions {
    pub fn new() -> (r: IterOptions)
        ensures
            r.lower_bound is None,
            r.upper_bound is None,
            !r.prefix_same_as_start,
    {
        IterOptions { lower_bound: None, upper_bound: None, prefix_same_as_start: false }
    }

    pub fn set_lower_bound(&mut self, key: &[u8])
        ensures
            final(self).lower_bound matches Some(k) && k@ == key@,
            final(self).upper_bound == old(self).upper_bound,
            final(self).prefix_same_as_start == old(self).prefix_same_as_start,
    {
        self.lower_bound = Some(vstd::slice::slice_to_vec(key));
    }

    pub fn set_upper_bound(&mut self, key: &[u8])
        ensures
            final(self).upper_bound matches Some(k) && k@ == key@,
            final(self).lower_bound == old(self).lower_bound,
            final(self).prefix_same_as_start == old(self).prefix_same_as_start,
    {
        self.upper_bound = Some(vstd::slice::slice_to_vec(key));
    }

    pub fn set_prefix_same_as_start(&mut self, on: bool)
        ensures
            final(self).prefix_same_as_start == on,
            final(self).lower_bound == old(self).lower_bound,
            final(self).upper_bound == old(self).upper_bound,
    {
        self.prefix_same_as_start = on;
    }
}

/// A value handed out by a point read.
#[derive(Debug)]
pub struct RegionCacheDbVector {
    bytes: Vec<u8>,
}

impl View for RegionCacheDbVector {
    type V = Seq<u8>;

    closed spec fn view(&self) -> Seq<u8> {
        self.bytes@
    }
}

impl RegionCacheDbVector {
    pub fn as_slice(&self) -> (r: &[u8])
        ensures
            r@ == self@,
    {
        self.bytes.as_slice()
    }
}

/// A pinned read view. Creation registers it with the region manager;
/// `RegionCacheMemoryEngine::release_snapshot` deregisters it.
#[derive(Debug)]
pub struct RegionCacheSnapshot {
    pub meta: RegionCacheSnapshotMeta,
}

/// What taking a snapshot promises: it succeeds exactly when the region
/// is known under the requested epoch, is `Cached`, and `read_ts` is not
/// below the safe-point; success registers `read_ts` in the region's
/// snapshot list and fills the handle, failure names its exact cause and
/// changes nothing. No data is read either way.
pub open spec fn snapshot_post(
    pre: RegionCacheMemoryEngine,
    post: RegionCacheMemoryEngine,
    region: CacheRegion,
    read_ts: u64,
    seq_num: u64,
    r: Result<RegionCacheSnapshot, FailedReason>,
) -> bool {
    &&& post.wf()
    &&& post.engine == pre.engine
    &&& post.region_manager.historical@ == pre.region_manager.historical@
    &&& match r {
        Ok(s) => {
            &&& s.meta.region@ == region@
            &&& s.meta.snapshot_ts == read_ts
            &&& s.meta.sequence_number == seq_num
            &&& pre.region_manager.has_region(region.id)
            &&& pre.region_manager.meta_of(region.id).region.epoch_version == region.epoch_version
            &&& pre.region_manager.meta_of(region.id).state == RegionState::Cached
            &&& read_ts >= pre.region_manager.meta_of(region.id).safe_point
            &&& ({
                let i = pre.region_manager.region_idx(region.id);
                post.region_manager.regions@.len() == pre.region_manager.regions@.len()
                    && post.region_manager.regions@[i].snapshots@
                    == pre.region_manager.regions@[i].snapshots@.push(read_ts) && forall|j: int|
                    0 <= j < pre.region_manager.regions@.len() && j != i
                        ==> post.region_manager.regions@[j] == pre.region_manager.regions@[j]
            })
        },
        Err(e) => post.region_manager.regions@ == pre.region_manager.regions@ && match e {
            FailedReason::NotCached => !pre.region_manager.has_region(region.id) || (
            pre.region_manager.meta_of(region.id).region.epoch_version == region.epoch_version
                && pre.region_manager.meta_of(region.id).state != RegionState::Cached),
            FailedReason::EpochNotMatch => pre.region_manager.has_region(region.id)
                && pre.region_manager.meta_of(region.id).region.epoch_version
                != region.epoch_version,
            FailedReason::TooOldRead => pre.region_manager.has_region(region.id)
                && pre.region_manager.meta_of(region.id).region.epoch_version
                == region.epoch_version && pre.region_manager.meta_of(region.id).state
                == RegionState::Cached && read_ts < pre.region_manager.meta_of(
                region.id,
            ).safe_point,
        },
    }
}

impl RegionCacheSnapshot {
    pub open spec fn wf(self) -> bool {
        self.meta.sequence_number <= u64::MAX
    }

    /// Takes a snapshot of `region` pinned at `(read_ts, seq_num)`,
    /// registering it with the engine's region manager.
    pub fn new(
        engine: &mut RegionCacheMemoryEngine,
        region: &CacheRegion,
        read_ts: u64,
        seq_num: u64,
    ) -> (r: Result<RegionCacheSnapshot, FailedReason>)
        requires
            old(engine).wf(),
        ensures
            final(engine).wf(),
            snapshot_post(*old(engine), *final(engine), *region, read_ts, seq_num, r),
    {
        engine.snapshot(region, read_ts, seq_num)
    }

    pub fn snapshot_meta(&self) -> (r: &RegionCacheSnapshotMeta)
        ensures
            r == &self.meta,
    {
        &self.meta
    }

    pub fn sequence_number(&self) -> (r: u64)
        ensures
            r == self.meta.sequence_number,
    {
        self.meta.sequence_number
    }

    pub fn snapshot_ts(&self) -> (r: u64)
        ensures
            r == self.meta.snapshot_ts,
    {
        self.meta.snapshot_ts
    }

    /// A point read in the default column family.
    pub fn get_value_opt(&self, store: &SkiplistEngine, _opts: &ReadOptions, key: &[u8]) -> (r:
        Result<Option<RegionCacheDbVector>, EngineError>)
        requires
            store.wf(),
        ensures
            get_value_post(*self, store.cf(CfName::Default), key@, r),
    {
        self.get_value_cf_opt(store, _opts, CfName::Default, key)
    }

    /// A point read: the newest record of `key` with sequence at most the
    /// snapshot's decides the outcome. A key outside the snapshot's
    /// region is refused.
    pub fn get_value_cf_opt(
        &self,
        store: &SkiplistEngine,
        _opts: &ReadOptions,
        cf: CfName,
        key: &[u8],
    ) -> (r: Result<Option<RegionCacheDbVector>, EngineError>)
        requires
            store.wf(),
            cf != CfName::Raft,
        ensures
            get_value_post(*self, store.cf(cf), key@, r),
    {
        if !self.meta.region.contains_key(key) {
            return Err(EngineError::RangeOutOfSnapshot);
        }
        let snap = self.meta.sequence_number;
        let rev = crate::codec::rev_of_seq_exec(snap);
        let seek: IKey = (vstd::slice::slice_to_vec(key), rev, TAG_DELETION);
        let cf_store = store.cf_store(cf);
        let ghost m = store.cf(cf);
        let ghost t: IKeyModel = (key@, rev_of_seq(snap), TAG_DELETION);
        let found = store_seek_ge(cf_store, &seek);
        proof {
            assert(ikey_view(seek) == t);
        }
        match found {
            Some(e) => {
                let hit = bytes_eq(e.0.0.as_slice(), key);
                if hit && e.0.2 == TAG_VALUE {
                    proof {
                        lemma_seek_hit_is_newest(m, snap, key@, ikey_view(e.0));
                        lemma_visible_get_value(m, snap, key@, e.0.1);
                    }
                    Ok(Some(RegionCacheDbVector { bytes: e.1 }))
                } else if hit {
                    proof {
                        lemma_seek_hit_is_newest(m, snap, key@, ikey_view(e.0));
                        assert(e.0.2 == TAG_DELETION) by {
                            assert(m.dom().contains(ikey_view(e.0)));
                        }
                        lemma_visible_get_deletion(m, snap, key@, e.0.1);
                    }
                    Ok(None)
                } else {
                    proof {
                        lemma_seek_miss_none(m, snap, key@, Some(ikey_view(e.0)));
                    }
                    Ok(None)
                }
            },
            None => {
                proof {
                    lemma_seek_miss_none(m, snap, key@, None);
                }
                Ok(None)
            },
        }
    }
}

/// What a point read promises: rejected outside the region, otherwise
/// exactly what the visibility model assigns to the key.
pub open spec fn get_value_post(
    snap: RegionCacheSnapshot,
    m: CfModel,
    key: Seq<u8>,
    r: Result<Option<RegionCacheDbVector>, EngineError>,
) -> bool {
    match r {
        Err(e) => e == EngineError::RangeOutOfSnapshot && !snap.meta.region.spec_contains_key(key),
        Ok(o) => snap.meta.region.spec_contains_key(key) && match o {
            Some(v) => visible_get(m, snap.meta.sequence_number, key) == Some(v@),
            None => visible_get(m, snap.meta.sequence_number, key) is None,
        },
    }
}

/// The first stored record at or after `(key, rev_of_seq(snap), 0)` with
/// user key `key` is the newest record of `key` visible at `snap`.
proof fn lemma_seek_hit_is_newest(m: CfModel, snap: u64, key: Seq<u8>, e: IKeyModel)
    requires
        wf_contents(m),
        m.dom().contains(e),
        e.0 == key,
        ikey_le((key, rev_of_seq(snap), TAG_DELETION), e),
        forall|o: IKeyModel|
            m.dom().contains(o) && ikey_le((key, rev_of_seq(snap), TAG_DELETION), o) ==> ikey_le(
                e,
                o,
            ),
    ensures
        is_newest_visible(m, snap, key, e.1, e.2),
{
    let t: IKeyModel = (key, rev_of_seq(snap), TAG_DELETION);
    assert(e.1 <= MAX_SEQUENCE_NUMBER);
    crate::byteorder::lemma_lex_lt_irreflexive(key);
    assert(entry_visible(snap, e.1)) by {
        assert(!lex_lt(t.0, e.0));
        assert(e.1 >= rev_of_seq(snap));
    }
    assert forall|r2: u64, t2: u8|
        m.dom().contains((key, r2, t2)) && entry_visible(snap, r2) implies e.1 < r2 || (e.1 == r2
        && e.2 <= t2) by {
        let o: IKeyModel = (key, r2, t2);
        assert(r2 <= MAX_SEQUENCE_NUMBER);
        assert(r2 >= rev_of_seq(snap));
        assert(ikey_le(t, o)) by {
            crate::byteorder::lemma_lex_lt_irreflexive(key);
        }
        assert(ikey_le(e, o));
        crate::byteorder::lemma_lex_lt_irreflexive(key);
    }
}

/// When the seek lands past `key` (or finds nothing), `key` has no
/// visible record at all.
proof fn lemma_seek_miss_none(m: CfModel, snap: u64, key: Seq<u8>, e: Option<IKeyModel>)
    requires
        wf_contents(m),
        match e {
            Some(e) => e.0 != key && m.dom().contains(e) && ikey_le(
                (key, rev_of_seq(snap), TAG_DELETION),
                e,
            ) && forall|o: IKeyModel|
                m.dom().contains(o) && ikey_le((key, rev_of_seq(snap), TAG_DELETION), o)
                    ==> ikey_le(e, o),
            None => forall|o: IKeyModel|
                m.dom().contains(o) ==> ikey_lt(o, (key, rev_of_seq(snap), TAG_DELETION)),
        },
    ensures
        visible_get(m, snap, key) is None,
{
    let t: IKeyModel = (key, rev_of_seq(snap), TAG_DELETION);
    assert forall|rev: u64, tag: u8| #[trigger]
        m.dom().contains((key, rev, tag)) implies !entry_visible(snap, rev) by {
        let o: IKeyModel = (key, rev, tag);
        assert(rev <= MAX_SEQUENCE_NUMBER);
        if entry_visible(snap, rev) {
            assert(rev >= rev_of_seq(snap));
            assert(ikey_le(t, o)) by {
                crate::byteorder::lemma_lex_lt_irreflexive(key);
            }
            match e {
                Some(e) => {
                    assert(ikey_le(e, o));
                    assert(lex_le(e.0, key));
                    assert(ikey_le(t, e));
                    assert(lex_le(key, e.0));
                    crate::byteorder::lemma_lex_lt_total(e.0, key);
                    crate::byteorder::lemma_lex_lt_asymmetric(e.0, key);
                    assert(false);
                },
                None => {
                    assert(ikey_lt(o, t));
                    crate::store::lemma_ikey_lt_irreflexive(o);
                    crate::store::lemma_ikey_lt_transitive(o, t, o);
                },
            }
        }
    }
    lemma_visible_get_none(m, snap, key);
}

/// Which way the iterator last moved.
#[derive(Clone, Copy, PartialEq, Eq, Structural, Debug)]
pub enum Direction {
    Uninit,
    Forward,
    Backward,
}

/// Bidirectional, bounds-restricted, sequence-filtered traversal over one
/// column family. The iterator walks internal records in order, keeps the
/// newest visible version of each user key, and skips user keys whose
/// newest visible record is a tombstone.
pub struct RegionCacheIterator {
    pub valid: bool,
    /// The underlying cursor: the internal key the scan last stood on.
    pub cur: Option<(Vec<u8>, u64, u8)>,
    pub lower_bound: Vec<u8>,
    pub upper_bound: Vec<u8>,
    pub sequence_number: u64,
    pub saved_user_key: Vec<u8>,
    pub saved_value: Option<Vec<u8>>,
    pub prefix_same_as_start: bool,
    pub prefix: Option<Vec<u8>>,
    pub direction: Direction,
    pub internal_delete_skipped_count: u64,
    pub internal_key_skipped_count: u64,
    pub snapshot_read_ts: u64,
}

/// Counters of records the iterator stepped over, read through
/// `RegionCacheIterator::metrics_collector`.
pub struct RegionCacheIterMetricsCollector {
    pub internal_delete_skipped_count: u64,
    pub internal_key_skipped_count: u64,
}

impl RegionCacheIterMetricsCollector {
    /// Tombstones stepped over so far.
    pub fn internal_delete_skipped_count(&self) -> (r: u64)
        ensures
            r == self.internal_delete_skipped_count,
    {
        self.internal_delete_skipped_count
    }

    /// Internal records stepped over so far.
    pub fn internal_key_skipped_count(&self) -> (r: u64)
        ensures
            r == self.internal_key_skipped_count,
    {
        self.internal_key_skipped_count
    }
}

impl RegionCacheIterator {
    pub open spec fn spec_valid(self) -> bool {
        self.valid
    }

    pub open spec fn spec_lower_bound(self) -> Seq<u8> {
        self.lower_bound@
    }

    pub open spec fn spec_upper_bound(self) -> Seq<u8> {
        self.upper_bound@
    }

    pub open spec fn spec_sequence_number(self) -> u64 {
        self.sequence_number
    }

    pub open spec fn spec_key(self) -> Seq<u8> {
        self.saved_user_key@
    }

    pub open spec fn spec_value(self) -> Seq<u8> {
        match self.saved_value {
            Some(v) => v@,
            None => Seq::empty(),
        }
    }

    pub open spec fn spec_direction(self) -> Direction {
        self.direction
    }

    /// The user key keeps the active prefix (the key minus its trailing
    /// eight bytes); with prefix mode off every key qualifies.
    pub open spec fn prefix_matches(self, uk: Seq<u8>) -> bool {
        match self.prefix {
            Some(p) => uk.len() >= 8 && uk.take(uk.len() - 8) == p@,
            None => true,
        }
    }

    /// The user key lies inside the iterator's half-open bound window.
    pub open spec fn in_window(self, uk: Seq<u8>) -> bool {
        lex_le(self.lower_bound@, uk) && lex_lt(uk, self.upper_bound@)
    }

    /// Every stored record that a forward scan begun at `t` walks through
    /// before leaving user key `uk` keeps the active prefix; the scan
    /// stops early at the first record that does not.
    pub open spec fn pref_clear(self, m: CfModel, t: IKeyModel, uk: Seq<u8>) -> bool {
        forall|e: IKeyModel| #[trigger]
            m.dom().contains(e) && ikey_le(t, e) && lex_le(e.0, uk) ==> self.prefix_matches(e.0)
    }

    /// A user key the forward scan begun at `t`, looking for keys at or
    /// after `from`, may hand out.
    pub open spec fn fwd_emittable(self, m: CfModel, from: Seq<u8>, t: IKeyModel, uk: Seq<u8>) -> bool {
        &&& lex_le(from, uk)
        &&& lex_lt(uk, self.upper_bound@)
        &&& self.prefix_matches(uk)
        &&& self.pref_clear(m, t, uk)
        &&& visible_has_value(m, self.sequence_number, uk)
    }

    /// The outcome of a forward scan begun at `t` looking for user keys
    /// at or after `from`: the iterator stands on the least emittable
    /// user key with its visible value, or is invalid when there is none.
    pub open spec fn fwd_outcome(self, m: CfModel, from: Seq<u8>, t: IKeyModel) -> bool {
        &&& self.valid ==> {
            &&& self.fwd_emittable(m, from, t, self.saved_user_key@)
            &&& visible_get(m, self.sequence_number, self.saved_user_key@) == Some(
                self.spec_value(),
            )
            &&& forall|uk: Seq<u8>|
                lex_le(from, uk) && lex_lt(uk, self.saved_user_key@) ==> !(
                #[trigger] visible_has_value(m, self.sequence_number, uk))
        }
        &&& !self.valid ==> forall|uk: Seq<u8>| !(#[trigger] self.fwd_emittable(m, from, t, uk))
    }

    /// Cross-call well-formedness against the store the iterator reads.
    /// It is insensitive to records invisible to the snapshot, so writes
    /// at higher sequence numbers between calls do not disturb it.
    pub open spec fn wf(self, m: CfModel) -> bool {
        &&& self.prefix is Some ==> self.prefix_same_as_start
        &&& self.valid ==> self.in_window(self.saved_user_key@) && self.prefix_matches(
            self.saved_user_key@,
        ) && self.saved_value is Some && visible_get(
            m,
            self.sequence_number,
            self.saved_user_key@,
        ) == Some(self.spec_value())
        &&& match self.direction {
            Direction::Uninit => !self.valid,
            Direction::Forward => self.valid ==> (self.cur matches Some(c) && {
                &&& c.0@ == self.saved_user_key@
                &&& c.2 == TAG_VALUE
                &&& is_newest_visible(m, self.sequence_number, self.saved_user_key@, c.1, TAG_VALUE)
                &&& m[(self.saved_user_key@, c.1, TAG_VALUE)] == self.spec_value()
            }),
            Direction::Backward => self.valid ==> match self.cur {
                Some(c) => lex_lt(c.0@, self.saved_user_key@) && (forall|e: IKeyModel| #[trigger]
                    m.dom().contains(e) && ikey_lt(ikey_view(c), e) && lex_lt(
                        e.0,
                        self.saved_user_key@,
                    ) ==> !entry_visible(self.sequence_number, e.1)),
                None => forall|e: IKeyModel| #[trigger]
                    m.dom().contains(e) && lex_lt(e.0, self.saved_user_key@) ==> !entry_visible(
                        self.sequence_number,
                        e.1,
                    ),
            },
        }
    }
}


/// Saturating counter step.
fn bump(c: u64) -> (r: u64)
    ensures
        r == counted(c, 1),
{
    if c < u64::MAX {
        c + 1
    } else {
        c
    }
}

/// A perf counter after `n` saturating increments.
pub open spec fn counted(c: u64, n: int) -> u64 {
    if c + n <= u64::MAX {
        (c + n) as u64
    } else {
        u64::MAX
    }
}

/// The stored records with user key in `[lo, hi)`.
pub open spec fn records_in(m: CfModel, lo: Seq<u8>, hi: Seq<u8>) -> Set<IKeyModel> {
    m.dom().filter(|e: IKeyModel| lex_le(lo, e.0) && lex_lt(e.0, hi))
}

/// The visible tombstone records with user key in `[lo, hi)`.
pub open spec fn visible_deletions_in(m: CfModel, snap: u64, lo: Seq<u8>, hi: Seq<u8>) -> Set<
    IKeyModel,
> {
    m.dom().filter(
        |e: IKeyModel|
            lex_le(lo, e.0) && lex_lt(e.0, hi) && entry_visible(snap, e.1) && e.2 == TAG_DELETION,
    )
}

/// The records a backward scan from below user key `top` has walked
/// over once its cursor stands at `pos`: everything above the cursor
/// whose user key is below `top`.
pub open spec fn bwd_walked(m: CfModel, top: Seq<u8>, pos: Option<IKeyModel>) -> Set<IKeyModel> {
    match pos {
        Some(p) => m.dom().filter(|e: IKeyModel| ikey_lt(p, e) && lex_lt(e.0, top)),
        None => m.dom().filter(|e: IKeyModel| lex_lt(e.0, top)),
    }
}

/// The visible tombstones among them.
pub open spec fn bwd_walked_deletions(
    m: CfModel,
    snap: u64,
    top: Seq<u8>,
    pos: Option<IKeyModel>,
) -> Set<IKeyModel> {
    bwd_walked(m, top, pos).filter(
        |e: IKeyModel| entry_visible(snap, e.1) && e.2 == TAG_DELETION,
    )
}

/// A user key whose newest visible record is a tombstone.
pub open spec fn tombstoned(m: CfModel, snap: u64, uk: Seq<u8>) -> bool {
    exists|rv: u64| is_newest_visible(m, snap, uk, rv, TAG_DELETION)
}

/// The records a forward scan counts as skipped keys: the visible
/// leftovers of the key being drained, and the visible records beneath
/// each tombstoned key's newest tombstone.
pub open spec fn fwd_skip_filter(
    m: CfModel,
    snap: u64,
    skip0: bool,
    saved0: Seq<u8>,
    e: IKeyModel,
) -> bool {
    &&& entry_visible(snap, e.1)
    &&& ((skip0 && e.0 == saved0) || (tombstoned(m, snap, e.0) && !is_newest_visible(
        m,
        snap,
        e.0,
        e.1,
        e.2,
    )))
}

/// The records a forward scan from `start` has counted as skipped keys
/// once its cursor stands at `pos`.
pub open spec fn fwd_skipped(
    m: CfModel,
    snap: u64,
    skip0: bool,
    saved0: Seq<u8>,
    start: Option<IKeyModel>,
    pos: Option<IKeyModel>,
) -> Set<IKeyModel> {
    m.dom().filter(
        |e: IKeyModel|
            fwd_skip_filter(m, snap, skip0, saved0, e) && (match start {
                Some(s) => ikey_le(s, e),
                None => false,
            }) && (match pos {
                Some(p) => ikey_lt(e, p),
                None => true,
            }),
    )
}

/// The newest visible tombstones the scan has stepped past.
pub open spec fn fwd_tombstone_tops(
    m: CfModel,
    snap: u64,
    start: Option<IKeyModel>,
    pos: Option<IKeyModel>,
) -> Set<IKeyModel> {
    m.dom().filter(
        |e: IKeyModel|
            is_newest_visible(m, snap, e.0, e.1, e.2) && e.2 == TAG_DELETION && (match start {
                Some(s) => ikey_le(s, e),
                None => false,
            }) && (match pos {
                Some(p) => ikey_lt(e, p),
                None => true,
            }),
    )
}

/// The skipped-key records up to user key `hi`.
pub open spec fn fwd_skipped_win(
    m: CfModel,
    snap: u64,
    skip0: bool,
    saved0: Seq<u8>,
    start: Option<IKeyModel>,
    hi: Seq<u8>,
) -> Set<IKeyModel> {
    m.dom().filter(
        |e: IKeyModel|
            fwd_skip_filter(m, snap, skip0, saved0, e) && (match start {
                Some(st) => ikey_le(st, e),
                None => false,
            }) && lex_lt(e.0, hi),
    )
}

/// The newest visible tombstones up to user key `hi`.
pub open spec fn fwd_tops_win(
    m: CfModel,
    snap: u64,
    start: Option<IKeyModel>,
    hi: Seq<u8>,
) -> Set<IKeyModel> {
    m.dom().filter(
        |e: IKeyModel|
            is_newest_visible(m, snap, e.0, e.1, e.2) && e.2 == TAG_DELETION && (match start {
                Some(st) => ikey_le(st, e),
                None => false,
            }) && lex_lt(e.0, hi),
    )
}

/// Stepping the forward cursor past one record grows the two counted
/// sets by exactly that record, when it qualifies.
proof fn lemma_fwd_count_step(
    m: CfModel,
    snap: u64,
    skip0: bool,
    saved0: Seq<u8>,
    start: Option<IKeyModel>,
    p: IKeyModel,
    n: Option<IKeyModel>,
)
    requires
        wf_contents(m),
        m.dom().contains(p),
        match start {
            Some(s) => ikey_le(s, p),
            None => false,
        },
        match n {
            Some(nv) => m.dom().contains(nv) && ikey_lt(p, nv) && forall|o: IKeyModel|
                m.dom().contains(o) && ikey_lt(p, o) ==> ikey_le(nv, o),
            None => forall|o: IKeyModel| m.dom().contains(o) ==> ikey_le(o, p),
        },
    ensures
        fwd_skipped(m, snap, skip0, saved0, start, n) =~= if fwd_skip_filter(
            m,
            snap,
            skip0,
            saved0,
            p,
        ) {
            fwd_skipped(m, snap, skip0, saved0, start, Some(p)).insert(p)
        } else {
            fwd_skipped(m, snap, skip0, saved0, start, Some(p))
        },
        fwd_skipped(m, snap, skip0, saved0, start, n).len() == fwd_skipped(
            m,
            snap,
            skip0,
            saved0,
            start,
            Some(p),
        ).len() + (if fwd_skip_filter(m, snap, skip0, saved0, p) {
            1int
        } else {
            0int
        }),
        fwd_tombstone_tops(m, snap, start, n) =~= if is_newest_visible(m, snap, p.0, p.1, p.2)
            && p.2 == TAG_DELETION {
            fwd_tombstone_tops(m, snap, start, Some(p)).insert(p)
        } else {
            fwd_tombstone_tops(m, snap, start, Some(p))
        },
        fwd_tombstone_tops(m, snap, start, n).len() == fwd_tombstone_tops(
            m,
            snap,
            start,
            Some(p),
        ).len() + (if is_newest_visible(m, snap, p.0, p.1, p.2) && p.2 == TAG_DELETION {
            1int
        } else {
            0int
        }),
{
    let before = fwd_skipped(m, snap, skip0, saved0, start, Some(p));
    let after = fwd_skipped(m, snap, skip0, saved0, start, n);
    assert forall|e: IKeyModel|
        #![trigger after.contains(e)]
        #![trigger before.contains(e)]
        true implies (after.contains(e) <==> before.contains(e) || (e == p && fwd_skip_filter(
        m,
        snap,
        skip0,
        saved0,
        p,
    ))) by {
        if m.dom().contains(e) {
            crate::store::lemma_ikey_lt_irreflexive(e);
            if e == p {
            } else {
                crate::store::lemma_ikey_lt_total(e, p);
                match n {
                    Some(nv) => {
                        if ikey_lt(p, e) && !ikey_le(nv, e) {
                            assert(false);
                        }
                        if ikey_lt(e, nv) && ikey_lt(p, e) {
                            assert(ikey_le(nv, e));
                            if e != nv {
                                crate::store::lemma_ikey_lt_transitive(e, nv, e);
                            }
                        }
                        if ikey_lt(e, p) {
                            crate::store::lemma_ikey_lt_transitive(e, p, nv);
                        }
                    },
                    None => {
                        if ikey_lt(p, e) {
                            assert(ikey_le(e, p));
                            crate::store::lemma_ikey_lt_transitive(p, e, p);
                            crate::store::lemma_ikey_lt_irreflexive(p);
                        }
                    },
                }
            }
        }
    }
    assert(before.finite() && after.finite() && fwd_tombstone_tops(m, snap, start, Some(p)).finite()
        && fwd_tombstone_tops(m, snap, start, n).finite()) by {
        lemma_filter_finite(m);
    }
    if fwd_skip_filter(m, snap, skip0, saved0, p) {
        assert(after =~= before.insert(p));
        assert(!before.contains(p)) by {
            crate::store::lemma_ikey_lt_irreflexive(p);
        }
        assert(after.len() == before.len() + 1);
    } else {
        assert(after =~= before);
    }
    let dbefore = fwd_tombstone_tops(m, snap, start, Some(p));
    let dafter = fwd_tombstone_tops(m, snap, start, n);
    assert forall|e: IKeyModel|
        #![trigger dafter.contains(e)]
        #![trigger dbefore.contains(e)]
        true implies (dafter.contains(e) <==> dbefore.contains(e) || (e == p && is_newest_visible(
        m,
        snap,
        p.0,
        p.1,
        p.2,
    ) && p.2 == TAG_DELETION)) by {
        if m.dom().contains(e) {
            crate::store::lemma_ikey_lt_irreflexive(e);
            if e == p {
            } else {
                crate::store::lemma_ikey_lt_total(e, p);
                match n {
                    Some(nv) => {
                        if ikey_lt(e, nv) && ikey_lt(p, e) {
                            assert(ikey_le(nv, e));
                            if e != nv {
                                crate::store::lemma_ikey_lt_transitive(e, nv, e);
                            }
                        }
                        if ikey_lt(e, p) {
                            crate::store::lemma_ikey_lt_transitive(e, p, nv);
                        }
                    },
                    None => {
                        if ikey_lt(p, e) {
                            assert(ikey_le(e, p));
                            crate::store::lemma_ikey_lt_transitive(p, e, p);
                            crate::store::lemma_ikey_lt_irreflexive(p);
                        }
                    },
                }
            }
        }
    }
    if is_newest_visible(m, snap, p.0, p.1, p.2) && p.2 == TAG_DELETION {
        assert(dafter =~= dbefore.insert(p));
        assert(!dbefore.contains(p)) by {
            crate::store::lemma_ikey_lt_irreflexive(p);
        }
        assert(dafter.len() == dbefore.len() + 1);
    } else {
        assert(dafter =~= dbefore);
    }
}

/// Stepping the forward cursor keeps every walked record below the
/// upper bound and after the start.
proof fn lemma_fwd_window_step(
    m: CfModel,
    upper: Seq<u8>,
    start0: Option<IKeyModel>,
    p: IKeyModel,
    n: Option<IKeyModel>,
)
    requires
        m.dom().contains(p),
        lex_lt(p.0, upper),
        match start0 {
            Some(st) => ikey_le(st, p),
            None => false,
        },
        match n {
            Some(nv) => m.dom().contains(nv) && ikey_lt(p, nv) && forall|o: IKeyModel|
                m.dom().contains(o) && ikey_lt(p, o) ==> ikey_le(nv, o),
            None => forall|o: IKeyModel| m.dom().contains(o) ==> ikey_le(o, p),
        },
        forall|o: IKeyModel| #[trigger]
            m.dom().contains(o) && (match start0 {
                Some(st) => ikey_le(st, o),
                None => false,
            }) && ikey_lt(o, p) ==> lex_lt(o.0, upper),
    ensures
        forall|o: IKeyModel| #[trigger]
            m.dom().contains(o) && (match start0 {
                Some(st) => ikey_le(st, o),
                None => false,
            }) && (match n {
                Some(nv) => ikey_lt(o, nv),
                None => true,
            }) ==> lex_lt(o.0, upper),
        match n {
            Some(nv) => start0 matches Some(st) && ikey_le(st, nv),
            None => true,
        },
{
    assert forall|o: IKeyModel| #[trigger]
        m.dom().contains(o) && (match start0 {
            Some(st) => ikey_le(st, o),
            None => false,
        }) && (match n {
            Some(nv) => ikey_lt(o, nv),
            None => true,
        }) implies lex_lt(o.0, upper) by {
        crate::store::lemma_ikey_lt_total(o, p);
        if o == p {
        } else if ikey_lt(o, p) {
        } else {
            assert(ikey_lt(p, o));
            match n {
                Some(nv) => {
                    assert(ikey_le(nv, o));
                    crate::store::lemma_ikey_lt_irreflexive(o);
                    if o != nv {
                        crate::store::lemma_ikey_lt_transitive(o, nv, o);
                    }
                },
                None => {
                    assert(ikey_le(o, p));
                    crate::store::lemma_ikey_lt_irreflexive(o);
                    crate::store::lemma_ikey_lt_transitive(p, o, p);
                },
            }
        }
    }
    match n {
        Some(nv) => {
            let st = start0->Some_0;
            crate::store::lemma_ikey_le_lt_trans(st, p, nv);
        },
        None => {},
    }
}

/// A stored record lies at or after the least record at or after `t`
/// exactly when it lies at or after `t` itself.
proof fn lemma_seek_start_windows(m: CfModel, t: IKeyModel, start: Option<IKeyModel>, o: IKeyModel)
    requires
        m.dom().contains(o),
        match start {
            Some(st) => m.dom().contains(st) && ikey_le(t, st) && forall|q: IKeyModel|
                m.dom().contains(q) && ikey_le(t, q) ==> ikey_le(st, q),
            None => forall|q: IKeyModel| m.dom().contains(q) ==> ikey_lt(q, t),
        },
    ensures
        (match start {
            Some(st) => ikey_le(st, o),
            None => false,
        }) <==> ikey_le(t, o),
{
    match start {
        Some(st) => {
            if ikey_le(st, o) {
                // o cannot sit below t yet at or above the least record
                // at or after t
                crate::store::lemma_ikey_lt_total(t, o);
                if ikey_lt(o, t) {
                    crate::store::lemma_ikey_lt_irreflexive(o);
                    if st == o {
                        if t != o {
                            crate::store::lemma_ikey_lt_transitive(o, t, o);
                        }
                    } else {
                        crate::store::lemma_ikey_le_lt_trans(t, st, o);
                        crate::store::lemma_ikey_lt_transitive(o, t, o);
                    }
                }
            }
            if ikey_le(t, o) {
                assert(ikey_le(st, o));
            }
        },
        None => {
            if ikey_le(t, o) {
                assert(ikey_lt(o, t));
                crate::store::lemma_ikey_lt_irreflexive(o);
                if t != o {
                    crate::store::lemma_ikey_lt_transitive(o, t, o);
                }
            }
        },
    }
}

/// Any filter of the store's finite domain is finite.
proof fn lemma_filter_finite(m: CfModel)
    requires
        wf_contents(m),
    ensures
        forall|f: spec_fn(IKeyModel) -> bool| (#[trigger] m.dom().filter(f)).finite(),
{
    assert forall|f: spec_fn(IKeyModel) -> bool| (#[trigger] m.dom().filter(f)).finite() by {
        m.dom().lemma_len_filter(f);
    }
}

/// Stepping the backward cursor down one record grows the walked set by
/// exactly that record.
proof fn lemma_bwd_walk_step(m: CfModel, snap: u64, top: Seq<u8>, p: IKeyModel, n: Option<IKeyModel>)
    requires
        wf_contents(m),
        m.dom().contains(p),
        lex_lt(p.0, top),
        match n {
            Some(nv) => m.dom().contains(nv) && ikey_lt(nv, p) && forall|o: IKeyModel|
                m.dom().contains(o) && ikey_lt(o, p) ==> ikey_le(o, nv),
            None => forall|o: IKeyModel| m.dom().contains(o) ==> ikey_le(p, o),
        },
    ensures
        bwd_walked(m, top, n) =~= bwd_walked(m, top, Some(p)).insert(p),
        bwd_walked(m, top, n).len() == bwd_walked(m, top, Some(p)).len() + 1,
        bwd_walked_deletions(m, snap, top, n) =~= if entry_visible(snap, p.1) && p.2
            == TAG_DELETION {
            bwd_walked_deletions(m, snap, top, Some(p)).insert(p)
        } else {
            bwd_walked_deletions(m, snap, top, Some(p))
        },
        bwd_walked_deletions(m, snap, top, n).len() == bwd_walked_deletions(
            m,
            snap,
            top,
            Some(p),
        ).len() + (if entry_visible(snap, p.1) && p.2 == TAG_DELETION {
            1int
        } else {
            0int
        }),
{
    let before = bwd_walked(m, top, Some(p));
    let after = bwd_walked(m, top, n);
    assert forall|e: IKeyModel| after.contains(e) implies before.insert(p).contains(e) by {
        if e != p {
            // e sits above the new cursor; if it were at or below p it
            // would lie strictly between the two, where nothing is
            match n {
                Some(nv) => {
                    assert(ikey_lt(nv, e));
                    crate::store::lemma_ikey_lt_total(p, e);
                    if ikey_lt(e, p) {
                        assert(ikey_le(e, nv));
                        crate::store::lemma_ikey_lt_irreflexive(e);
                        if e != nv {
                            crate::store::lemma_ikey_lt_transitive(e, nv, e);
                        }
                    }
                },
                None => {
                    assert(ikey_le(p, e));
                    crate::store::lemma_ikey_lt_total(p, e);
                    if !ikey_lt(p, e) {
                        assert(false);
                    }
                },
            }
        }
    }
    assert forall|e: IKeyModel| before.insert(p).contains(e) implies after.contains(e) by {
        if e == p {
            match n {
                Some(nv) => {
                    assert(ikey_lt(nv, p));
                },
                None => {},
            }
        } else {
            assert(before.contains(e));
            assert(ikey_lt(p, e));
            match n {
                Some(nv) => {
                    crate::store::lemma_ikey_lt_transitive(nv, p, e);
                },
                None => {},
            }
        }
    }
    assert(!before.contains(p)) by {
        crate::store::lemma_ikey_lt_irreflexive(p);
    }
    assert(before.finite() && after.finite()) by {
        m.dom().lemma_len_filter(|e: IKeyModel| ikey_lt(p, e) && lex_lt(e.0, top));
        match n {
            Some(nv) => {
                m.dom().lemma_len_filter(|e: IKeyModel| ikey_lt(nv, e) && lex_lt(e.0, top));
            },
            None => {
                m.dom().lemma_len_filter(|e: IKeyModel| lex_lt(e.0, top));
            },
        }
    }
    assert(after.len() == before.len() + 1) by {
        assert(after =~= before.insert(p));
    }
    let dbefore = bwd_walked_deletions(m, snap, top, Some(p));
    let dafter = bwd_walked_deletions(m, snap, top, n);
    assert(dbefore.finite()) by {
        before.lemma_len_filter(|e: IKeyModel| entry_visible(snap, e.1) && e.2 == TAG_DELETION);
    }
    if entry_visible(snap, p.1) && p.2 == TAG_DELETION {
        assert(dafter =~= dbefore.insert(p));
        assert(!dbefore.contains(p)) by {
            crate::store::lemma_ikey_lt_irreflexive(p);
        }
        assert(dafter.len() == dbefore.len() + 1);
    } else {
        assert(dafter =~= dbefore);
    }
}

/// Whether a record with inverted sequence `rev` is visible at `snap`.
fn rev_visible(snap: u64, rev: u64) -> (r: bool)
    requires
        rev <= MAX_SEQUENCE_NUMBER,
    ensures
        r == entry_visible(snap, rev),
{
    let clamp = crate::codec::rev_of_seq_exec(snap);
    rev >= clamp
}

impl RegionCacheIterator {
    /// Whether `uk` keeps the active prefix.
    fn check_prefix(&self, uk: &[u8]) -> (r: bool)
        ensures
            r == self.prefix_matches(uk@),
    {
        match &self.prefix {
            None => true,
            Some(p) => {
                if uk.len() < 8 {
                    false
                } else {
                    let pre = vstd::slice::slice_subrange(uk, 0, uk.len() - 8);
                    let r = bytes_eq(pre, p.as_slice());
                    proof {
                        assert(uk@.subrange(0, uk@.len() - 8) =~= uk@.take(uk@.len() - 8));
                    }
                    r
                }
            },
        }
    }


    /// The scan loop's knowledge about its current record.
    pub open spec fn entry_inv(
        self,
        m: CfModel,
        t: IKeyModel,
        from: Seq<u8>,
        skip: bool,
        entry: Option<((Vec<u8>, u64, u8), Vec<u8>)>,
    ) -> bool {
        match entry {
            Some(e) => {
                &&& m.dom().contains(ikey_view(e.0))
                &&& m[ikey_view(e.0)] == e.1@
                &&& ikey_le(t, ikey_view(e.0))
                &&& forall|uk: Seq<u8>|
                    lex_le(from, uk) && lex_lt(uk, e.0.0@) ==> !(#[trigger] visible_has_value(
                        m,
                        self.sequence_number,
                        uk,
                    ))
                &&& lex_le(from, e.0.0@) || (skip && e.0.0@ == self.saved_user_key@)
                &&& (!(skip && e.0.0@ == self.saved_user_key@) ==> forall|o: IKeyModel|
                    #[trigger] m.dom().contains(o) && o.0 == e.0.0@ && ikey_le(t, o) && ikey_lt(
                        o,
                        ikey_view(e.0),
                    ) ==> !entry_visible(self.sequence_number, o.1))
                &&& forall|o: IKeyModel| #[trigger]
                    m.dom().contains(o) && ikey_le(t, o) && ikey_lt(o, ikey_view(e.0))
                        ==> self.prefix_matches(o.0)
            },
            None => forall|uk: Seq<u8>|
                lex_le(from, uk) ==> !(#[trigger] visible_has_value(m, self.sequence_number, uk)),
        }
    }

    /// The forward scan: starting from the record `entry_in` (the least
    /// record at or after the seek target `t` not yet dealt with), walks
    /// records in order and stands on the first user key at or after
    /// `from` whose newest visible record is a live value; stops at the
    /// upper bound or the first record breaking the active prefix. With
    /// `skip_saved_key_in` the scan first drains the remaining records of
    /// `saved_user_key`.
    fn find_next_visible_key(
        &mut self,
        store: &CfStore,
        skip_saved_key_in: bool,
        entry_in: Option<((Vec<u8>, u64, u8), Vec<u8>)>,
        Ghost(from): Ghost<Seq<u8>>,
        Ghost(t): Ghost<IKeyModel>,
    )
        requires
            wf_contents(store_contents(*store)),
            old(self).direction == Direction::Forward,
            old(self).prefix is Some ==> old(self).prefix_same_as_start,
            lex_le(old(self).lower_bound@, from),
            lex_le(t.0, from),
            forall|o: IKeyModel| #[trigger]
                store_contents(*store).dom().contains(o) && o.0 == t.0 && ikey_lt(o, t)
                    ==> !entry_visible(old(self).sequence_number, o.1),
            skip_saved_key_in ==> from == old(self).saved_user_key@.push(0u8),
            !skip_saved_key_in ==> from == t.0,
            skip_saved_key_in ==> visible_has_value(
                store_contents(*store),
                old(self).sequence_number,
                old(self).saved_user_key@,
            ),
            match entry_in {
                Some(e) => {
                    &&& store_contents(*store).dom().contains(ikey_view(e.0))
                    &&& store_contents(*store)[ikey_view(e.0)] == e.1@
                    &&& ikey_le(t, ikey_view(e.0))
                    &&& forall|o: IKeyModel| #[trigger]
                        store_contents(*store).dom().contains(o) && ikey_le(t, o) && ikey_lt(
                            o,
                            ikey_view(e.0),
                        ) ==> lex_lt(o.0, from) && old(self).prefix_matches(o.0)
                    &&& lex_le(from, e.0.0@) || (skip_saved_key_in && e.0.0@ == old(self).saved_user_key@)
                },
                None => forall|o: IKeyModel| #[trigger]
                    store_contents(*store).dom().contains(o) && ikey_le(t, o) ==> lex_lt(o.0, from)
                        && old(self).prefix_matches(o.0),
            },
        ensures
            final(self).direction == Direction::Forward,
            final(self).lower_bound == old(self).lower_bound,
            final(self).upper_bound == old(self).upper_bound,
            final(self).sequence_number == old(self).sequence_number,
            final(self).prefix == old(self).prefix,
            final(self).prefix_same_as_start == old(self).prefix_same_as_start,
            final(self).snapshot_read_ts == old(self).snapshot_read_ts,
            final(self).fwd_outcome(store_contents(*store), from, t),
            final(self).wf(store_contents(*store)),
            final(self).prefix is None ==> final(self).internal_key_skipped_count == counted(
                old(self).internal_key_skipped_count,
                fwd_skipped_win(
                    store_contents(*store),
                    old(self).sequence_number,
                    skip_saved_key_in,
                    old(self).saved_user_key@,
                    nxt_view(entry_in),
                    if final(self).valid {
                        final(self).saved_user_key@
                    } else {
                        final(self).upper_bound@
                    },
                ).len() as int,
            ),
            final(self).prefix is None ==> final(self).internal_delete_skipped_count == counted(
                old(self).internal_delete_skipped_count,
                fwd_tops_win(
                    store_contents(*store),
                    old(self).sequence_number,
                    nxt_view(entry_in),
                    if final(self).valid {
                        final(self).saved_user_key@
                    } else {
                        final(self).upper_bound@
                    },
                ).len() as int,
            ),
    {
        let ghost m = store_contents(*store);
        let ghost snap = old(self).sequence_number;
        let ghost start0 = nxt_view(entry_in);
        let ghost saved0 = old(self).saved_user_key@;
        let mut entry = entry_in;
        let mut skip = skip_saved_key_in;
        self.valid = false;
        proof {
            if skip {
                crate::byteorder::lemma_lex_lt_push_zero(old(self).saved_user_key@);
            }
            // a visible-value witness of any user key in the window sits at
            // or after the scan's starting record
            assert forall|uk: Seq<u8>|
                lex_le(from, uk) && (match entry {
                    Some(e) => lex_lt(uk, e.0.0@),
                    None => true,
                }) implies !(#[trigger] visible_has_value(m, snap, uk)) by {
                if visible_has_value(m, snap, uk) {
                    let rv = choose|rv: u64| is_newest_visible(m, snap, uk, rv, TAG_VALUE);
                    let w: IKeyModel = (uk, rv, TAG_VALUE);
                    assert(m.dom().contains(w) && entry_visible(snap, rv));
                    lemma_ikey_lt_total_pub(w, t);
                    if ikey_lt(w, t) {
                        if uk == t.0 {
                            assert(!entry_visible(snap, w.1));
                        } else {
                            assert(lex_lt(w.0, t.0));
                            crate::byteorder::lemma_lex_le_trans(t.0, from, uk);
                            crate::byteorder::lemma_lex_lt_le_trans(uk, t.0, uk);
                            crate::byteorder::lemma_lex_lt_irreflexive(uk);
                        }
                    } else {
                        assert(ikey_le(t, w));
                        match entry {
                            Some(e) => {
                                lemma_ikey_lt_total_pub(w, ikey_view(e.0));
                                if ikey_lt(w, ikey_view(e.0)) {
                                    assert(lex_lt(w.0, from));
                                    crate::byteorder::lemma_lex_lt_le_trans(uk, from, uk);
                                    crate::byteorder::lemma_lex_lt_irreflexive(uk);
                                } else {
                                    assert(ikey_le(ikey_view(e.0), w));
                                    crate::store::lemma_ikey_le_user(ikey_view(e.0), w);
                                    crate::byteorder::lemma_lex_lt_le_trans(uk, e.0.0@, uk);
                                    crate::byteorder::lemma_lex_lt_irreflexive(uk);
                                }
                            },
                            None => {
                                assert(lex_lt(w.0, from));
                                crate::byteorder::lemma_lex_lt_le_trans(uk, from, uk);
                                crate::byteorder::lemma_lex_lt_irreflexive(uk);
                            },
                        }
                    }
                }
            }
            if entry is Some {
                let e0 = ikey_view(entry->Some_0.0);
                if !(skip && e0.0 == self.saved_user_key@) {
                    assert(lex_le(from, e0.0));
                    assert forall|o: IKeyModel| #[trigger]
                        m.dom().contains(o) && o.0 == e0.0 && ikey_le(t, o) && ikey_lt(
                        o,
                        e0,
                    ) implies !entry_visible(snap, o.1) by {
                        assert(lex_lt(o.0, from));
                        crate::byteorder::lemma_lex_le_lt_trans(from, o.0, from);
                        crate::byteorder::lemma_lex_lt_irreflexive(from);
                    }
                }
            }
            // nothing has been counted yet
            assert(fwd_skipped(m, snap, skip, saved0, start0, nxt_view(entry)) =~= Set::empty())
                by {
                assert forall|e: IKeyModel|
                    !(#[trigger] fwd_skipped(m, snap, skip, saved0, start0, nxt_view(
                        entry,
                    )).contains(e)) by {
                    if fwd_skipped(m, snap, skip, saved0, start0, nxt_view(entry)).contains(e) {
                        let st = start0->Some_0;
                        assert(ikey_le(st, e) && ikey_lt(e, st));
                        crate::store::lemma_ikey_lt_irreflexive(e);
                        if e != st {
                            crate::store::lemma_ikey_lt_transitive(e, st, e);
                        }
                    }
                }
            }
            assert(fwd_tombstone_tops(m, snap, start0, nxt_view(entry)) =~= Set::empty()) by {
                assert forall|e: IKeyModel|
                    !(#[trigger] fwd_tombstone_tops(m, snap, start0, nxt_view(entry)).contains(
                        e,
                    )) by {
                    if fwd_tombstone_tops(m, snap, start0, nxt_view(entry)).contains(e) {
                        let st = start0->Some_0;
                        assert(ikey_le(st, e) && ikey_lt(e, st));
                        crate::store::lemma_ikey_lt_irreflexive(e);
                        if e != st {
                            crate::store::lemma_ikey_lt_transitive(e, st, e);
                        }
                    }
                }
            }
            assert(Set::<IKeyModel>::empty().len() == 0);
            assert forall|o: IKeyModel| #[trigger]
                m.dom().contains(o) && (match start0 {
                    Some(st) => ikey_le(st, o),
                    None => false,
                }) && (match entry {
                    Some(ref e) => ikey_lt(o, ikey_view(e.0)),
                    None => true,
                }) implies lex_lt(o.0, self.upper_bound@) by {
                if entry is Some {
                    let st = start0->Some_0;
                    assert(ikey_le(st, o) && ikey_lt(o, st));
                    crate::store::lemma_ikey_lt_irreflexive(o);
                    if o != st {
                        crate::store::lemma_ikey_lt_transitive(o, st, o);
                    }
                }
            }
        }
        loop
            invariant_except_break
                wf_contents(m),
                m == store_contents(*store),
                self.direction == Direction::Forward,
                self.lower_bound == old(self).lower_bound,
                self.upper_bound == old(self).upper_bound,
                self.sequence_number == old(self).sequence_number,
                self.prefix == old(self).prefix,
                self.prefix_same_as_start == old(self).prefix_same_as_start,
                self.snapshot_read_ts == old(self).snapshot_read_ts,
                snap == self.sequence_number,
                !self.valid,
                self.prefix is Some ==> self.prefix_same_as_start,
                lex_le(self.lower_bound@, from),
                lex_le(t.0, from),
                forall|o: IKeyModel| #[trigger]
                    m.dom().contains(o) && o.0 == t.0 && ikey_lt(o, t) ==> !entry_visible(
                        snap,
                        o.1,
                    ),
                skip ==> lex_lt(self.saved_user_key@, from) || !visible_has_value(
                    m,
                    snap,
                    self.saved_user_key@,
                ),
                skip ==> (self.saved_user_key@ == old(self).saved_user_key@ && skip_saved_key_in)
                    || lex_le(from, self.saved_user_key@),
                skip_saved_key_in ==> from == old(self).saved_user_key@.push(0u8),
                skip_saved_key_in ==> visible_has_value(m, snap, saved0),
                saved0 == old(self).saved_user_key@,
                skip ==> (skip_saved_key_in && self.saved_user_key@ == saved0) || (exists|rv: u64|
                    #[trigger] is_newest_visible(m, snap, self.saved_user_key@, rv, TAG_DELETION)
                        && (match entry {
                        Some(e) => ikey_lt(
                            (self.saved_user_key@, rv, TAG_DELETION),
                            ikey_view(e.0),
                        ),
                        None => true,
                    })),
                self.internal_key_skipped_count == counted(
                    old(self).internal_key_skipped_count,
                    fwd_skipped(m, snap, skip_saved_key_in, saved0, start0, nxt_view(entry)).len() as int,
                ),
                self.internal_delete_skipped_count == counted(
                    old(self).internal_delete_skipped_count,
                    fwd_tombstone_tops(m, snap, start0, nxt_view(entry)).len() as int,
                ),
                forall|o: IKeyModel| #[trigger]
                    m.dom().contains(o) && (match start0 {
                        Some(st) => ikey_le(st, o),
                        None => false,
                    }) && (match entry {
                        Some(e) => ikey_lt(o, ikey_view(e.0)),
                        None => true,
                    }) ==> lex_lt(o.0, self.upper_bound@),
                match entry {
                    Some(e) => start0 matches Some(st) && ikey_le(st, ikey_view(e.0)),
                    None => true,
                },
                self.entry_inv(m, t, from, skip, entry),
            ensures
                self.direction == Direction::Forward,
                self.lower_bound == old(self).lower_bound,
                self.upper_bound == old(self).upper_bound,
                self.sequence_number == old(self).sequence_number,
                self.prefix == old(self).prefix,
                self.prefix_same_as_start == old(self).prefix_same_as_start,
                self.snapshot_read_ts == old(self).snapshot_read_ts,
                self.fwd_outcome(m, from, t),
                self.wf(m),
                self.prefix is None ==> self.internal_key_skipped_count == counted(
                    old(self).internal_key_skipped_count,
                    fwd_skipped_win(
                        m,
                        snap,
                        skip_saved_key_in,
                        saved0,
                        start0,
                        if self.valid {
                            self.saved_user_key@
                        } else {
                            self.upper_bound@
                        },
                    ).len() as int,
                ),
                self.prefix is None ==> self.internal_delete_skipped_count == counted(
                    old(self).internal_delete_skipped_count,
                    fwd_tops_win(
                        m,
                        snap,
                        start0,
                        if self.valid {
                            self.saved_user_key@
                        } else {
                            self.upper_bound@
                        },
                    ).len() as int,
                ),
            decreases (match entry {
                Some(e) => keys_above(m, ikey_view(e.0)).len() + 1,
                None => 0,
            }),
        {
            match entry {
                None => {
                    self.valid = false;
                    proof {
                        assert forall|uk: Seq<u8>| !(#[trigger] self.fwd_emittable(
                            m,
                            from,
                            t,
                            uk,
                        )) by {
                            if self.fwd_emittable(m, from, t, uk) {
                                assert(visible_has_value(m, snap, uk) && lex_le(from, uk));
                            }
                        }
                        // everything was walked, and all of it lies under
                        // the upper bound
                        assert(fwd_skipped(m, snap, skip_saved_key_in, saved0, start0, pos_of(entry))
                            =~= fwd_skipped_win(
                            m,
                            snap,
                            skip_saved_key_in,
                            saved0,
                            start0,
                            self.upper_bound@,
                        ));
                        assert(fwd_tombstone_tops(m, snap, start0, pos_of(entry)) =~= fwd_tops_win(
                            m,
                            snap,
                            start0,
                            self.upper_bound@,
                        ));
                    }
                    break ;
                },
                Some(e) => {
                    let ghost ev = ikey_view(e.0);
                    let ghost euser = e.0.0@;
                    if !bytes_lt(e.0.0.as_slice(), self.upper_bound.as_slice()) {
                        self.valid = false;
                        proof {
                            // the walked records are exactly those under the
                            // upper bound
                            crate::byteorder::lemma_lex_lt_total(euser, self.upper_bound@);
                            assert(lex_le(self.upper_bound@, euser));
                            assert(fwd_skipped(m, snap, skip_saved_key_in, saved0, start0, pos_of(entry))
                                =~= fwd_skipped_win(
                                m,
                                snap,
                                skip_saved_key_in,
                                saved0,
                                start0,
                                self.upper_bound@,
                            )) by {
                                assert forall|o: IKeyModel|
                                    fwd_skipped_win(
                                        m,
                                        snap,
                                        skip_saved_key_in,
                                        saved0,
                                        start0,
                                        self.upper_bound@,
                                    ).contains(o) implies #[trigger] fwd_skipped(
                                    m,
                                    snap,
                                    skip_saved_key_in,
                                    saved0,
                                    start0,
                                    pos_of(entry),
                                ).contains(o) by {
                                    crate::byteorder::lemma_lex_lt_le_trans(
                                        o.0,
                                        self.upper_bound@,
                                        euser,
                                    );
                                    assert(ikey_lt(o, ev));
                                }
                            }
                            assert(fwd_tombstone_tops(m, snap, start0, pos_of(entry))
                                =~= fwd_tops_win(m, snap, start0, self.upper_bound@)) by {
                                assert forall|o: IKeyModel|
                                    fwd_tops_win(m, snap, start0, self.upper_bound@).contains(o)
                                    implies #[trigger] fwd_tombstone_tops(
                                    m,
                                    snap,
                                    start0,
                                    pos_of(entry),
                                ).contains(o) by {
                                    crate::byteorder::lemma_lex_lt_le_trans(
                                        o.0,
                                        self.upper_bound@,
                                        euser,
                                    );
                                    assert(ikey_lt(o, ev));
                                }
                            }
                            assert forall|uk: Seq<u8>| !(#[trigger] self.fwd_emittable(
                                m,
                                from,
                                t,
                                uk,
                            )) by {
                                if self.fwd_emittable(m, from, t, uk) {
                                    crate::byteorder::lemma_lex_lt_total(euser, self.upper_bound@);
                                    crate::byteorder::lemma_lex_lt_le_trans(
                                        uk,
                                        self.upper_bound@,
                                        euser,
                                    );
                                    assert(lex_lt(uk, euser));
                                    assert(!visible_has_value(m, snap, uk));
                                }
                            }
                        }
                        break ;
                    }
                    if !self.check_prefix(e.0.0.as_slice()) {
                        self.valid = false;
                        proof {
                            assert forall|uk: Seq<u8>| !(#[trigger] self.fwd_emittable(
                                m,
                                from,
                                t,
                                uk,
                            )) by {
                                if self.fwd_emittable(m, from, t, uk) {
                                    crate::byteorder::lemma_lex_lt_total(uk, euser);
                                    if lex_lt(uk, euser) {
                                        assert(!visible_has_value(m, snap, uk));
                                    } else {
                                        assert(lex_le(euser, uk));
                                        assert(self.pref_clear(m, t, uk));
                                        assert(m.dom().contains(ev) && ikey_le(t, ev) && lex_le(
                                            ev.0,
                                            uk,
                                        ));
                                        assert(self.prefix_matches(euser));
                                    }
                                }
                            }
                        }
                        break ;
                    }
                    proof {
                        assert(ev.1 <= MAX_SEQUENCE_NUMBER && (ev.2 == TAG_DELETION || ev.2
                            == TAG_VALUE)) by {
                            assert(m.dom().contains(ev));
                        }
                    }
                    let vis = rev_visible(self.sequence_number, e.0.1);
                    if vis {
                        let same_saved = skip && bytes_eq(
                            e.0.0.as_slice(),
                            self.saved_user_key.as_slice(),
                        );
                        if same_saved {
                            self.internal_key_skipped_count = bump(self.internal_key_skipped_count);
                            let nxt = store_seek_gt(store, &e.0);
                            proof {
                                assert(lex_le(from, euser) || from == euser.push(0u8));
                                lemma_step(m, snap, t, from, *self, ev, euser, nxt_view(nxt), skip, true);
                                if nxt is Some {
                                    crate::model::lemma_keys_above_shrinks(
                                        m,
                                        ev,
                                        ikey_view(nxt->Some_0.0),
                                    );
                                    crate::store::lemma_ikey_le_lt_trans(
                                        t,
                                        ev,
                                        ikey_view(nxt->Some_0.0),
                                    );
                                }
                                assert(self.entry_inv(m, t, from, skip, nxt));
                                // counting: this visible leftover of the
                                // drained key is a skipped record
                                if skip_saved_key_in && self.saved_user_key@ == saved0 {
                                    assert(fwd_skip_filter(m, snap, skip_saved_key_in, saved0, ev));
                                    assert(!(is_newest_visible(m, snap, ev.0, ev.1, ev.2) && ev.2
                                        == TAG_DELETION)) by {
                                        if is_newest_visible(m, snap, ev.0, ev.1, ev.2) && ev.2
                                            == TAG_DELETION {
                                            let rv = choose|rv: u64|
                                                is_newest_visible(m, snap, saved0, rv, TAG_VALUE);
                                            crate::model::lemma_newest_visible_unique(
                                                m,
                                                snap,
                                                saved0,
                                                ev.1,
                                                ev.2,
                                                rv,
                                                TAG_VALUE,
                                            );
                                        }
                                    }
                                } else {
                                    let rv = choose|rv: u64|
                                        #![trigger is_newest_visible(m, snap, self.saved_user_key@, rv, TAG_DELETION)]
                                        is_newest_visible(
                                            m,
                                            snap,
                                            self.saved_user_key@,
                                            rv,
                                            TAG_DELETION,
                                        ) && ikey_lt(
                                            (self.saved_user_key@, rv, TAG_DELETION),
                                            ev,
                                        );
                                    assert(tombstoned(m, snap, ev.0));
                                    assert(!is_newest_visible(m, snap, ev.0, ev.1, ev.2)) by {
                                        if is_newest_visible(m, snap, ev.0, ev.1, ev.2) {
                                            crate::model::lemma_newest_visible_unique(
                                                m,
                                                snap,
                                                ev.0,
                                                ev.1,
                                                ev.2,
                                                rv,
                                                TAG_DELETION,
                                            );
                                            crate::store::lemma_ikey_lt_irreflexive(ev);
                                        }
                                    }
                                    assert(fwd_skip_filter(m, snap, skip_saved_key_in, saved0, ev));
                                }
                                lemma_fwd_count_step(
                                    m,
                                    snap,
                                    skip_saved_key_in,
                                    saved0,
                                    start0,
                                    ev,
                                    nxt_view(nxt),
                                );
                                lemma_fwd_window_step(
                                    m,
                                    self.upper_bound@,
                                    start0,
                                    ev,
                                    nxt_view(nxt),
                                );
                            }
                            entry = nxt;
                        } else {
                            let ghost saved_old = self.saved_user_key@;
                            proof {
                                if skip && euser == self.saved_user_key@ {
                                    assert(same_saved);
                                }
                                assert(lex_le(from, euser));
                            }
                            self.saved_user_key = vstd::slice::slice_to_vec(e.0.0.as_slice());
                            if e.0.2 == TAG_DELETION {
                                skip = true;
                                self.internal_delete_skipped_count = bump(
                                    self.internal_delete_skipped_count,
                                );
                                let nxt = store_seek_gt(store, &e.0);
                                proof {
                                    lemma_newest_here(m, snap, t, ev);
                                    crate::model::lemma_visible_get_deletion(m, snap, euser, ev.1);
                                    assert(!visible_has_value(m, snap, euser));
                                    lemma_step(m, snap, t, from, *self, ev, euser, nxt_view(nxt), skip, false);
                                    if nxt is Some {
                                        crate::model::lemma_keys_above_shrinks(
                                            m,
                                            ev,
                                            ikey_view(nxt->Some_0.0),
                                        );
                                        crate::store::lemma_ikey_le_lt_trans(
                                            t,
                                            ev,
                                            ikey_view(nxt->Some_0.0),
                                        );
                                    }
                                    assert(self.entry_inv(m, t, from, skip, nxt));
                                    // counting: the newest visible tombstone
                                    // of a key the scan passes
                                    assert(is_newest_visible(m, snap, ev.0, ev.1, ev.2) && ev.2
                                        == TAG_DELETION);
                                    assert(!fwd_skip_filter(
                                        m,
                                        snap,
                                        skip_saved_key_in,
                                        saved0,
                                        ev,
                                    )) by {
                                        if skip_saved_key_in && ev.0 == saved0 {
                                            crate::byteorder::lemma_lex_lt_push_zero(saved0);
                                            crate::byteorder::lemma_lex_lt_le_trans(
                                                saved0,
                                                from,
                                                euser,
                                            );
                                            crate::byteorder::lemma_lex_lt_irreflexive(saved0);
                                        }
                                    }
                                    lemma_fwd_count_step(
                                        m,
                                        snap,
                                        skip_saved_key_in,
                                        saved0,
                                        start0,
                                        ev,
                                        nxt_view(nxt),
                                    );
                                    lemma_fwd_window_step(
                                        m,
                                        self.upper_bound@,
                                        start0,
                                        ev,
                                        nxt_view(nxt),
                                    );
                                }
                                entry = nxt;
                            } else {
                                self.saved_value = Some(e.1);
                                self.cur = Some(e.0);
                                self.valid = true;
                                proof {
                                    assert(ev.2 == TAG_VALUE);
                                    lemma_newest_here(m, snap, t, ev);
                                    crate::model::lemma_visible_get_value(m, snap, euser, ev.1);
                                    crate::byteorder::lemma_lex_le_trans(
                                        self.lower_bound@,
                                        from,
                                        euser,
                                    );
                                    // the walked records are exactly those
                                    // before the emitted key
                                    assert(fwd_skipped(m, snap, skip_saved_key_in, saved0, start0, pos_of(entry))
                                        =~= fwd_skipped_win(
                                        m,
                                        snap,
                                        skip_saved_key_in,
                                        saved0,
                                        start0,
                                        euser,
                                    )) by {
                                        assert forall|o: IKeyModel|
                                            #![trigger fwd_skipped(m, snap, skip_saved_key_in, saved0, start0, pos_of(entry)).contains(o)]
                                            #![trigger fwd_skipped_win(m, snap, skip_saved_key_in, saved0, start0, euser).contains(o)]
                                            m.dom().contains(o) && fwd_skip_filter(
                                            m,
                                            snap,
                                            skip_saved_key_in,
                                            saved0,
                                            o,
                                        ) implies (ikey_lt(o, ev) <==> lex_lt(o.0, euser)) by {
                                            if ikey_lt(o, ev) && !lex_lt(o.0, euser) {
                                                crate::store::lemma_ikey_le_user(o, ev);
                                                assert(o.0 == euser);
                                                assert(entry_visible(snap, o.1));
                                                assert(is_newest_visible(m, snap, euser, ev.1, ev.2));
                                                assert(ev.1 < o.1 || (ev.1 == o.1 && ev.2 <= o.2));
                                                crate::byteorder::lemma_lex_lt_irreflexive(euser);
                                                assert(false);
                                            }
                                            if lex_lt(o.0, euser) {
                                                assert(ikey_lt(o, ev));
                                            }
                                        }
                                    }
                                    assert(fwd_tombstone_tops(m, snap, start0, pos_of(entry))
                                        =~= fwd_tops_win(m, snap, start0, euser)) by {
                                        assert forall|o: IKeyModel|
                                            #![trigger fwd_tombstone_tops(m, snap, start0, pos_of(entry)).contains(o)]
                                            #![trigger fwd_tops_win(m, snap, start0, euser).contains(o)]
                                            m.dom().contains(o) && is_newest_visible(
                                            m,
                                            snap,
                                            o.0,
                                            o.1,
                                            o.2,
                                        ) && o.2 == TAG_DELETION implies (ikey_lt(o, ev) <==> lex_lt(
                                            o.0,
                                            euser,
                                        )) by {
                                            if ikey_lt(o, ev) && !lex_lt(o.0, euser) {
                                                crate::store::lemma_ikey_le_user(o, ev);
                                                assert(o.0 == euser);
                                                crate::model::lemma_newest_visible_unique(
                                                    m,
                                                    snap,
                                                    euser,
                                                    o.1,
                                                    o.2,
                                                    ev.1,
                                                    ev.2,
                                                );
                                                assert(false);
                                            }
                                            if lex_lt(o.0, euser) {
                                                assert(ikey_lt(o, ev));
                                            }
                                        }
                                    }
                                    assert(self.pref_clear(m, t, euser)) by {
                                        assert forall|o: IKeyModel| #[trigger]
                                            m.dom().contains(o) && ikey_le(t, o) && lex_le(
                                            o.0,
                                            euser,
                                        ) implies self.prefix_matches(o.0) by {
                                            lemma_ikey_lt_total_pub(o, ev);
                                            if ikey_lt(ev, o) {
                                                crate::store::lemma_ikey_le_user(ev, o);
                                                crate::byteorder::lemma_lex_le_antisymmetric(
                                                    euser,
                                                    o.0,
                                                );
                                            }
                                        }
                                    }
                                    assert(visible_has_value(m, snap, euser));
                                }
                                break ;
                            }
                        }
                    } else {
                        if skip && bytes_lt(self.saved_user_key.as_slice(), e.0.0.as_slice()) {
                            skip = false;
                            proof {
                                // the user key moved past the drained one, so
                                // no record of it remains to skip
                                assert(lex_le(from, euser)) by {
                                    crate::byteorder::lemma_lex_successor(
                                        self.saved_user_key@,
                                        euser,
                                    );
                                    if from == self.saved_user_key@.push(0u8) {
                                    } else {
                                        assert(lex_le(from, euser));
                                    }
                                }
                            }
                        }
                        let nxt = store_seek_gt(store, &e.0);
                        proof {
                            if !(skip && euser == self.saved_user_key@) {
                                assert forall|o: IKeyModel| #[trigger]
                                    m.dom().contains(o) && o.0 == euser && ikey_le(t, o)
                                        && ikey_lt(o, ev) implies !entry_visible(snap, o.1) by {
                                    crate::byteorder::lemma_lex_lt_irreflexive(
                                        self.saved_user_key@,
                                    );
                                }
                                assert(!entry_visible(snap, ev.1));
                            }
                            lemma_step(m, snap, t, from, *self, ev, euser, nxt_view(nxt), skip, skip && euser == self.saved_user_key@);
                            // counting: an invisible record is neither a
                            // skipped key nor a skipped tombstone
                            assert(!fwd_skip_filter(m, snap, skip_saved_key_in, saved0, ev));
                            assert(!(is_newest_visible(m, snap, ev.0, ev.1, ev.2) && ev.2
                                == TAG_DELETION));
                            lemma_fwd_count_step(
                                m,
                                snap,
                                skip_saved_key_in,
                                saved0,
                                start0,
                                ev,
                                nxt_view(nxt),
                            );
                            lemma_fwd_window_step(
                                m,
                                self.upper_bound@,
                                start0,
                                ev,
                                nxt_view(nxt),
                            );
                        }
                        proof {
                            if nxt is Some {
                                crate::model::lemma_keys_above_shrinks(
                                    m,
                                    ev,
                                    ikey_view(nxt->Some_0.0),
                                );
                                crate::store::lemma_ikey_le_lt_trans(
                                    t,
                                    ev,
                                    ikey_view(nxt->Some_0.0),
                                );
                            }
                            assert(self.entry_inv(m, t, from, skip, nxt));
                        }
                        entry = nxt;
                    }
                },
            }
        }
    }
}

/// The model view of a step result.
pub open spec fn nxt_view(nxt: Option<((Vec<u8>, u64, u8), Vec<u8>)>) -> Option<IKeyModel> {
    match nxt {
        Some(e) => Some(ikey_view(e.0)),
        None => None,
    }
}

/// The model view of a scan cursor.
pub open spec fn pos_of(entry: Option<((Vec<u8>, u64, u8), Vec<u8>)>) -> Option<IKeyModel> {
    nxt_view(entry)
}

/// A visible record whose earlier records (in scan order) are all
/// invisible is the newest visible record of its user key.
proof fn lemma_newest_here(m: CfModel, snap: u64, t: IKeyModel, c: IKeyModel)
    requires
        wf_contents(m),
        m.dom().contains(c),
        entry_visible(snap, c.1),
        ikey_le(t, c),
        forall|o: IKeyModel| #[trigger]
            m.dom().contains(o) && o.0 == c.0 && ikey_le(t, o) && ikey_lt(o, c) ==> !entry_visible(
                snap,
                o.1,
            ),
        forall|o: IKeyModel| #[trigger]
            m.dom().contains(o) && o.0 == t.0 && ikey_lt(o, t) ==> !entry_visible(snap, o.1),
    ensures
        is_newest_visible(m, snap, c.0, c.1, c.2),
{
    crate::store::lemma_ikey_le_user(t, c);
    assert forall|r2: u64, t2: u8|
        m.dom().contains((c.0, r2, t2)) && entry_visible(snap, r2) implies c.1 < r2 || (c.1 == r2
        && c.2 <= t2) by {
        let o: IKeyModel = (c.0, r2, t2);
        lemma_ikey_lt_total_pub(o, c);
        if ikey_lt(o, c) {
            lemma_ikey_lt_total_pub(o, t);
            if ikey_lt(o, t) {
                if o.0 == t.0 {
                } else {
                    // o shares c's user key, which is at or after t's; an
                    // order below t forces it before t's, a contradiction
                    assert(lex_le(t.0, c.0));
                    assert(lex_lt(o.0, t.0) || (o.0 == t.0 && (o.1 < t.1 || (o.1 == t.1 && o.2
                        < t.2))));
                    crate::byteorder::lemma_lex_lt_asymmetric(o.0, t.0);
                    assert(false);
                }
            } else {
                assert(ikey_le(t, o));
            }
        } else if o == c {
        } else {
            assert(ikey_lt(c, o));
            crate::byteorder::lemma_lex_lt_irreflexive(c.0);
        }
    }
}

proof fn lemma_ikey_lt_total_pub(a: IKeyModel, b: IKeyModel)
    ensures
        ikey_lt(a, b) || ikey_lt(b, a) || a == b,
{
    crate::store::lemma_ikey_lt_total(a, b);
}

/// Stepping past a fully handled record keeps the scan's knowledge: no
/// user key before the next record can still be emitted, the next
/// record's group has no visible record before it, and every record the
/// scan passed keeps the prefix.
proof fn lemma_step(
    m: CfModel,
    snap: u64,
    t: IKeyModel,
    from: Seq<u8>,
    it: RegionCacheIterator,
    c: IKeyModel,
    cuser: Seq<u8>,
    nxt: Option<IKeyModel>,
    skip_now: bool,
    draining: bool,
)
    requires
        wf_contents(m),
        snap == it.sequence_number,
        c.0 == cuser,
        m.dom().contains(c),
        ikey_le(t, c),
        // the step result
        match nxt {
            Some(nv) => m.dom().contains(nv) && ikey_lt(c, nv) && forall|o: IKeyModel|
                m.dom().contains(o) && ikey_lt(c, o) ==> ikey_le(nv, o),
            None => forall|o: IKeyModel| m.dom().contains(o) ==> ikey_le(o, c),
        },
        // nothing before this record can be emitted
        forall|uk: Seq<u8>|
            lex_le(from, uk) && lex_lt(uk, cuser) ==> !(#[trigger] visible_has_value(
                m,
                snap,
                uk,
            )),
        // the record was dealt with
        draining ==> skip_now && cuser == it.saved_user_key@,
        !draining ==> (forall|o: IKeyModel| #[trigger]
            m.dom().contains(o) && o.0 == cuser && ikey_le(t, o) && ikey_lt(o, c)
                ==> !entry_visible(snap, o.1)) && (!entry_visible(snap, c.1) || (c.2
            == TAG_DELETION && skip_now && it.saved_user_key@ == cuser)),
        skip_now ==> lex_lt(it.saved_user_key@, from) || !visible_has_value(
            m,
            snap,
            it.saved_user_key@,
        ),
        skip_now && cuser == it.saved_user_key@ ==> lex_le(from, cuser) || from == cuser.push(
            0u8,
        ),
        !(skip_now && cuser == it.saved_user_key@) ==> lex_le(from, cuser),
        forall|o: IKeyModel| #[trigger]
            m.dom().contains(o) && o.0 == t.0 && ikey_lt(o, t) ==> !entry_visible(snap, o.1),
        forall|o: IKeyModel| #[trigger]
            m.dom().contains(o) && ikey_le(t, o) && ikey_lt(o, c) ==> it.prefix_matches(o.0),
        it.prefix_matches(cuser),
    ensures
        match nxt {
            Some(nv) => {
                &&& forall|uk: Seq<u8>|
                    lex_le(from, uk) && lex_lt(uk, nv.0) ==> !(#[trigger] visible_has_value(
                        m,
                        snap,
                        uk,
                    ))
                &&& !(skip_now && nv.0 == it.saved_user_key@) ==> forall|o: IKeyModel| #[trigger]
                    m.dom().contains(o) && o.0 == nv.0 && ikey_le(t, o) && ikey_lt(o, nv)
                        ==> !entry_visible(snap, o.1)
                &&& forall|o: IKeyModel| #[trigger]
                    m.dom().contains(o) && ikey_le(t, o) && ikey_lt(o, nv) ==> it.prefix_matches(
                        o.0,
                    )
                &&& lex_le(from, nv.0) || (skip_now && nv.0 == it.saved_user_key@)
            },
            None => forall|uk: Seq<u8>|
                lex_le(from, uk) ==> !(#[trigger] visible_has_value(m, snap, uk)),
        },
{
    crate::store::lemma_ikey_le_user(t, c);
    // A user key has no record in the store strictly between `c` and the
    // next record; a visible-value witness for it must sit somewhere.
    assert forall|uk: Seq<u8>|
        lex_le(from, uk) && (match nxt {
            Some(nv) => lex_lt(uk, nv.0),
            None => true,
        }) implies !(#[trigger] visible_has_value(m, snap, uk)) by {
        crate::byteorder::lemma_lex_lt_total(uk, cuser);
        if lex_lt(uk, cuser) {
            // covered by what the scan already knew
        } else if visible_has_value(m, snap, uk) {
            let rv = choose|rv: u64| is_newest_visible(m, snap, uk, rv, TAG_VALUE);
            let w: IKeyModel = (uk, rv, TAG_VALUE);
            assert(m.dom().contains(w) && entry_visible(snap, rv));
            if uk == cuser {
                // the scan is leaving the group of `cuser`, which is
                // resolved: drained, tombstoned, or without a visible
                // record at or before `c`, and with none after `c`
                if skip_now && cuser == it.saved_user_key@ {
                    crate::byteorder::lemma_lex_lt_asymmetric(cuser, from);
                    crate::byteorder::lemma_lex_lt_irreflexive(cuser);
                    assert(!visible_has_value(m, snap, cuser));
                    assert(false);
                } else {
                    lemma_ikey_lt_total_pub(w, c);
                    if ikey_lt(w, c) {
                        lemma_ikey_lt_total_pub(w, t);
                        if ikey_lt(w, t) {
                            if w.0 == t.0 {
                                assert(!entry_visible(snap, w.1));
                            } else {
                                assert(lex_lt(w.0, t.0) || (w.0 == t.0 && true));
                                crate::byteorder::lemma_lex_lt_asymmetric(w.0, t.0);
                            }
                        } else {
                            assert(ikey_le(t, w));
                            assert(!entry_visible(snap, w.1));
                        }
                    } else if w == c {
                        // c itself: invisible or a tombstone; either way
                        // no visible value record named w
                        if entry_visible(snap, c.1) {
                            assert(c.2 == TAG_DELETION);
                            assert(w.2 == TAG_VALUE);
                            assert(false);
                        }
                    } else {
                        assert(ikey_lt(c, w));
                        match nxt {
                            Some(nv) => {
                                assert(ikey_le(nv, w));
                                crate::store::lemma_ikey_le_user(nv, w);
                                assert(lex_le(nv.0, uk));
                                crate::byteorder::lemma_lex_lt_le_trans(uk, nv.0, uk);
                                crate::byteorder::lemma_lex_lt_irreflexive(uk);
                            },
                            None => {
                                assert(ikey_le(w, c));
                                crate::store::lemma_ikey_lt_irreflexive(w);
                                crate::store::lemma_ikey_lt_transitive(c, w, c);
                            },
                        }
                    }
                }
            } else {
                // uk strictly after cuser and strictly before the next
                // record's user key: no record of uk exists at all
                assert(lex_lt(cuser, uk));
                assert(ikey_lt(c, w)) by {
                    assert(lex_lt(c.0, w.0));
                }
                match nxt {
                    Some(nv) => {
                        assert(ikey_le(nv, w));
                        crate::store::lemma_ikey_le_user(nv, w);
                        assert(lex_le(nv.0, uk));
                        crate::byteorder::lemma_lex_lt_le_trans(uk, nv.0, uk);
                        crate::byteorder::lemma_lex_lt_irreflexive(uk);
                    },
                    None => {
                        assert(ikey_le(w, c));
                        crate::store::lemma_ikey_lt_irreflexive(w);
                        crate::store::lemma_ikey_lt_transitive(c, w, c);
                    },
                }
            }
        }
    }
    match nxt {
        Some(nv) => {
            // nothing lies strictly between c and nv
            assert forall|o: IKeyModel|
                m.dom().contains(o) && ikey_lt(c, o) && ikey_lt(o, nv) implies false by {
                assert(ikey_le(nv, o));
                crate::store::lemma_ikey_lt_irreflexive(o);
                if nv != o {
                    crate::store::lemma_ikey_lt_transitive(o, nv, o);
                }
            }
            crate::store::lemma_ikey_le_user(c, nv);
            // the next record's group has no visible record before it
            if !(skip_now && nv.0 == it.saved_user_key@) {
                assert forall|o: IKeyModel| #[trigger]
                    m.dom().contains(o) && o.0 == nv.0 && ikey_le(t, o) && ikey_lt(o, nv)
                    implies !entry_visible(snap, o.1) by {
                    lemma_ikey_lt_total_pub(o, c);
                    if ikey_lt(c, o) {
                        assert(false);
                    } else if o == c {
                        // then nv.0 == cuser; c dealt with:
                        assert(o.0 == cuser);
                        if entry_visible(snap, c.1) {
                            assert(c.2 == TAG_DELETION && skip_now && it.saved_user_key@ == cuser);
                            assert(false);
                        }
                    } else {
                        assert(ikey_lt(o, c));
                        // o is in cuser's group before c
                        assert(o.0 == nv.0);
                        crate::store::lemma_ikey_le_user(c, nv);
                        if o.0 == cuser {
                            if skip_now && cuser == it.saved_user_key@ {
                                assert(false);
                            }
                            assert(!entry_visible(snap, o.1));
                        } else {
                            // o.0 == nv.0 > cuser but o < c forces o.0 <= cuser
                            crate::store::lemma_ikey_le_user(o, c);
                            crate::byteorder::lemma_lex_le_antisymmetric(o.0, cuser);
                        }
                    }
                }
            }
            // every passed record keeps the prefix
            assert forall|o: IKeyModel| #[trigger]
                m.dom().contains(o) && ikey_le(t, o) && ikey_lt(o, nv) implies it.prefix_matches(
                o.0,
            ) by {
                lemma_ikey_lt_total_pub(o, c);
                if ikey_lt(c, o) {
                    assert(false);
                } else if o == c {
                } else {
                    assert(ikey_lt(o, c));
                }
            }
            // the next record's user key is in the window or still drains
            if !(skip_now && nv.0 == it.saved_user_key@) {
                assert(lex_le(from, nv.0)) by {
                    assert(ikey_le(c, nv));
                    crate::store::lemma_ikey_le_user(c, nv);
                    assert(lex_le(cuser, nv.0));
                    if skip_now && cuser == it.saved_user_key@ {
                        assert(nv.0 != cuser);
                        assert(lex_lt(cuser, nv.0));
                        if from == cuser.push(0u8) {
                            crate::byteorder::lemma_lex_successor(cuser, nv.0);
                        } else {
                            assert(lex_le(from, cuser));
                            crate::byteorder::lemma_lex_le_trans(from, cuser, nv.0);
                        }
                    } else {
                        assert(lex_le(from, cuser));
                        crate::byteorder::lemma_lex_le_trans(from, cuser, nv.0);
                    }
                }
            }
        },
        None => {},
    }
}


impl RegionCacheIterator {
    /// The user key a forward seek for `k` starts from: `k` clamped up to
    /// the lower bound.
    pub open spec fn seek_from(self, k: Seq<u8>) -> Seq<u8> {
        if lex_lt(k, self.lower_bound@) {
            self.lower_bound@
        } else {
            k
        }
    }

    /// The internal key a forward scan for user keys at or after `from`
    /// begins at: the newest version of `from` visible to the snapshot.
    pub open spec fn seek_triple(self, from: Seq<u8>) -> IKeyModel {
        (from, rev_of_seq(self.sequence_number), TAG_DELETION)
    }

    pub fn key(&self) -> (r: &[u8])
        requires
            self.valid,
        ensures
            r@ == self.saved_user_key@,
    {
        self.saved_user_key.as_slice()
    }

    pub fn value(&self) -> (r: &[u8])
        requires
            self.valid,
            self.saved_value is Some,
        ensures
            r@ == self.spec_value(),
    {
        match &self.saved_value {
            Some(v) => v.as_slice(),
            None => {
                proof {
                    assert(false);
                }
                self.saved_user_key.as_slice()
            },
        }
    }

    pub fn valid(&self) -> (r: bool)
        ensures
            r == self.valid,
    {
        self.valid
    }

    pub fn metrics_collector(&self) -> (r: RegionCacheIterMetricsCollector)
        ensures
            r.internal_delete_skipped_count == self.internal_delete_skipped_count,
            r.internal_key_skipped_count == self.internal_key_skipped_count,
    {
        RegionCacheIterMetricsCollector {
            internal_delete_skipped_count: self.internal_delete_skipped_count,
            internal_key_skipped_count: self.internal_key_skipped_count,
        }
    }

    /// Positions the iterator at the smallest user-visible key at or
    /// after `max(key, lower_bound)`; with prefix mode on, the search is
    /// further restricted to keys sharing `key`'s prefix.
    pub fn seek(&mut self, store: &CfStore, key: &[u8]) -> (r: Result<bool, EngineError>)
        requires
            wf_contents(store_contents(*store)),
            old(self).wf(store_contents(*store)),
            old(self).prefix_same_as_start ==> key@.len() >= 8,
        ensures
            r matches Ok(b) && b == final(self).valid,
            final(self).direction == Direction::Forward,
            final(self).lower_bound == old(self).lower_bound,
            final(self).upper_bound == old(self).upper_bound,
            final(self).sequence_number == old(self).sequence_number,
            final(self).prefix_same_as_start == old(self).prefix_same_as_start,
            final(self).snapshot_read_ts == old(self).snapshot_read_ts,
            old(self).prefix_same_as_start ==> (final(self).prefix matches Some(p) && p@
                == key@.take(key@.len() - 8)),
            !old(self).prefix_same_as_start ==> final(self).prefix == old(self).prefix,
            final(self).wf(store_contents(*store)),
            final(self).fwd_outcome(
                store_contents(*store),
                old(self).seek_from(key@),
                final(self).seek_triple(old(self).seek_from(key@)),
            ),
            final(self).prefix is None ==> final(self).internal_key_skipped_count == counted(
                old(self).internal_key_skipped_count,
                fwd_skipped_win(
                    store_contents(*store),
                    old(self).sequence_number,
                    false,
                    old(self).saved_user_key@,
                    Some(old(self).seek_triple(old(self).seek_from(key@))),
                    if final(self).valid {
                        final(self).saved_user_key@
                    } else {
                        final(self).upper_bound@
                    },
                ).len() as int,
            ),
            final(self).prefix is None ==> final(self).internal_delete_skipped_count == counted(
                old(self).internal_delete_skipped_count,
                fwd_tops_win(
                    store_contents(*store),
                    old(self).sequence_number,
                    Some(old(self).seek_triple(old(self).seek_from(key@))),
                    if final(self).valid {
                        final(self).saved_user_key@
                    } else {
                        final(self).upper_bound@
                    },
                ).len() as int,
            ),
    {
        let ghost m = store_contents(*store);
        self.direction = Direction::Forward;
        self.valid = false;
        if self.prefix_same_as_start {
            let pre = vstd::slice::slice_subrange(key, 0, key.len() - 8);
            self.prefix = Some(vstd::slice::slice_to_vec(pre));
            proof {
                assert(key@.subrange(0, key@.len() - 8) =~= key@.take(key@.len() - 8));
            }
        }
        let target: Vec<u8> = if bytes_lt(key, self.lower_bound.as_slice()) {
            vstd::slice::slice_to_vec(self.lower_bound.as_slice())
        } else {
            vstd::slice::slice_to_vec(key)
        };
        let ghost from = self.seek_from(key@);
        proof {
            crate::byteorder::lemma_lex_lt_total(key@, self.lower_bound@);
            if lex_lt(key@, self.lower_bound@) {
            } else {
                assert(lex_le(self.lower_bound@, key@));
            }
        }
        self.seek_fwd_internal(store, target, Ghost(from));
        Ok(self.valid)
    }

    /// Positions the iterator at the smallest user-visible key, the one a
    /// seek for the lower bound finds. Prefix mode does not allow it.
    pub fn seek_to_first(&mut self, store: &CfStore) -> (r: Result<bool, EngineError>)
        requires
            wf_contents(store_contents(*store)),
            old(self).wf(store_contents(*store)),
            !old(self).prefix_same_as_start,
        ensures
            r matches Ok(b) && b == final(self).valid,
            final(self).direction == Direction::Forward,
            final(self).lower_bound == old(self).lower_bound,
            final(self).upper_bound == old(self).upper_bound,
            final(self).sequence_number == old(self).sequence_number,
            final(self).prefix_same_as_start == old(self).prefix_same_as_start,
            final(self).snapshot_read_ts == old(self).snapshot_read_ts,
            final(self).prefix == old(self).prefix,
            final(self).wf(store_contents(*store)),
            final(self).fwd_outcome(
                store_contents(*store),
                old(self).lower_bound@,
                final(self).seek_triple(old(self).lower_bound@),
            ),
            final(self).prefix is None ==> final(self).internal_key_skipped_count == counted(
                old(self).internal_key_skipped_count,
                fwd_skipped_win(
                    store_contents(*store),
                    old(self).sequence_number,
                    false,
                    old(self).saved_user_key@,
                    Some(old(self).seek_triple(old(self).lower_bound@)),
                    if final(self).valid {
                        final(self).saved_user_key@
                    } else {
                        final(self).upper_bound@
                    },
                ).len() as int,
            ),
            final(self).prefix is None ==> final(self).internal_delete_skipped_count == counted(
                old(self).internal_delete_skipped_count,
                fwd_tops_win(
                    store_contents(*store),
                    old(self).sequence_number,
                    Some(old(self).seek_triple(old(self).lower_bound@)),
                    if final(self).valid {
                        final(self).saved_user_key@
                    } else {
                        final(self).upper_bound@
                    },
                ).len() as int,
            ),
    {
        let ghost m = store_contents(*store);
        self.direction = Direction::Forward;
        self.valid = false;
        let target: Vec<u8> = vstd::slice::slice_to_vec(self.lower_bound.as_slice());
        self.seek_fwd_internal(store, target, Ghost(self.lower_bound@));
        Ok(self.valid)
    }

    /// The shared forward-seek core: positions the underlying cursor at
    /// the newest visible version of `target` and runs the forward scan.
    fn seek_fwd_internal(&mut self, store: &CfStore, target: Vec<u8>, Ghost(from): Ghost<Seq<u8>>)
        requires
            wf_contents(store_contents(*store)),
            old(self).direction == Direction::Forward,
            !old(self).valid,
            old(self).prefix is Some ==> old(self).prefix_same_as_start,
            target@ == from,
            lex_le(old(self).lower_bound@, from),
        ensures
            final(self).direction == Direction::Forward,
            final(self).lower_bound == old(self).lower_bound,
            final(self).upper_bound == old(self).upper_bound,
            final(self).sequence_number == old(self).sequence_number,
            final(self).prefix == old(self).prefix,
            final(self).prefix_same_as_start == old(self).prefix_same_as_start,
            final(self).snapshot_read_ts == old(self).snapshot_read_ts,
            final(self).wf(store_contents(*store)),
            final(self).fwd_outcome(store_contents(*store), from, old(self).seek_triple(from)),
            final(self).prefix is None ==> final(self).internal_key_skipped_count == counted(
                old(self).internal_key_skipped_count,
                fwd_skipped_win(
                    store_contents(*store),
                    old(self).sequence_number,
                    false,
                    old(self).saved_user_key@,
                    Some(old(self).seek_triple(from)),
                    if final(self).valid {
                        final(self).saved_user_key@
                    } else {
                        final(self).upper_bound@
                    },
                ).len() as int,
            ),
            final(self).prefix is None ==> final(self).internal_delete_skipped_count == counted(
                old(self).internal_delete_skipped_count,
                fwd_tops_win(
                    store_contents(*store),
                    old(self).sequence_number,
                    Some(old(self).seek_triple(from)),
                    if final(self).valid {
                        final(self).saved_user_key@
                    } else {
                        final(self).upper_bound@
                    },
                ).len() as int,
            ),
    {
        let ghost m = store_contents(*store);
        let ghost snap = self.sequence_number;
        let rev = crate::codec::rev_of_seq_exec(self.sequence_number);
        let seek_key: IKey = (target, rev, TAG_DELETION);
        let ghost t: IKeyModel = self.seek_triple(from);
        proof {
            assert(ikey_view(seek_key) == t);
        }
        let entry = store_seek_ge(store, &seek_key);
        proof {
            crate::byteorder::lemma_lex_lt_irreflexive(from);
            assert forall|o: IKeyModel| #[trigger]
                m.dom().contains(o) && o.0 == t.0 && ikey_lt(o, t) implies !entry_visible(
                snap,
                o.1,
            ) by {
                assert(o.1 <= MAX_SEQUENCE_NUMBER);
                assert(o.1 < rev_of_seq(snap));
            }
            if entry is Some {
                let ev = ikey_view(entry->Some_0.0);
                assert forall|o: IKeyModel| #[trigger]
                    m.dom().contains(o) && ikey_le(t, o) && ikey_lt(o, ev) implies lex_lt(
                    o.0,
                    from,
                ) && self.prefix_matches(o.0) by {
                    assert(ikey_le(ev, o));
                    crate::store::lemma_ikey_lt_irreflexive(o);
                    if ev != o {
                        crate::store::lemma_ikey_lt_transitive(o, ev, o);
                    }
                }
                crate::store::lemma_ikey_le_user(t, ev);
            } else {
                assert forall|o: IKeyModel| #[trigger]
                    m.dom().contains(o) && ikey_le(t, o) implies lex_lt(o.0, from)
                    && self.prefix_matches(o.0) by {
                    assert(ikey_lt(o, t));
                    crate::store::lemma_ikey_lt_irreflexive(o);
                    crate::store::lemma_ikey_lt_transitive(o, t, o);
                }
            }
        }
        let ghost saved_pre = self.saved_user_key@;
        self.find_next_visible_key(store, false, entry, Ghost(from), Ghost(t));
        proof {
            // the scan's starting record is the least record at or after
            // the seek triple, so both windows hold the same records
            if self.prefix is None {
                let hi = if self.valid {
                    self.saved_user_key@
                } else {
                    self.upper_bound@
                };
                assert(fwd_skipped_win(m, snap, false, saved_pre, nxt_view(entry), hi)
                    =~= fwd_skipped_win(m, snap, false, saved_pre, Some(t), hi)) by {
                    assert forall|o: IKeyModel|
                        #![trigger fwd_skipped_win(m, snap, false, saved_pre, nxt_view(entry), hi).contains(o)]
                        #![trigger fwd_skipped_win(m, snap, false, saved_pre, Some(t), hi).contains(o)]
                        m.dom().contains(o) implies ((match nxt_view(entry) {
                        Some(st) => ikey_le(st, o),
                        None => false,
                    }) <==> ikey_le(t, o)) by {
                        lemma_seek_start_windows(m, t, nxt_view(entry), o);
                    }
                }
                assert(fwd_tops_win(m, snap, nxt_view(entry), hi) =~= fwd_tops_win(
                    m,
                    snap,
                    Some(t),
                    hi,
                )) by {
                    assert forall|o: IKeyModel|
                        #![trigger fwd_tops_win(m, snap, nxt_view(entry), hi).contains(o)]
                        #![trigger fwd_tops_win(m, snap, Some(t), hi).contains(o)]
                        m.dom().contains(o) implies ((match nxt_view(entry) {
                        Some(st) => ikey_le(st, o),
                        None => false,
                    }) <==> ikey_le(t, o)) by {
                        lemma_seek_start_windows(m, t, nxt_view(entry), o);
                    }
                }
            }
        }
    }

    /// Advances to the next user-visible key strictly after the current
    /// one.
    pub fn next(&mut self, store: &CfStore) -> (r: Result<bool, EngineError>)
        requires
            wf_contents(store_contents(*store)),
            old(self).wf(store_contents(*store)),
            old(self).valid,
            old(self).direction != Direction::Uninit,
        ensures
            r matches Ok(b) && b == final(self).valid,
            final(self).direction == Direction::Forward,
            final(self).lower_bound == old(self).lower_bound,
            final(self).upper_bound == old(self).upper_bound,
            final(self).sequence_number == old(self).sequence_number,
            final(self).prefix == old(self).prefix,
            final(self).prefix_same_as_start == old(self).prefix_same_as_start,
            final(self).snapshot_read_ts == old(self).snapshot_read_ts,
            final(self).wf(store_contents(*store)),
            final(self).valid ==> lex_lt(old(self).saved_user_key@, final(self).saved_user_key@),
            final(self).fwd_outcome(
                store_contents(*store),
                old(self).saved_user_key@.push(0u8),
                (old(self).saved_user_key@, 0u64, 0u8),
            ),
            old(self).direction == Direction::Forward && final(self).prefix is None ==> final(self).internal_key_skipped_count == counted(
                old(self).internal_key_skipped_count,
                fwd_skipped_win(
                    store_contents(*store),
                    old(self).sequence_number,
                    true,
                    old(self).saved_user_key@,
                    Some((old(self).saved_user_key@, 0u64, 0u8)),
                    if final(self).valid {
                        final(self).saved_user_key@
                    } else {
                        final(self).upper_bound@
                    },
                ).len() as int,
            ),
            old(self).direction == Direction::Forward && final(self).prefix is None ==> final(self).internal_delete_skipped_count == counted(
                old(self).internal_delete_skipped_count,
                fwd_tops_win(
                    store_contents(*store),
                    old(self).sequence_number,
                    Some((old(self).saved_user_key@, 0u64, 0u8)),
                    if final(self).valid {
                        final(self).saved_user_key@
                    } else {
                        final(self).upper_bound@
                    },
                ).len() as int,
            ),
    {
        let ghost m = store_contents(*store);
        let ghost snap = self.sequence_number;
        let ghost saved0 = self.saved_user_key@;
        let ghost t: IKeyModel = (saved0, 0u64, 0u8);
        let ghost from = saved0.push(0u8);
        // position the cursor on a record of the current user key: in
        // forward motion it is the emitted record; after backward motion
        // the iterator re-seeks the key's newest version
        let ckey: IKey = if matches!(self.direction, Direction::Forward) {
            match &self.cur {
                Some(c) => (vstd::slice::slice_to_vec(c.0.as_slice()), c.1, c.2),
                None => {
                    proof {
                        assert(false);
                    }
                    (Vec::new(), 0u64, 0u8)
                },
            }
        } else {
            let sv = vstd::slice::slice_to_vec(self.saved_user_key.as_slice());
            let probe: IKey = (sv, 0u64, 0u8);
            proof {
                assert(ikey_view(probe) == t);
            }
            match store_seek_ge(store, &probe) {
                Some(e) => e.0,
                None => {
                    // no record of the current key remains, so nothing
                    // follows it either
                    self.direction = Direction::Forward;
                    self.valid = false;
                    self.internal_key_skipped_count = bump(self.internal_key_skipped_count);
                    proof {
                        lemma_no_entries_after(m, snap, *self, saved0, t, from);
                    }
                    return Ok(false);
                },
            }
        };
        self.direction = Direction::Forward;
        proof {
            assert(ckey.0@ == saved0) by {
                if old(self).direction == Direction::Backward {
                    let ev = ikey_view(ckey);
                    assert(m.dom().contains(ev));
                    crate::store::lemma_ikey_le_user(t, ev);
                    // a visible record of saved0 exists, so the first
                    // record at or after (saved0, 0, 0) is saved0's
                    let rv = choose|rv: u64| is_newest_visible(m, snap, saved0, rv, TAG_VALUE);
                    let w: IKeyModel = (saved0, rv, TAG_VALUE);
                    assert(m.dom().contains(w));
                    assert(ikey_le(t, w)) by {
                        crate::byteorder::lemma_lex_lt_irreflexive(saved0);
                    }
                    assert(ikey_le(ev, w));
                    crate::store::lemma_ikey_le_user(ev, w);
                    crate::byteorder::lemma_lex_le_antisymmetric(saved0, ev.0);
                }
            }
        }
        let ghost cv = ikey_view(ckey);
        proof {
            if old(self).direction == Direction::Forward {
                assert(cv == (saved0, ckey.1, TAG_VALUE));
                assert(is_newest_visible(m, snap, saved0, cv.1, TAG_VALUE));
            }
        }
        self.internal_key_skipped_count = bump(self.internal_key_skipped_count);
        let entry = store_seek_gt(store, &ckey);
        proof {
            crate::byteorder::lemma_lex_lt_push_zero(saved0);
            assert(lex_le(self.lower_bound@, from)) by {
                crate::byteorder::lemma_lex_le_lt_trans(self.lower_bound@, saved0, from);
            }
            assert(lex_le(t.0, from));
            assert forall|o: IKeyModel| #[trigger]
                m.dom().contains(o) && o.0 == t.0 && ikey_lt(o, t) implies !entry_visible(
                snap,
                o.1,
            ) by {
                crate::byteorder::lemma_lex_lt_irreflexive(saved0);
            }
            if entry is Some {
                let ev = ikey_view(entry->Some_0.0);
                assert forall|o: IKeyModel| #[trigger]
                    m.dom().contains(o) && ikey_le(t, o) && ikey_lt(o, ev) implies lex_lt(
                    o.0,
                    from,
                ) && self.prefix_matches(o.0) by {
                    // o is at most the cursor, so it belongs to saved0
                    assert(ikey_le(o, cv)) by {
                        crate::store::lemma_ikey_lt_total(o, cv);
                        if ikey_lt(cv, o) {
                            assert(ikey_le(ev, o));
                            crate::store::lemma_ikey_lt_irreflexive(o);
                            if ev != o {
                                crate::store::lemma_ikey_lt_transitive(o, ev, o);
                            }
                        }
                    }
                    crate::store::lemma_ikey_le_user(t, o);
                    crate::store::lemma_ikey_le_user(o, cv);
                    crate::byteorder::lemma_lex_le_antisymmetric(saved0, o.0);
                }
                // the next record's user key is saved0 or past it
                let ghost euser = (entry->Some_0.0).0@;
                assert(lex_le(from, euser) || euser == saved0) by {
                    crate::store::lemma_ikey_le_user(cv, ev);
                    if euser != saved0 {
                        assert(lex_lt(saved0, euser));
                        crate::byteorder::lemma_lex_successor(saved0, euser);
                    }
                }
            } else {
                assert forall|o: IKeyModel| #[trigger]
                    m.dom().contains(o) && ikey_le(t, o) implies lex_lt(o.0, from)
                    && self.prefix_matches(o.0) by {
                    assert(ikey_le(o, cv));
                    crate::store::lemma_ikey_le_user(t, o);
                    crate::store::lemma_ikey_le_user(o, cv);
                    crate::byteorder::lemma_lex_le_antisymmetric(saved0, o.0);
                }
            }
        }
        self.find_next_visible_key(store, true, entry, Ghost(from), Ghost(t));
        proof {
            if self.valid {
                assert(lex_le(from, self.saved_user_key@));
                crate::byteorder::lemma_lex_lt_push_zero(saved0);
                crate::byteorder::lemma_lex_lt_le_trans(saved0, from, self.saved_user_key@);
            }
            if old(self).direction == Direction::Forward && self.prefix is None {
                let hi = if self.valid {
                    self.saved_user_key@
                } else {
                    self.upper_bound@
                };
                assert(lex_lt(saved0, hi));
                lemma_next_fwd_windows(m, snap, saved0, cv, nxt_view(entry), hi);
            }
        }
        Ok(self.valid)
    }
}

/// When no record of the current key or beyond remains, nothing strictly
/// after it can be visible.
proof fn lemma_no_entries_after(
    m: CfModel,
    snap: u64,
    it: RegionCacheIterator,
    saved0: Seq<u8>,
    t: IKeyModel,
    from: Seq<u8>,
)
    requires
        wf_contents(m),
        snap == it.sequence_number,
        t == (saved0, 0u64, 0u8),
        from == saved0.push(0u8),
        it.direction == Direction::Forward,
        !it.valid,
        it.prefix is Some ==> it.prefix_same_as_start,
        forall|o: IKeyModel| m.dom().contains(o) ==> ikey_lt(o, t),
    ensures
        it.fwd_outcome(m, from, t),
        it.wf(m),
{
    crate::byteorder::lemma_lex_lt_push_zero(saved0);
    assert forall|uk: Seq<u8>| !(#[trigger] it.fwd_emittable(m, from, t, uk)) by {
        if it.fwd_emittable(m, from, t, uk) {
            let rv = choose|rv: u64| is_newest_visible(m, snap, uk, rv, TAG_VALUE);
            let w: IKeyModel = (uk, rv, TAG_VALUE);
            assert(m.dom().contains(w));
            assert(ikey_lt(w, t));
            assert(lex_le(w.0, t.0)) by {
                if !lex_le(w.0, t.0) {
                    crate::byteorder::lemma_lex_lt_total(w.0, t.0);
                    assert(lex_lt(t.0, w.0));
                }
            }
            crate::byteorder::lemma_lex_lt_le_trans(saved0, from, uk);
            crate::byteorder::lemma_lex_lt_le_trans(saved0, uk, t.0);
            crate::byteorder::lemma_lex_lt_irreflexive(saved0);
        }
    }
}

/// Advancing off an emitted record: measured from the next stored
/// record, the skipped-key window loses exactly the emitted newest
/// visible value of the drained key, and the tombstone window nothing.
proof fn lemma_next_fwd_windows(
    m: CfModel,
    snap: u64,
    saved0: Seq<u8>,
    cv: IKeyModel,
    start: Option<IKeyModel>,
    hi: Seq<u8>,
)
    requires
        wf_contents(m),
        cv.0 == saved0,
        cv.2 == TAG_VALUE,
        is_newest_visible(m, snap, saved0, cv.1, TAG_VALUE),
        lex_lt(saved0, hi),
        match start {
            Some(st) => m.dom().contains(st) && ikey_lt(cv, st) && forall|o: IKeyModel|
                m.dom().contains(o) && ikey_lt(cv, o) ==> ikey_le(st, o),
            None => forall|o: IKeyModel| m.dom().contains(o) ==> ikey_le(o, cv),
        },
    ensures
        fwd_skipped_win(m, snap, true, saved0, Some((saved0, 0u64, 0u8)), hi).len()
            == fwd_skipped_win(m, snap, true, saved0, start, hi).len() + 1,
        fwd_tops_win(m, snap, Some((saved0, 0u64, 0u8)), hi) == fwd_tops_win(m, snap, start, hi),
{
    let t: IKeyModel = (saved0, 0u64, 0u8);
    let tset = fwd_skipped_win(m, snap, true, saved0, Some(t), hi);
    let sset = fwd_skipped_win(m, snap, true, saved0, start, hi);
    assert(ikey_lt(t, cv));
    assert(tset.contains(cv));
    assert(!sset.contains(cv)) by {
        match start {
            Some(st) => {
                crate::store::lemma_ikey_lt_irreflexive(cv);
                if ikey_le(st, cv) && st != cv {
                    crate::store::lemma_ikey_lt_transitive(cv, st, cv);
                }
            },
            None => {},
        }
    }
    assert forall|e: IKeyModel|
        #![trigger tset.contains(e)]
        #![trigger sset.contains(e)]
        m.dom().contains(e) && fwd_skip_filter(m, snap, true, saved0, e) && lex_lt(e.0, hi)
        && e != cv implies (ikey_le(t, e) <==> (match start {
        Some(st) => ikey_le(st, e),
        None => false,
    })) by {
        lemma_next_fwd_member(m, snap, saved0, cv, start, e);
    }
    assert(tset =~= sset.insert(cv));
    assert(tset.finite() && sset.finite()) by {
        lemma_filter_finite(m);
    }
    assert(tset.len() == sset.len() + 1);
    let dtset = fwd_tops_win(m, snap, Some(t), hi);
    let dsset = fwd_tops_win(m, snap, start, hi);
    assert forall|e: IKeyModel|
        #![trigger dtset.contains(e)]
        #![trigger dsset.contains(e)]
        m.dom().contains(e) && is_newest_visible(m, snap, e.0, e.1, e.2) && e.2 == TAG_DELETION
        && lex_lt(e.0, hi) implies (ikey_le(t, e) <==> (match start {
        Some(st) => ikey_le(st, e),
        None => false,
    })) by {
        assert(e != cv);
        lemma_next_fwd_member(m, snap, saved0, cv, start, e);
    }
    assert(dtset =~= dsset);
}

/// A counted record other than the emitted one lies at or after the
/// drained key's first slot exactly when it lies at or after the next
/// stored record.
proof fn lemma_next_fwd_member(
    m: CfModel,
    snap: u64,
    saved0: Seq<u8>,
    cv: IKeyModel,
    start: Option<IKeyModel>,
    e: IKeyModel,
)
    requires
        wf_contents(m),
        cv.0 == saved0,
        cv.2 == TAG_VALUE,
        is_newest_visible(m, snap, saved0, cv.1, TAG_VALUE),
        match start {
            Some(st) => m.dom().contains(st) && ikey_lt(cv, st) && forall|o: IKeyModel|
                m.dom().contains(o) && ikey_lt(cv, o) ==> ikey_le(st, o),
            None => forall|o: IKeyModel| m.dom().contains(o) ==> ikey_le(o, cv),
        },
        m.dom().contains(e),
        entry_visible(snap, e.1),
        e != cv,
    ensures
        ikey_le((saved0, 0u64, 0u8), e) <==> (match start {
            Some(st) => ikey_le(st, e),
            None => false,
        }),
{
    let t: IKeyModel = (saved0, 0u64, 0u8);
    assert(ikey_lt(t, cv));
    if ikey_le(t, e) {
        // e sits strictly past the emitted record
        assert(ikey_lt(cv, e)) by {
            if e.0 == saved0 {
                assert(m.dom().contains((saved0, e.1, e.2)));
                assert(cv.1 < e.1 || (cv.1 == e.1 && TAG_VALUE <= e.2));
                if cv.1 == e.1 && e.2 == TAG_VALUE {
                    assert(e == cv);
                }
            } else {
                crate::store::lemma_ikey_le_user(t, e);
                assert(lex_lt(saved0, e.0));
            }
        }
        match start {
            Some(st) => {
                assert(ikey_le(st, e));
            },
            None => {
                assert(ikey_le(e, cv));
                crate::store::lemma_ikey_lt_irreflexive(e);
                if e != cv {
                    crate::store::lemma_ikey_lt_transitive(e, cv, e);
                }
            },
        }
    }
    match start {
        Some(st) => {
            if ikey_le(st, e) {
                assert(ikey_lt(cv, e)) by {
                    if st == e {
                    } else {
                        crate::store::lemma_ikey_lt_transitive(cv, st, e);
                    }
                }
                crate::store::lemma_ikey_lt_transitive(t, cv, e);
            }
        },
        None => {},
    }
}

impl RegionCacheIterator {
    /// Every stored record below user key `top` whose user key is at or
    /// after `uk` keeps the active prefix; a backward scan from `top`
    /// stops early at the first group that does not.
    pub open spec fn pref_clear_bwd(self, m: CfModel, top: Seq<u8>, uk: Seq<u8>) -> bool {
        forall|e: IKeyModel| #[trigger]
            m.dom().contains(e) && lex_lt(e.0, top) && lex_le(uk, e.0) ==> self.prefix_matches(e.0)
    }

    /// A user key the backward scan from below `top` may hand out.
    pub open spec fn bwd_emittable(self, m: CfModel, top: Seq<u8>, uk: Seq<u8>) -> bool {
        &&& lex_le(self.lower_bound@, uk)
        &&& lex_lt(uk, top)
        &&& self.prefix_matches(uk)
        &&& self.pref_clear_bwd(m, top, uk)
        &&& visible_has_value(m, self.sequence_number, uk)
    }

    /// The outcome of a backward scan from just below user key `top`:
    /// the iterator stands on the greatest emittable user key with its
    /// visible value, or is invalid when there is none.
    pub open spec fn bwd_outcome(self, m: CfModel, top: Seq<u8>) -> bool {
        &&& self.valid ==> {
            &&& self.bwd_emittable(m, top, self.saved_user_key@)
            &&& visible_get(m, self.sequence_number, self.saved_user_key@) == Some(
                self.spec_value(),
            )
            &&& forall|uk: Seq<u8>|
                lex_lt(self.saved_user_key@, uk) && lex_lt(uk, top) ==> !(
                #[trigger] visible_has_value(m, self.sequence_number, uk))
        }
        &&& !self.valid ==> forall|uk: Seq<u8>| !(#[trigger] self.bwd_emittable(m, top, uk))
    }

    /// The backward scan: starting from `entry_in`, the greatest record
    /// whose user key is below `top`, walks records downward group by
    /// group; in each group it gathers the newest visible record, hands
    /// the group's key out if that record is a live value, and otherwise
    /// steps to the previous group. It stops at the lower bound or the
    /// first group breaking the active prefix.
    fn prev_scan(
        &mut self,
        store: &CfStore,
        entry_in: Option<((Vec<u8>, u64, u8), Vec<u8>)>,
        Ghost(top): Ghost<Seq<u8>>,
    )
        requires
            wf_contents(store_contents(*store)),
            old(self).direction == Direction::Backward,
            !old(self).valid,
            old(self).prefix is Some ==> old(self).prefix_same_as_start,
            lex_le(top, old(self).upper_bound@),
            match entry_in {
                Some(e) => {
                    &&& store_contents(*store).dom().contains(ikey_view(e.0))
                    &&& store_contents(*store)[ikey_view(e.0)] == e.1@
                    &&& lex_lt(e.0.0@, top)
                    &&& forall|o: IKeyModel| #[trigger]
                        store_contents(*store).dom().contains(o) && lex_lt(o.0, top) ==> ikey_le(
                            o,
                            ikey_view(e.0),
                        )
                },
                None => forall|o: IKeyModel| #[trigger]
                    store_contents(*store).dom().contains(o) ==> !lex_lt(o.0, top),
            },
        ensures
            final(self).direction == Direction::Backward,
            final(self).lower_bound == old(self).lower_bound,
            final(self).upper_bound == old(self).upper_bound,
            final(self).sequence_number == old(self).sequence_number,
            final(self).prefix == old(self).prefix,
            final(self).prefix_same_as_start == old(self).prefix_same_as_start,
            final(self).snapshot_read_ts == old(self).snapshot_read_ts,
            final(self).bwd_outcome(store_contents(*store), top),
            final(self).wf(store_contents(*store)),
            final(self).prefix is None ==> final(self).internal_key_skipped_count == counted(
                old(self).internal_key_skipped_count,
                records_in(
                    store_contents(*store),
                    if final(self).valid {
                        final(self).saved_user_key@
                    } else {
                        final(self).lower_bound@
                    },
                    top,
                ).len() as int,
            ),
            final(self).prefix is None ==> final(self).internal_delete_skipped_count == counted(
                old(self).internal_delete_skipped_count,
                visible_deletions_in(
                    store_contents(*store),
                    final(self).sequence_number,
                    if final(self).valid {
                        final(self).saved_user_key@
                    } else {
                        final(self).lower_bound@
                    },
                    top,
                ).len() as int,
            ),
    {
        let ghost m = store_contents(*store);
        let ghost snap = self.sequence_number;
        let mut entry = entry_in;
        self.valid = false;
        proof {
            if entry is Some {
                let ev = ikey_view(entry->Some_0.0);
                assert forall|o: IKeyModel| #[trigger]
                    m.dom().contains(o) && o.0 == ev.0 implies ikey_le(o, ev) by {
                    assert(lex_lt(o.0, top));
                }
                assert forall|uk: Seq<u8>|
                    lex_lt(ev.0, uk) && lex_lt(uk, top) implies !(#[trigger] visible_has_value(
                    m,
                    snap,
                    uk,
                )) by {
                    if visible_has_value(m, snap, uk) {
                        let rv = choose|rv: u64| is_newest_visible(m, snap, uk, rv, TAG_VALUE);
                        let w: IKeyModel = (uk, rv, TAG_VALUE);
                        assert(m.dom().contains(w) && lex_lt(w.0, top));
                        assert(ikey_le(w, ev));
                        crate::store::lemma_ikey_le_user(w, ev);
                        crate::byteorder::lemma_lex_lt_le_trans(ev.0, uk, ev.0);
                        crate::byteorder::lemma_lex_lt_irreflexive(ev.0);
                    }
                }
                assert forall|o: IKeyModel| #[trigger]
                    m.dom().contains(o) && lex_lt(o.0, top) && lex_lt(ev.0, o.0)
                    implies self.prefix_matches(o.0) by {
                    assert(ikey_le(o, ev));
                    crate::store::lemma_ikey_le_user(o, ev);
                    crate::byteorder::lemma_lex_lt_le_trans(ev.0, o.0, ev.0);
                    crate::byteorder::lemma_lex_lt_irreflexive(ev.0);
                }
            } else {
                assert forall|uk: Seq<u8>|
                    lex_lt(uk, top) implies !(#[trigger] visible_has_value(m, snap, uk)) by {
                    if visible_has_value(m, snap, uk) {
                        let rv = choose|rv: u64| is_newest_visible(m, snap, uk, rv, TAG_VALUE);
                        let w: IKeyModel = (uk, rv, TAG_VALUE);
                        assert(m.dom().contains(w));
                    }
                }
            }
            // nothing has been walked yet
            assert(bwd_walked(m, top, nxt_view(entry)) =~= Set::empty()) by {
                assert forall|e: IKeyModel|
                    !(#[trigger] bwd_walked(m, top, nxt_view(entry)).contains(e)) by {
                    if bwd_walked(m, top, nxt_view(entry)).contains(e) {
                        match entry {
                            Some(ref e0) => {
                                let ev = ikey_view(e0.0);
                                assert(ikey_le(e, ev));
                                assert(ikey_lt(ev, e));
                                crate::store::lemma_ikey_lt_irreflexive(e);
                                if e != ev {
                                    crate::store::lemma_ikey_lt_transitive(e, ev, e);
                                }
                            },
                            None => {
                                assert(!lex_lt(e.0, top));
                            },
                        }
                    }
                }
            }
            assert(bwd_walked_deletions(m, snap, top, nxt_view(entry)) =~= Set::empty());
            assert(Set::<IKeyModel>::empty().len() == 0);
            assert forall|o: IKeyModel| #[trigger]
                m.dom().contains(o) && lex_lt(o.0, top) && (match entry {
                    Some(ref e) => ikey_lt(ikey_view(e.0), o),
                    None => true,
                }) implies lex_le(self.lower_bound@, o.0) by {
                assert(bwd_walked(m, top, nxt_view(entry)).contains(o));
            }
        }
        loop
            invariant_except_break
                wf_contents(m),
                m == store_contents(*store),
                self.direction == Direction::Backward,
                self.lower_bound == old(self).lower_bound,
                self.upper_bound == old(self).upper_bound,
                self.sequence_number == old(self).sequence_number,
                self.prefix == old(self).prefix,
                self.prefix_same_as_start == old(self).prefix_same_as_start,
                self.snapshot_read_ts == old(self).snapshot_read_ts,
                snap == self.sequence_number,
                !self.valid,
                self.prefix is Some ==> self.prefix_same_as_start,
                lex_le(top, self.upper_bound@),
                match entry {
                    Some(e) => {
                        &&& m.dom().contains(ikey_view(e.0))
                        &&& m[ikey_view(e.0)] == e.1@
                        &&& lex_lt(e.0.0@, top)
                        &&& forall|o: IKeyModel| #[trigger]
                            m.dom().contains(o) && o.0 == e.0.0@ ==> ikey_le(o, ikey_view(e.0))
                        &&& forall|uk: Seq<u8>|
                            lex_lt(e.0.0@, uk) && lex_lt(uk, top) ==> !(
                            #[trigger] visible_has_value(m, snap, uk))
                        &&& forall|o: IKeyModel| #[trigger]
                            m.dom().contains(o) && lex_lt(o.0, top) && lex_lt(e.0.0@, o.0)
                                ==> self.prefix_matches(o.0)
                    },
                    None => forall|uk: Seq<u8>|
                        lex_lt(uk, top) ==> !(#[trigger] visible_has_value(m, snap, uk)),
                },
                self.internal_key_skipped_count == counted(
                    old(self).internal_key_skipped_count,
                    bwd_walked(m, top, nxt_view(entry)).len() as int,
                ),
                self.internal_delete_skipped_count == counted(
                    old(self).internal_delete_skipped_count,
                    bwd_walked_deletions(m, snap, top, nxt_view(entry)).len() as int,
                ),
                forall|o: IKeyModel| #[trigger]
                    m.dom().contains(o) && lex_lt(o.0, top) && (match entry {
                        Some(e) => ikey_lt(ikey_view(e.0), o),
                        None => true,
                    }) ==> lex_le(self.lower_bound@, o.0),
            ensures
                self.direction == Direction::Backward,
                self.lower_bound == old(self).lower_bound,
                self.upper_bound == old(self).upper_bound,
                self.sequence_number == old(self).sequence_number,
                self.prefix == old(self).prefix,
                self.prefix_same_as_start == old(self).prefix_same_as_start,
                self.snapshot_read_ts == old(self).snapshot_read_ts,
                self.bwd_outcome(m, top),
                self.wf(m),
                self.prefix is None ==> self.internal_key_skipped_count == counted(
                    old(self).internal_key_skipped_count,
                    records_in(
                        m,
                        if self.valid {
                            self.saved_user_key@
                        } else {
                            self.lower_bound@
                        },
                        top,
                    ).len() as int,
                ),
                self.prefix is None ==> self.internal_delete_skipped_count == counted(
                    old(self).internal_delete_skipped_count,
                    visible_deletions_in(
                        m,
                        snap,
                        if self.valid {
                            self.saved_user_key@
                        } else {
                            self.lower_bound@
                        },
                        top,
                    ).len() as int,
                ),
            decreases (match entry {
                Some(e) => keys_below(m, ikey_view(e.0)).len() + 1,
                None => 0,
            }),
        {
            match entry {
                None => {
                    self.valid = false;
                    proof {
                        assert forall|uk: Seq<u8>| !(#[trigger] self.bwd_emittable(
                            m,
                            top,
                            uk,
                        )) by {
                            if self.bwd_emittable(m, top, uk) {
                                assert(visible_has_value(m, snap, uk) && lex_lt(uk, top));
                            }
                        }
                        // everything below `top` was walked and sits in the
                        // window the counters account for
                        assert(bwd_walked(m, top, pos_of(entry)) =~= records_in(
                            m,
                            self.lower_bound@,
                            top,
                        ));
                        assert(bwd_walked_deletions(m, snap, top, pos_of(entry))
                            =~= visible_deletions_in(m, snap, self.lower_bound@, top));
                    }
                    break ;
                },
                Some(e) => {
                    let ghost ev = ikey_view(e.0);
                    let ghost euser = e.0.0@;
                    self.saved_user_key = vstd::slice::slice_to_vec(e.0.0.as_slice());
                    if bytes_lt(e.0.0.as_slice(), self.lower_bound.as_slice()) {
                        self.valid = false;
                        proof {
                            // the walked records are exactly the window the
                            // counters account for
                            assert(bwd_walked(m, top, pos_of(entry)) =~= records_in(
                                m,
                                self.lower_bound@,
                                top,
                            )) by {
                                assert forall|o: IKeyModel|
                                    records_in(m, self.lower_bound@, top).contains(o)
                                    implies #[trigger] bwd_walked(m, top, pos_of(entry)).contains(
                                    o,
                                ) by {
                                    crate::byteorder::lemma_lex_lt_le_trans(
                                        euser,
                                        self.lower_bound@,
                                        o.0,
                                    );
                                    assert(ikey_lt(ev, o));
                                }
                            }
                            assert(bwd_walked_deletions(m, snap, top, pos_of(entry))
                                =~= visible_deletions_in(m, snap, self.lower_bound@, top)) by {
                                assert forall|o: IKeyModel|
                                    visible_deletions_in(m, snap, self.lower_bound@, top).contains(
                                    o,
                                ) implies #[trigger] bwd_walked_deletions(
                                    m,
                                    snap,
                                    top,
                                    pos_of(entry),
                                ).contains(o) by {
                                    crate::byteorder::lemma_lex_lt_le_trans(
                                        euser,
                                        self.lower_bound@,
                                        o.0,
                                    );
                                    assert(ikey_lt(ev, o));
                                }
                            }
                            assert forall|uk: Seq<u8>| !(#[trigger] self.bwd_emittable(
                                m,
                                top,
                                uk,
                            )) by {
                                if self.bwd_emittable(m, top, uk) {
                                    crate::byteorder::lemma_lex_lt_total(euser, uk);
                                    if lex_lt(euser, uk) {
                                        assert(!visible_has_value(m, snap, uk));
                                    } else {
                                        crate::byteorder::lemma_lex_le_lt_trans(
                                            uk,
                                            euser,
                                            self.lower_bound@,
                                        );
                                        crate::byteorder::lemma_lex_le_lt_trans(
                                            self.lower_bound@,
                                            uk,
                                            self.lower_bound@,
                                        );
                                        crate::byteorder::lemma_lex_lt_irreflexive(
                                            self.lower_bound@,
                                        );
                                    }
                                }
                            }
                        }
                        break ;
                    }
                    if !self.check_prefix(e.0.0.as_slice()) {
                        self.valid = false;
                        proof {
                            assert forall|uk: Seq<u8>| !(#[trigger] self.bwd_emittable(
                                m,
                                top,
                                uk,
                            )) by {
                                if self.bwd_emittable(m, top, uk) {
                                    crate::byteorder::lemma_lex_lt_total(euser, uk);
                                    if lex_lt(euser, uk) {
                                        assert(!visible_has_value(m, snap, uk));
                                    } else {
                                        assert(lex_le(uk, euser));
                                        assert(self.pref_clear_bwd(m, top, uk));
                                        assert(m.dom().contains(ev) && lex_lt(ev.0, top) && lex_le(
                                            uk,
                                            ev.0,
                                        ));
                                    }
                                }
                            }
                        }
                        break ;
                    }
                    // gather the newest visible record of this group:
                    // stepping down visits its records newest-ward, so the
                    // last visible one seen decides
                    let mut last_tag: u8 = TAG_DELETION;
                    let mut value_found: Option<Vec<u8>> = None;
                    let mut centry = Some(e);
                    let ghost last_p: Option<IKeyModel> = None;
                    proof {
                        crate::byteorder::lemma_lex_lt_total(euser, self.lower_bound@);
                        assert(lex_le(self.lower_bound@, euser));
                        assert forall|o: IKeyModel| #[trigger]
                            m.dom().contains(o) && ikey_lt(ev, o) && ikey_le(o, ev) && o.0
                            == euser implies entry_visible(snap, o.1) by {
                            crate::store::lemma_ikey_lt_irreflexive(o);
                            if o != ev {
                                crate::store::lemma_ikey_lt_transitive(o, ev, o);
                            }
                        }
                        assert forall|o: IKeyModel| #[trigger]
                            m.dom().contains(o) && lex_lt(o.0, euser) implies ikey_le(o, ev) by {
                            assert(ikey_lt(o, ev));
                        }
                    }
                    loop
                        invariant_except_break
                            wf_contents(m),
                            m == store_contents(*store),
                            snap == self.sequence_number,
                            self.direction == Direction::Backward,
                            self.lower_bound == old(self).lower_bound,
                            self.upper_bound == old(self).upper_bound,
                            self.sequence_number == old(self).sequence_number,
                            self.prefix == old(self).prefix,
                            self.prefix_same_as_start == old(self).prefix_same_as_start,
                            self.snapshot_read_ts == old(self).snapshot_read_ts,
                            !self.valid,
                            self.saved_user_key@ == euser,
                            m.dom().contains(ev) && ev.0 == euser,
                            lex_lt(euser, top),
                            lex_le(self.lower_bound@, euser),
                            self.internal_key_skipped_count == counted(
                                old(self).internal_key_skipped_count,
                                bwd_walked(m, top, pos_of(centry)).len() as int,
                            ),
                            self.internal_delete_skipped_count == counted(
                                old(self).internal_delete_skipped_count,
                                bwd_walked_deletions(m, snap, top, pos_of(centry)).len() as int,
                            ),
                            forall|o: IKeyModel| #[trigger]
                                m.dom().contains(o) && lex_lt(o.0, top) && (match centry {
                                    Some(c2) => ikey_lt(ikey_view(c2.0), o),
                                    None => true,
                                }) ==> lex_le(self.lower_bound@, o.0),
                            forall|o: IKeyModel| #[trigger]
                                m.dom().contains(o) && o.0 == euser ==> ikey_le(o, ev),
                            match centry {
                                Some(c2) => {
                                    &&& m.dom().contains(ikey_view(c2.0))
                                    &&& m[ikey_view(c2.0)] == c2.1@
                                    &&& ikey_le(ikey_view(c2.0), ev)
                                    &&& forall|o: IKeyModel| #[trigger]
                                        m.dom().contains(o) && ikey_lt(ikey_view(c2.0), o)
                                            && ikey_le(o, ev) && o.0 == euser ==> entry_visible(
                                            snap,
                                            o.1,
                                        )
                                    &&& forall|o: IKeyModel| #[trigger]
                                        m.dom().contains(o) && lex_lt(o.0, euser) ==> ikey_le(
                                            o,
                                            ikey_view(c2.0),
                                        )
                                },
                                None => forall|o: IKeyModel| #[trigger]
                                    m.dom().contains(o) ==> !lex_lt(o.0, euser),
                            },
                            match last_p {
                                Some(lp) => {
                                    &&& m.dom().contains(lp)
                                    &&& lp.0 == euser
                                    &&& entry_visible(snap, lp.1)
                                    &&& lp.2 == last_tag
                                    &&& ikey_le(lp, ev)
                                    &&& (last_tag == TAG_VALUE ==> (value_found matches Some(v)
                                        && v@ == m[lp]))
                                    &&& (last_tag == TAG_DELETION || last_tag == TAG_VALUE)
                                    &&& match centry {
                                        Some(c2) => ikey_lt(ikey_view(c2.0), lp) && (forall|
                                            o: IKeyModel,
                                        | #[trigger]
                                            m.dom().contains(o) && ikey_lt(ikey_view(c2.0), o)
                                                && ikey_lt(o, lp) ==> false),
                                        None => forall|o: IKeyModel| #[trigger]
                                            m.dom().contains(o) ==> !ikey_lt(o, lp),
                                    }
                                },
                                None => last_tag == TAG_DELETION && value_found is None && (
                                centry matches Some(c2) && ikey_view(c2.0) == ev),
                            },
                        ensures
                            self.saved_user_key@ == euser,
                            snap == self.sequence_number,
                            self.direction == Direction::Backward,
                            self.lower_bound == old(self).lower_bound,
                            self.upper_bound == old(self).upper_bound,
                            self.sequence_number == old(self).sequence_number,
                            self.prefix == old(self).prefix,
                            self.prefix_same_as_start == old(self).prefix_same_as_start,
                            self.snapshot_read_ts == old(self).snapshot_read_ts,
                            !self.valid,
                            self.internal_key_skipped_count == counted(
                                old(self).internal_key_skipped_count,
                                bwd_walked(m, top, pos_of(centry)).len() as int,
                            ),
                            self.internal_delete_skipped_count == counted(
                                old(self).internal_delete_skipped_count,
                                bwd_walked_deletions(m, snap, top, pos_of(centry)).len() as int,
                            ),
                            forall|o: IKeyModel| #[trigger]
                                m.dom().contains(o) && lex_lt(o.0, top) && (match centry {
                                    Some(c2) => ikey_lt(ikey_view(c2.0), o),
                                    None => true,
                                }) ==> lex_le(self.lower_bound@, o.0),
                            // the group is settled: either a newest visible
                            // record was found, or no record of the group is
                            // visible
                            match last_p {
                                Some(lp) => is_newest_visible(m, snap, euser, lp.1, lp.2)
                                    && lp.2 == last_tag && (last_tag == TAG_VALUE ==> (value_found
                                    matches Some(v) && v@ == m[(euser, lp.1, lp.2)])),
                                None => !has_visible_entry(m, snap, euser) && last_tag
                                    == TAG_DELETION,
                            },
                            // the scan rests at the first record below the
                            // group's visible run
                            match centry {
                                Some(c2) => m.dom().contains(ikey_view(c2.0)) && m[ikey_view(c2.0)]
                                    == c2.1@ && ikey_le(ikey_view(c2.0), ev) && (c2.0.0@ == euser
                                    ==> !entry_visible(snap, c2.0.1)) && (forall|o: IKeyModel|
                                    #[trigger] m.dom().contains(o) && o.0 == euser && ikey_le(
                                        o,
                                        ikey_view(c2.0),
                                    ) ==> !entry_visible(snap, o.1)) && (forall|o: IKeyModel|
                                    #[trigger] m.dom().contains(o) && lex_lt(o.0, euser)
                                        ==> ikey_le(o, ikey_view(c2.0))),
                                None => forall|o: IKeyModel| #[trigger]
                                    m.dom().contains(o) ==> !lex_lt(o.0, euser),
                            },
                        decreases (match centry {
                            Some(c2) => keys_below(m, ikey_view(c2.0)).len() + 1,
                            None => 0,
                        }),
                    {
                        match centry {
                            None => {
                                proof {
                                    let lp = last_p->Some_0;
                                    assert forall|o: IKeyModel| #[trigger]
                                        m.dom().contains(o) && o.0 == euser && ikey_lt(o, lp)
                                        implies !entry_visible(snap, o.1) by {
                                        assert(!ikey_lt(o, lp));
                                    }
                                    lemma_newest_bwd(m, snap, euser, lp, ev);
                                    assert forall|o: IKeyModel| #[trigger]
                                        m.dom().contains(o) implies !lex_lt(o.0, euser) by {
                                        if lex_lt(o.0, euser) {
                                            assert(ikey_lt(o, lp));
                                        }
                                    }
                                }
                                break ;
                            },
                            Some(c2) => {
                                let ghost c2v = ikey_view(c2.0);
                                let same = bytes_eq(
                                    c2.0.0.as_slice(),
                                    self.saved_user_key.as_slice(),
                                );
                                proof {
                                    if same {
                                        assert(c2v.1 <= MAX_SEQUENCE_NUMBER && (c2v.2
                                            == TAG_DELETION || c2v.2 == TAG_VALUE)) by {
                                            assert(m.dom().contains(c2v));
                                        }
                                    }
                                }
                                if same && rev_visible(self.sequence_number, c2.0.1) {
                                    self.internal_key_skipped_count = bump(
                                        self.internal_key_skipped_count,
                                    );
                                    if c2.0.2 == TAG_DELETION {
                                        self.internal_delete_skipped_count = bump(
                                            self.internal_delete_skipped_count,
                                        );
                                        value_found = None;
                                        last_tag = TAG_DELETION;
                                    } else {
                                        value_found = Some(c2.1);
                                        last_tag = TAG_VALUE;
                                    }
                                    proof {
                                        last_p = Some(c2v);
                                    }
                                    let nxt = store_seek_lt(store, &c2.0);
                                    proof {
                                        if nxt is Some {
                                            crate::model::lemma_keys_below_shrinks(
                                                m,
                                                c2v,
                                                ikey_view(nxt->Some_0.0),
                                            );
                                            let nv = ikey_view(nxt->Some_0.0);
                                            assert forall|o: IKeyModel| #[trigger]
                                                m.dom().contains(o) && ikey_lt(nv, o) && ikey_le(
                                                o,
                                                ev,
                                            ) && o.0 == euser implies entry_visible(snap, o.1) by {
                                                if ikey_lt(o, c2v) {
                                                    assert(ikey_le(o, nv));
                                                    crate::store::lemma_ikey_lt_irreflexive(o);
                                                    if o != nv {
                                                        crate::store::lemma_ikey_lt_transitive(
                                                            o,
                                                            nv,
                                                            o,
                                                        );
                                                    }
                                                } else {
                                                    crate::store::lemma_ikey_lt_total(o, c2v);
                                                    if o != c2v {
                                                        assert(ikey_lt(c2v, o));
                                                    }
                                                }
                                            }
                                            assert forall|o: IKeyModel| #[trigger]
                                                m.dom().contains(o) && ikey_lt(nv, o) && ikey_lt(
                                                o,
                                                c2v,
                                            ) implies false by {
                                                assert(ikey_le(o, nv));
                                                crate::store::lemma_ikey_lt_irreflexive(o);
                                                if o != nv {
                                                    crate::store::lemma_ikey_lt_transitive(
                                                        o,
                                                        nv,
                                                        o,
                                                    );
                                                }
                                            }
                                            assert forall|o: IKeyModel| #[trigger]
                                                m.dom().contains(o) && lex_lt(o.0, euser)
                                                implies ikey_le(o, nv) by {
                                                assert(ikey_lt(o, c2v));
                                                assert(ikey_le(o, nv));
                                            }
                                            assert(ikey_le(nv, ev)) by {
                                                if c2v == ev {
                                                } else {
                                                    crate::store::lemma_ikey_lt_transitive(
                                                        nv,
                                                        c2v,
                                                        ev,
                                                    );
                                                }
                                            }
                                        } else {
                                            assert forall|o: IKeyModel| #[trigger]
                                                m.dom().contains(o) implies !ikey_lt(o, c2v) by {
                                                if ikey_lt(o, c2v) {
                                                    assert(ikey_le(c2v, o));
                                                    crate::store::lemma_ikey_lt_irreflexive(o);
                                                    if o != c2v {
                                                        crate::store::lemma_ikey_lt_transitive(
                                                            o,
                                                            c2v,
                                                            o,
                                                        );
                                                    }
                                                }
                                            }
                                        }
                                        // the walked set grows by exactly this record
                                        lemma_bwd_walk_step(m, snap, top, c2v, nxt_view(nxt));
                                        assert forall|o: IKeyModel| #[trigger]
                                            m.dom().contains(o) && lex_lt(o.0, top) && (match nxt {
                                            Some(ref n2) => ikey_lt(ikey_view(n2.0), o),
                                            None => true,
                                        }) implies lex_le(self.lower_bound@, o.0) by {
                                            crate::store::lemma_ikey_lt_total(o, c2v);
                                            if o == c2v {
                                                assert(o.0 == euser);
                                            } else if ikey_lt(c2v, o) {
                                            } else {
                                                assert(ikey_lt(o, c2v));
                                                match nxt {
                                                    Some(ref n2) => {
                                                        let nv = ikey_view(n2.0);
                                                        assert(ikey_le(o, nv));
                                                        crate::store::lemma_ikey_lt_irreflexive(o);
                                                        if o != nv {
                                                            crate::store::lemma_ikey_lt_transitive(
                                                                o,
                                                                nv,
                                                                o,
                                                            );
                                                        }
                                                    },
                                                    None => {
                                                        assert(ikey_le(c2v, o));
                                                        crate::store::lemma_ikey_lt_irreflexive(o);
                                                        crate::store::lemma_ikey_lt_transitive(
                                                            o,
                                                            c2v,
                                                            o,
                                                        );
                                                    },
                                                }
                                            }
                                        }
                                    }
                                    centry = nxt;
                                } else {
                                    proof {
                                        if same {
                                            assert(!entry_visible(snap, c2v.1));
                                        }
                                        assert forall|o: IKeyModel| #[trigger]
                                            m.dom().contains(o) && o.0 == euser && ikey_le(
                                            o,
                                            c2v,
                                        ) implies !entry_visible(snap, o.1) by {
                                            if !same {
                                                // the group lies wholly above
                                                // this record
                                                if o == c2v {
                                                } else {
                                                    crate::store::lemma_ikey_le_user(o, c2v);
                                                    crate::store::lemma_ikey_le_user(c2v, ev);
                                                    crate::byteorder::lemma_lex_le_antisymmetric(
                                                        euser,
                                                        c2v.0,
                                                    );
                                                }
                                            } else {
                                                if o == c2v {
                                                } else {
                                                    assert(ikey_lt(o, c2v));
                                                    lemma_visibility_monotone(snap, o, c2v);
                                                }
                                            }
                                        }
                                        if last_p is Some {
                                            let lp = last_p->Some_0;
                                            assert forall|o: IKeyModel| #[trigger]
                                                m.dom().contains(o) && o.0 == euser && ikey_lt(
                                                o,
                                                lp,
                                            ) implies !entry_visible(snap, o.1) by {
                                                crate::store::lemma_ikey_lt_total(o, c2v);
                                                if ikey_lt(c2v, o) {
                                                    assert(false);
                                                } else {
                                                    assert(ikey_le(o, c2v));
                                                }
                                            }
                                            lemma_newest_bwd(m, snap, euser, lp, ev);
                                        } else {
                                            assert(ikey_view(c2.0) == ev);
                                            lemma_group_invisible(m, snap, euser, ev);
                                        }
                                    }
                                    centry = Some(c2);
                                    break ;
                                }
                            },
                        }
                    }
                    // settle validity and walk to the previous group,
                    // counting the records stepped over
                    let found = last_tag == TAG_VALUE;
                    let mut bentry = centry;
                    loop
                        invariant_except_break
                            wf_contents(m),
                            m == store_contents(*store),
                            snap == self.sequence_number,
                            self.direction == Direction::Backward,
                            self.lower_bound == old(self).lower_bound,
                            self.upper_bound == old(self).upper_bound,
                            self.sequence_number == old(self).sequence_number,
                            self.prefix == old(self).prefix,
                            self.prefix_same_as_start == old(self).prefix_same_as_start,
                            self.snapshot_read_ts == old(self).snapshot_read_ts,
                            !self.valid,
                            self.saved_user_key@ == euser,
                            m.dom().contains(ev) && ev.0 == euser,
                            lex_lt(euser, top),
                            lex_le(self.lower_bound@, euser),
                            self.internal_key_skipped_count == counted(
                                old(self).internal_key_skipped_count,
                                bwd_walked(m, top, pos_of(bentry)).len() as int,
                            ),
                            self.internal_delete_skipped_count == counted(
                                old(self).internal_delete_skipped_count,
                                bwd_walked_deletions(m, snap, top, pos_of(bentry)).len() as int,
                            ),
                            forall|o: IKeyModel| #[trigger]
                                m.dom().contains(o) && lex_lt(o.0, top) && (match bentry {
                                    Some(b) => ikey_lt(ikey_view(b.0), o),
                                    None => true,
                                }) ==> lex_le(self.lower_bound@, o.0),
                            forall|o: IKeyModel| #[trigger]
                                m.dom().contains(o) && o.0 == euser && (match bentry {
                                    Some(b) => ikey_le(o, ikey_view(b.0)),
                                    None => false,
                                }) ==> !entry_visible(snap, o.1),
                            match bentry {
                                Some(b) => m.dom().contains(ikey_view(b.0)) && m[ikey_view(b.0)]
                                    == b.1@ && ikey_le(ikey_view(b.0), ev) && forall|o: IKeyModel|
                                    #[trigger] m.dom().contains(o) && lex_lt(o.0, euser)
                                        ==> ikey_le(o, ikey_view(b.0)),
                                None => forall|o: IKeyModel| #[trigger]
                                    m.dom().contains(o) ==> !lex_lt(o.0, euser),
                            },
                        ensures
                            self.saved_user_key@ == euser,
                            snap == self.sequence_number,
                            self.direction == Direction::Backward,
                            self.lower_bound == old(self).lower_bound,
                            self.upper_bound == old(self).upper_bound,
                            self.sequence_number == old(self).sequence_number,
                            self.prefix == old(self).prefix,
                            self.prefix_same_as_start == old(self).prefix_same_as_start,
                            self.snapshot_read_ts == old(self).snapshot_read_ts,
                            !self.valid,
                            self.internal_key_skipped_count == counted(
                                old(self).internal_key_skipped_count,
                                bwd_walked(m, top, pos_of(bentry)).len() as int,
                            ),
                            self.internal_delete_skipped_count == counted(
                                old(self).internal_delete_skipped_count,
                                bwd_walked_deletions(m, snap, top, pos_of(bentry)).len() as int,
                            ),
                            forall|o: IKeyModel| #[trigger]
                                m.dom().contains(o) && lex_lt(o.0, top) && (match bentry {
                                    Some(b) => ikey_lt(ikey_view(b.0), o),
                                    None => true,
                                }) ==> lex_le(self.lower_bound@, o.0),
                            match bentry {
                                Some(b) => m.dom().contains(ikey_view(b.0)) && m[ikey_view(b.0)]
                                    == b.1@ && lex_lt(b.0.0@, euser) && forall|o: IKeyModel|
                                    #[trigger] m.dom().contains(o) && lex_lt(o.0, euser)
                                        ==> ikey_le(o, ikey_view(b.0)),
                                None => forall|o: IKeyModel| #[trigger]
                                    m.dom().contains(o) ==> !lex_lt(o.0, euser),
                            },
                        decreases (match bentry {
                            Some(b) => keys_below(m, ikey_view(b.0)).len() + 1,
                            None => 0,
                        }),
                    {
                        match bentry {
                            None => {
                                break ;
                            },
                            Some(b) => {
                                if bytes_lt(b.0.0.as_slice(), self.saved_user_key.as_slice()) {
                                    bentry = Some(b);
                                    break ;
                                }
                                self.internal_key_skipped_count = bump(
                                    self.internal_key_skipped_count,
                                );
                                let nxt = store_seek_lt(store, &b.0);
                                proof {
                                    let bv = ikey_view(b.0);
                                    if nxt is Some {
                                        crate::model::lemma_keys_below_shrinks(
                                            m,
                                            bv,
                                            ikey_view(nxt->Some_0.0),
                                        );
                                        let nv = ikey_view(nxt->Some_0.0);
                                        assert forall|o: IKeyModel| #[trigger]
                                            m.dom().contains(o) && lex_lt(o.0, euser)
                                            implies ikey_le(o, nv) by {
                                            crate::byteorder::lemma_lex_lt_total(b.0.0@, euser);
                                            assert(lex_le(euser, b.0.0@));
                                            crate::byteorder::lemma_lex_lt_le_trans(
                                                o.0,
                                                euser,
                                                b.0.0@,
                                            );
                                            assert(ikey_lt(o, bv));
                                            assert(ikey_le(o, nv));
                                        }
                                        assert(ikey_le(nv, ev)) by {
                                            if bv == ev {
                                            } else {
                                                crate::store::lemma_ikey_lt_transitive(
                                                    nv,
                                                    bv,
                                                    ev,
                                                );
                                            }
                                        }
                                    } else {
                                        assert forall|o: IKeyModel| #[trigger]
                                            m.dom().contains(o) implies !lex_lt(o.0, euser) by {
                                            if lex_lt(o.0, euser) {
                                                crate::byteorder::lemma_lex_lt_total(
                                                    b.0.0@,
                                                    euser,
                                                );
                                                assert(lex_le(euser, b.0.0@));
                                                crate::byteorder::lemma_lex_lt_le_trans(
                                                    o.0,
                                                    euser,
                                                    b.0.0@,
                                                );
                                                assert(ikey_lt(o, bv));
                                                assert(ikey_le(bv, o));
                                                crate::store::lemma_ikey_lt_irreflexive(o);
                                                if o != bv {
                                                    crate::store::lemma_ikey_lt_transitive(
                                                        o,
                                                        bv,
                                                        o,
                                                    );
                                                }
                                            }
                                        }
                                    }
                                    // the record stepped over is an invisible
                                    // member of the drained group
                                    assert(bv.0 == euser) by {
                                        crate::byteorder::lemma_lex_lt_total(b.0.0@, euser);
                                        assert(lex_le(euser, b.0.0@));
                                        crate::store::lemma_ikey_le_user(bv, ev);
                                        crate::byteorder::lemma_lex_le_antisymmetric(
                                            euser,
                                            b.0.0@,
                                        );
                                    }
                                    assert(!entry_visible(snap, bv.1)) by {
                                        assert(ikey_le(bv, bv));
                                    }
                                    lemma_bwd_walk_step(m, snap, top, bv, nxt_view(nxt));
                                    assert forall|o: IKeyModel| #[trigger]
                                        m.dom().contains(o) && lex_lt(o.0, top) && (match nxt {
                                        Some(ref n2) => ikey_lt(ikey_view(n2.0), o),
                                        None => true,
                                    }) implies lex_le(self.lower_bound@, o.0) by {
                                        crate::store::lemma_ikey_lt_total(o, bv);
                                        if o == bv {
                                        } else if ikey_lt(bv, o) {
                                        } else {
                                            match nxt {
                                                Some(ref n2) => {
                                                    let nv = ikey_view(n2.0);
                                                    assert(ikey_le(o, nv));
                                                    crate::store::lemma_ikey_lt_irreflexive(o);
                                                    if o != nv {
                                                        crate::store::lemma_ikey_lt_transitive(
                                                            o,
                                                            nv,
                                                            o,
                                                        );
                                                    }
                                                },
                                                None => {
                                                    assert(ikey_le(bv, o));
                                                    crate::store::lemma_ikey_lt_irreflexive(o);
                                                    crate::store::lemma_ikey_lt_transitive(
                                                        o,
                                                        bv,
                                                        o,
                                                    );
                                                },
                                            }
                                        }
                                    }
                                    assert forall|o: IKeyModel| #[trigger]
                                        m.dom().contains(o) && o.0 == euser && (match nxt {
                                        Some(ref n2) => ikey_le(o, ikey_view(n2.0)),
                                        None => false,
                                    }) implies !entry_visible(snap, o.1) by {
                                        match nxt {
                                            Some(ref n2) => {
                                                let nv = ikey_view(n2.0);
                                                assert(ikey_le(o, nv));
                                                assert(ikey_le(o, bv)) by {
                                                    if o == nv {
                                                    } else {
                                                        crate::store::lemma_ikey_lt_transitive(
                                                            o,
                                                            nv,
                                                            bv,
                                                        );
                                                    }
                                                }
                                            },
                                            None => {},
                                        }
                                    }
                                }
                                bentry = nxt;
                            },
                        }
                    }
                    if found {
                        self.saved_value = value_found;
                        self.cur = match &bentry {
                            Some(b) => Some((
                                vstd::slice::slice_to_vec(b.0.0.as_slice()),
                                b.0.1,
                                b.0.2,
                            )),
                            None => None,
                        };
                        self.valid = true;
                        proof {
                            let lp = last_p->Some_0;
                            crate::model::lemma_visible_get_value(m, snap, euser, lp.1);
                            assert(visible_has_value(m, snap, euser));
                            // the walked records are exactly those at or
                            // after the emitted key
                            assert(bwd_walked(m, top, pos_of(bentry)) =~= records_in(
                                m,
                                euser,
                                top,
                            )) by {
                                assert forall|o: IKeyModel|
                                    #![trigger bwd_walked(m, top, pos_of(bentry)).contains(o)]
                                    #![trigger records_in(m, euser, top).contains(o)]
                                    m.dom().contains(o) && lex_lt(o.0, top) implies (bwd_walked(
                                    m,
                                    top,
                                    pos_of(bentry),
                                ).contains(o) <==> records_in(m, euser, top).contains(o)) by {
                                    match bentry {
                                        Some(ref b) => {
                                            let bv = ikey_view(b.0);
                                            crate::byteorder::lemma_lex_lt_total(o.0, euser);
                                            if lex_lt(o.0, euser) {
                                                // below the emitted key: in
                                                // neither set
                                                crate::byteorder::lemma_lex_lt_asymmetric(
                                                    o.0,
                                                    euser,
                                                );
                                                crate::byteorder::lemma_lex_lt_irreflexive(o.0);
                                                assert(!lex_le(euser, o.0));
                                                assert(ikey_le(o, bv));
                                                crate::store::lemma_ikey_lt_irreflexive(o);
                                                if ikey_lt(bv, o) {
                                                    if o != bv {
                                                        crate::store::lemma_ikey_lt_transitive(
                                                            o,
                                                            bv,
                                                            o,
                                                        );
                                                    }
                                                    assert(false);
                                                }
                                            } else {
                                                // at or above it: in both
                                                assert(lex_le(euser, o.0));
                                                crate::byteorder::lemma_lex_lt_le_trans(
                                                    b.0.0@,
                                                    euser,
                                                    o.0,
                                                );
                                                assert(ikey_lt(bv, o));
                                            }
                                        },
                                        None => {
                                            assert(!lex_lt(o.0, euser));
                                            crate::byteorder::lemma_lex_lt_total(o.0, euser);
                                            assert(lex_le(euser, o.0));
                                        },
                                    }
                                }
                            }
                            assert(bwd_walked_deletions(m, snap, top, pos_of(bentry))
                                =~= visible_deletions_in(m, snap, euser, top)) by {
                                assert(bwd_walked(m, top, pos_of(bentry)) == records_in(
                                    m,
                                    euser,
                                    top,
                                ));
                                assert forall|o: IKeyModel|
                                    #![trigger bwd_walked_deletions(m, snap, top, pos_of(bentry)).contains(o)]
                                    #![trigger visible_deletions_in(m, snap, euser, top).contains(o)]
                                    true implies (bwd_walked_deletions(
                                    m,
                                    snap,
                                    top,
                                    pos_of(bentry),
                                ).contains(o) <==> visible_deletions_in(m, snap, euser, top).contains(
                                    o,
                                )) by {
                                    assert(bwd_walked(m, top, pos_of(bentry)).contains(o)
                                        <==> records_in(m, euser, top).contains(o));
                                }
                            }
                            crate::byteorder::lemma_lex_lt_le_trans(euser, top, self.upper_bound@);
                            match &self.cur {
                                Some(c) => {
                                    let bv = ikey_view(bentry->Some_0.0);
                                    assert(ikey_view(*c) == bv);
                                    assert forall|e2: IKeyModel| #[trigger]
                                        m.dom().contains(e2) && ikey_lt(ikey_view(*c), e2)
                                            && lex_lt(e2.0, self.saved_user_key@)
                                        implies !entry_visible(self.sequence_number, e2.1) by {
                                        assert(ikey_le(e2, bv));
                                        crate::store::lemma_ikey_lt_irreflexive(e2);
                                        if e2 != bv {
                                            crate::store::lemma_ikey_lt_transitive(e2, bv, e2);
                                        }
                                    }
                                },
                                None => {
                                    assert forall|e2: IKeyModel| #[trigger]
                                        m.dom().contains(e2) && lex_lt(
                                        e2.0,
                                        self.saved_user_key@,
                                    ) implies !entry_visible(self.sequence_number, e2.1) by {
                                        assert(!lex_lt(e2.0, euser));
                                    }
                                },
                            }
                            assert(self.pref_clear_bwd(m, top, euser)) by {
                                assert forall|e2: IKeyModel| #[trigger]
                                    m.dom().contains(e2) && lex_lt(e2.0, top) && lex_le(
                                    euser,
                                    e2.0,
                                ) implies self.prefix_matches(e2.0) by {
                                    if e2.0 == euser {
                                    } else {
                                        assert(lex_lt(euser, e2.0));
                                    }
                                }
                            }
                            assert(lex_le(self.lower_bound@, euser)) by {
                                crate::byteorder::lemma_lex_lt_total(euser, self.lower_bound@);
                            }
                        }
                        break ;
                    } else {
                        proof {
                            // the group cannot be handed out; extend the
                            // scan's knowledge past it
                            if last_p is Some {
                                let lp = last_p->Some_0;
                                crate::model::lemma_visible_get_deletion(m, snap, euser, lp.1);
                            } else {
                                if visible_has_value(m, snap, euser) {
                                    let rv = choose|rv: u64|
                                        is_newest_visible(m, snap, euser, rv, TAG_VALUE);
                                    assert(has_visible_entry(m, snap, euser)) by {
                                        assert(is_newest_visible(m, snap, euser, rv, TAG_VALUE));
                                    }
                                }
                            }
                            assert(!visible_has_value(m, snap, euser));
                            if bentry is Some {
                                let bv = ikey_view(bentry->Some_0.0);
                                assert forall|uk: Seq<u8>|
                                    lex_lt(bv.0, uk) && lex_lt(uk, top) implies !(
                                #[trigger] visible_has_value(m, snap, uk)) by {
                                    crate::byteorder::lemma_lex_lt_total(uk, euser);
                                    if lex_lt(euser, uk) {
                                    } else if uk == euser {
                                    } else {
                                        // no record of uk exists between the
                                        // groups
                                        if visible_has_value(m, snap, uk) {
                                            let rv = choose|rv: u64|
                                                is_newest_visible(m, snap, uk, rv, TAG_VALUE);
                                            let w: IKeyModel = (uk, rv, TAG_VALUE);
                                            assert(m.dom().contains(w));
                                            assert(ikey_le(w, bv));
                                            crate::store::lemma_ikey_le_user(w, bv);
                                            crate::byteorder::lemma_lex_lt_le_trans(
                                                bv.0,
                                                uk,
                                                bv.0,
                                            );
                                            crate::byteorder::lemma_lex_lt_irreflexive(bv.0);
                                        }
                                    }
                                }
                                assert forall|o: IKeyModel| #[trigger]
                                    m.dom().contains(o) && lex_lt(o.0, top) && lex_lt(bv.0, o.0)
                                    implies self.prefix_matches(o.0) by {
                                    crate::byteorder::lemma_lex_lt_total(o.0, euser);
                                    if lex_lt(euser, o.0) {
                                    } else if o.0 == euser {
                                    } else {
                                        assert(ikey_le(o, bv));
                                        crate::store::lemma_ikey_le_user(o, bv);
                                        crate::byteorder::lemma_lex_lt_le_trans(bv.0, o.0, bv.0);
                                        crate::byteorder::lemma_lex_lt_irreflexive(bv.0);
                                    }
                                }
                            } else {
                                assert forall|uk: Seq<u8>|
                                    lex_lt(uk, top) implies !(#[trigger] visible_has_value(
                                    m,
                                    snap,
                                    uk,
                                )) by {
                                    crate::byteorder::lemma_lex_lt_total(uk, euser);
                                    if lex_lt(euser, uk) {
                                    } else if uk == euser {
                                    } else {
                                        if visible_has_value(m, snap, uk) {
                                            let rv = choose|rv: u64|
                                                is_newest_visible(m, snap, uk, rv, TAG_VALUE);
                                            let w: IKeyModel = (uk, rv, TAG_VALUE);
                                            assert(m.dom().contains(w));
                                        }
                                    }
                                }
                            }
                        }
                        proof {
                            if bentry is Some {
                                let bv = ikey_view(bentry->Some_0.0);
                                crate::byteorder::lemma_lex_lt_transitive(bv.0, euser, top);
                                assert forall|o: IKeyModel| #[trigger]
                                    m.dom().contains(o) && o.0 == bv.0 implies ikey_le(o, bv) by {
                                    assert(lex_lt(o.0, euser));
                                }
                                crate::model::lemma_keys_below_shrinks(m, ev, bv);
                                assert(ikey_lt(bv, ev)) by {
                                    crate::byteorder::lemma_lex_lt_irreflexive(euser);
                                }
                            }
                        }
                        entry = bentry;
                    }
                },
            }
        }
    }
}

/// Within one user key's records, stepping down moves to strictly newer
/// sequence numbers, so invisibility persists downward.
proof fn lemma_visibility_monotone(snap: u64, o: IKeyModel, c: IKeyModel)
    requires
        o.0 == c.0,
        ikey_lt(o, c),
        !entry_visible(snap, c.1),
    ensures
        !entry_visible(snap, o.1),
{
    crate::byteorder::lemma_lex_lt_irreflexive(o.0);
}

/// The last visible record gathered walking down a group is the group's
/// newest visible record.
proof fn lemma_newest_bwd(m: CfModel, snap: u64, euser: Seq<u8>, lp: IKeyModel, ev: IKeyModel)
    requires
        wf_contents(m),
        m.dom().contains(lp),
        lp.0 == euser,
        entry_visible(snap, lp.1),
        ikey_le(lp, ev),
        ev.0 == euser,
        forall|o: IKeyModel| #[trigger] m.dom().contains(o) && o.0 == euser ==> ikey_le(o, ev),
        forall|o: IKeyModel| #[trigger]
            m.dom().contains(o) && o.0 == euser && ikey_lt(o, lp) ==> !entry_visible(snap, o.1),
    ensures
        is_newest_visible(m, snap, euser, lp.1, lp.2),
{
    assert forall|r2: u64, t2: u8|
        m.dom().contains((euser, r2, t2)) && entry_visible(snap, r2) implies lp.1 < r2 || (lp.1
        == r2 && lp.2 <= t2) by {
        let o: IKeyModel = (euser, r2, t2);
        crate::store::lemma_ikey_lt_total(o, lp);
        if o == lp {
        } else if ikey_lt(o, lp) {
            assert(!entry_visible(snap, o.1));
        } else {
            assert(ikey_lt(lp, o));
            crate::byteorder::lemma_lex_lt_irreflexive(euser);
        }
    }
}

/// A group all of whose records are invisible has no visible record.
proof fn lemma_group_invisible(m: CfModel, snap: u64, euser: Seq<u8>, ev: IKeyModel)
    requires
        wf_contents(m),
        ev.0 == euser,
        forall|o: IKeyModel| #[trigger] m.dom().contains(o) && o.0 == euser ==> ikey_le(o, ev),
        forall|o: IKeyModel| #[trigger]
            m.dom().contains(o) && o.0 == euser && ikey_le(o, ev) ==> !entry_visible(snap, o.1),
    ensures
        !has_visible_entry(m, snap, euser),
{
    if has_visible_entry(m, snap, euser) {
        let (rev, tag) = choose|rev: u64, tag: u8| is_newest_visible(m, snap, euser, rev, tag);
        let o: IKeyModel = (euser, rev, tag);
        assert(m.dom().contains(o));
        assert(ikey_le(o, ev));
        assert(!entry_visible(snap, o.1));
    }
}

impl RegionCacheIterator {
    /// The user key below which a backward seek for `k` looks: just past
    /// `k`, clamped to the exclusive upper bound.
    pub open spec fn prev_from(self, k: Seq<u8>) -> Seq<u8> {
        if lex_le(self.upper_bound@, k) {
            self.upper_bound@
        } else {
            k.push(0u8)
        }
    }

    /// Positions the iterator at the largest user-visible key at or
    /// before `min(k, just below upper_bound)`; with prefix mode on, the
    /// search is restricted to keys sharing `k`'s prefix.
    pub fn seek_for_prev(&mut self, store: &CfStore, key: &[u8]) -> (r: Result<bool, EngineError>)
        requires
            wf_contents(store_contents(*store)),
            old(self).wf(store_contents(*store)),
            old(self).prefix_same_as_start ==> key@.len() >= 8,
        ensures
            r matches Ok(b) && b == final(self).valid,
            final(self).direction == Direction::Backward,
            final(self).lower_bound == old(self).lower_bound,
            final(self).upper_bound == old(self).upper_bound,
            final(self).sequence_number == old(self).sequence_number,
            final(self).prefix_same_as_start == old(self).prefix_same_as_start,
            final(self).snapshot_read_ts == old(self).snapshot_read_ts,
            old(self).prefix_same_as_start ==> (final(self).prefix matches Some(p) && p@
                == key@.take(key@.len() - 8)),
            !old(self).prefix_same_as_start ==> final(self).prefix == old(self).prefix,
            final(self).wf(store_contents(*store)),
            final(self).bwd_outcome(store_contents(*store), old(self).prev_from(key@)),
            final(self).prefix is None ==> final(self).internal_key_skipped_count == counted(
                old(self).internal_key_skipped_count,
                records_in(
                    store_contents(*store),
                    if final(self).valid {
                        final(self).saved_user_key@
                    } else {
                        final(self).lower_bound@
                    },
                    old(self).prev_from(key@),
                ).len() as int,
            ),
            final(self).prefix is None ==> final(self).internal_delete_skipped_count == counted(
                old(self).internal_delete_skipped_count,
                visible_deletions_in(
                    store_contents(*store),
                    final(self).sequence_number,
                    if final(self).valid {
                        final(self).saved_user_key@
                    } else {
                        final(self).lower_bound@
                    },
                    old(self).prev_from(key@),
                ).len() as int,
            ),
    {
        let ghost m = store_contents(*store);
        self.direction = Direction::Backward;
        self.valid = false;
        if self.prefix_same_as_start {
            let pre = vstd::slice::slice_subrange(key, 0, key.len() - 8);
            self.prefix = Some(vstd::slice::slice_to_vec(pre));
            proof {
                assert(key@.subrange(0, key@.len() - 8) =~= key@.take(key@.len() - 8));
            }
        }
        let top_vec: Vec<u8> = if bytes_le(self.upper_bound.as_slice(), key) {
            vstd::slice::slice_to_vec(self.upper_bound.as_slice())
        } else {
            let mut k2 = vstd::slice::slice_to_vec(key);
            k2.push(0u8);
            k2
        };
        let ghost top = self.prev_from(key@);
        proof {
            assert(top_vec@ == top);
            if !lex_le(self.upper_bound@, key@) {
                crate::byteorder::lemma_lex_lt_total(key@, self.upper_bound@);
                assert(lex_lt(key@, self.upper_bound@));
                crate::byteorder::lemma_lex_successor(key@, self.upper_bound@);
            }
        }
        self.seek_bwd_internal(store, top_vec, Ghost(top));
        Ok(self.valid)
    }

    /// Positions the iterator at the largest user-visible key, the one a
    /// backward seek from the upper bound finds. Prefix mode does not
    /// allow it.
    pub fn seek_to_last(&mut self, store: &CfStore) -> (r: Result<bool, EngineError>)
        requires
            wf_contents(store_contents(*store)),
            old(self).wf(store_contents(*store)),
            !old(self).prefix_same_as_start,
        ensures
            r matches Ok(b) && b == final(self).valid,
            final(self).direction == Direction::Backward,
            final(self).lower_bound == old(self).lower_bound,
            final(self).upper_bound == old(self).upper_bound,
            final(self).sequence_number == old(self).sequence_number,
            final(self).prefix_same_as_start == old(self).prefix_same_as_start,
            final(self).snapshot_read_ts == old(self).snapshot_read_ts,
            final(self).prefix == old(self).prefix,
            final(self).wf(store_contents(*store)),
            final(self).bwd_outcome(store_contents(*store), old(self).upper_bound@),
            final(self).prefix is None ==> final(self).internal_key_skipped_count == counted(
                old(self).internal_key_skipped_count,
                records_in(
                    store_contents(*store),
                    if final(self).valid {
                        final(self).saved_user_key@
                    } else {
                        final(self).lower_bound@
                    },
                    old(self).upper_bound@,
                ).len() as int,
            ),
            final(self).prefix is None ==> final(self).internal_delete_skipped_count == counted(
                old(self).internal_delete_skipped_count,
                visible_deletions_in(
                    store_contents(*store),
                    final(self).sequence_number,
                    if final(self).valid {
                        final(self).saved_user_key@
                    } else {
                        final(self).lower_bound@
                    },
                    old(self).upper_bound@,
                ).len() as int,
            ),
    {
        let ghost m = store_contents(*store);
        self.direction = Direction::Backward;
        self.valid = false;
        let top_vec: Vec<u8> = vstd::slice::slice_to_vec(self.upper_bound.as_slice());
        self.seek_bwd_internal(store, top_vec, Ghost(self.upper_bound@));
        Ok(self.valid)
    }

    /// Retreats to the previous user-visible key strictly before the
    /// current one.
    pub fn prev(&mut self, store: &CfStore) -> (r: Result<bool, EngineError>)
        requires
            wf_contents(store_contents(*store)),
            old(self).wf(store_contents(*store)),
            old(self).valid,
            old(self).direction != Direction::Uninit,
        ensures
            r matches Ok(b) && b == final(self).valid,
            final(self).direction == Direction::Backward,
            final(self).lower_bound == old(self).lower_bound,
            final(self).upper_bound == old(self).upper_bound,
            final(self).sequence_number == old(self).sequence_number,
            final(self).prefix == old(self).prefix,
            final(self).prefix_same_as_start == old(self).prefix_same_as_start,
            final(self).snapshot_read_ts == old(self).snapshot_read_ts,
            final(self).wf(store_contents(*store)),
            final(self).valid ==> lex_lt(final(self).saved_user_key@, old(self).saved_user_key@),
            final(self).bwd_outcome(store_contents(*store), old(self).saved_user_key@),
            final(self).prefix is None ==> final(self).internal_key_skipped_count == counted(
                old(self).internal_key_skipped_count,
                records_in(
                    store_contents(*store),
                    if final(self).valid {
                        final(self).saved_user_key@
                    } else {
                        final(self).lower_bound@
                    },
                    old(self).saved_user_key@,
                ).len() as int,
            ),
            final(self).prefix is None ==> final(self).internal_delete_skipped_count == counted(
                old(self).internal_delete_skipped_count,
                visible_deletions_in(
                    store_contents(*store),
                    final(self).sequence_number,
                    if final(self).valid {
                        final(self).saved_user_key@
                    } else {
                        final(self).lower_bound@
                    },
                    old(self).saved_user_key@,
                ).len() as int,
            ),
    {
        let ghost m = store_contents(*store);
        self.direction = Direction::Backward;
        self.valid = false;
        let top_vec: Vec<u8> = vstd::slice::slice_to_vec(self.saved_user_key.as_slice());
        proof {
            assert(lex_le(top_vec@, self.upper_bound@));
        }
        self.seek_bwd_internal(store, top_vec, Ghost(old(self).saved_user_key@));
        Ok(self.valid)
    }

    /// The shared backward-seek core: positions the underlying cursor on
    /// the greatest record below user key `top` and runs the backward
    /// scan.
    fn seek_bwd_internal(&mut self, store: &CfStore, top_vec: Vec<u8>, Ghost(top): Ghost<Seq<u8>>)
        requires
            wf_contents(store_contents(*store)),
            old(self).direction == Direction::Backward,
            !old(self).valid,
            old(self).prefix is Some ==> old(self).prefix_same_as_start,
            top_vec@ == top,
            lex_le(top, old(self).upper_bound@),
        ensures
            final(self).direction == Direction::Backward,
            final(self).lower_bound == old(self).lower_bound,
            final(self).upper_bound == old(self).upper_bound,
            final(self).sequence_number == old(self).sequence_number,
            final(self).prefix == old(self).prefix,
            final(self).prefix_same_as_start == old(self).prefix_same_as_start,
            final(self).snapshot_read_ts == old(self).snapshot_read_ts,
            final(self).wf(store_contents(*store)),
            final(self).bwd_outcome(store_contents(*store), top),
            final(self).prefix is None ==> final(self).internal_key_skipped_count == counted(
                old(self).internal_key_skipped_count,
                records_in(
                    store_contents(*store),
                    if final(self).valid {
                        final(self).saved_user_key@
                    } else {
                        final(self).lower_bound@
                    },
                    top,
                ).len() as int,
            ),
            final(self).prefix is None ==> final(self).internal_delete_skipped_count == counted(
                old(self).internal_delete_skipped_count,
                visible_deletions_in(
                    store_contents(*store),
                    final(self).sequence_number,
                    if final(self).valid {
                        final(self).saved_user_key@
                    } else {
                        final(self).lower_bound@
                    },
                    top,
                ).len() as int,
            ),
    {
        let ghost m = store_contents(*store);
        let probe: IKey = (top_vec, 0u64, 0u8);
        let ghost pv: IKeyModel = (top, 0u64, 0u8);
        proof {
            assert(ikey_view(probe) == pv);
        }
        let e0 = store_seek_lt(store, &probe);
        proof {
            match e0 {
                Some(ref e) => {
                    let ev = ikey_view(e.0);
                    assert(lex_lt(ev.0, top)) by {
                        assert(ikey_lt(ev, pv));
                        if !lex_lt(ev.0, top) {
                            assert(ev.0 == top && (ev.1 < 0u64 || (ev.1 == 0u64 && ev.2 < 0u8)));
                        }
                    }
                    assert forall|o: IKeyModel| #[trigger]
                        m.dom().contains(o) && lex_lt(o.0, top) implies ikey_le(o, ev) by {
                        assert(ikey_lt(o, pv));
                    }
                },
                None => {
                    assert forall|o: IKeyModel| #[trigger]
                        m.dom().contains(o) implies !lex_lt(o.0, top) by {
                        assert(ikey_le(pv, o));
                        if lex_lt(o.0, top) {
                            assert(ikey_lt(o, pv));
                            crate::store::lemma_ikey_lt_irreflexive(o);
                            crate::store::lemma_ikey_lt_transitive(o, pv, o);
                        }
                    }
                },
            }
        }
        self.prev_scan(store, e0, Ghost(top));
    }
}

/// The in-memory MVCC cache: the skiplist store and the region
/// lifecycle bookkeeping.
pub struct RegionCacheMemoryEngine {
    pub engine: SkiplistEngine,
    pub region_manager: RegionManager,
}

impl RegionCacheMemoryEngine {
    pub open spec fn wf(self) -> bool {
        self.engine.wf() && self.region_manager.wf()
    }

    pub fn new() -> (r: RegionCacheMemoryEngine)
        ensures
            r.wf(),
            r.region_manager.regions@.len() == 0,
            r.region_manager.historical@.len() == 0,
            r.engine.cf(CfName::Default) =~= Map::empty(),
            r.engine.cf(CfName::Lock) =~= Map::empty(),
            r.engine.cf(CfName::Write) =~= Map::empty(),
    {
        RegionCacheMemoryEngine {
            engine: SkiplistEngine::new(),
            region_manager: RegionManager::new(),
        }
    }

    /// Takes a snapshot of `region` at `read_ts`, pinned to engine
    /// sequence `seq_num`: it succeeds exactly when the region is known
    /// under this epoch, cached, and `read_ts` is not below the
    /// safe-point, and then registers the snapshot's timestamp.
    pub fn snapshot(&mut self, region: &CacheRegion, read_ts: u64, seq_num: u64) -> (r: Result<
        RegionCacheSnapshot,
        FailedReason,
    >)
        requires
            old(self).wf(),
        ensures
            final(self).wf(),
            snapshot_post(*old(self), *final(self), *region, read_ts, seq_num, r),
    {
        match self.region_manager.region_snapshot(region.id, region.epoch_version, read_ts) {
            Ok(_) => Ok(RegionCacheSnapshot {
                meta: RegionCacheSnapshotMeta {
                    region: copy_region(region),
                    snapshot_ts: read_ts,
                    sequence_number: seq_num,
                },
            }),
            Err(e) => Err(e),
        }
    }

    /// Releases a snapshot: deregisters its timestamp and returns the
    /// regions that thereby became physically deletable, for the range
    /// worker. Dropping the returned handle without this call would leak
    /// the registration.
    pub fn release_snapshot(&mut self, snap: RegionCacheSnapshot) -> (r: Vec<CacheRegion>)
        requires
            old(self).wf(),
            old(self).region_manager.pair_in_regions(
                snap.meta.region.id,
                snap.meta.region.epoch_version,
            ) ==> {
                let i = old(self).region_manager.regions_pair_idx(
                    snap.meta.region.id,
                    snap.meta.region.epoch_version,
                );
                crate::region_manager::snap_count(
                    old(self).region_manager.regions@[i].snapshots@,
                    snap.meta.snapshot_ts,
                ) > 0
            },
            !old(self).region_manager.pair_in_regions(
                snap.meta.region.id,
                snap.meta.region.epoch_version,
            ) ==> old(self).region_manager.pair_in_historical(
                snap.meta.region.id,
                snap.meta.region.epoch_version,
            ) && {
                let i = old(self).region_manager.hist_pair_idx(
                    snap.meta.region.id,
                    snap.meta.region.epoch_version,
                );
                crate::region_manager::snap_count(
                    old(self).region_manager.historical@[i].snapshots@,
                    snap.meta.snapshot_ts,
                ) > 0
            },
        ensures
            final(self).wf(),
            final(self).engine == old(self).engine,
            exists|mid: RegionManager|
                crate::region_manager::release_post(
                    old(self).region_manager,
                    mid,
                    snap.meta.region.id,
                    snap.meta.region.epoch_version,
                    snap.meta.snapshot_ts,
                ) && crate::region_manager::take_post(
                    mid,
                    final(self).region_manager,
                    r@.map_values(|c: CacheRegion| c@),
                ),
    {
        self.region_manager.release_snapshot(
            snap.meta.region.id,
            snap.meta.region.epoch_version,
            snap.meta.snapshot_ts,
        );
        let ghost mid = self.region_manager;
        let r = self.region_manager.take_deletable_regions();
        proof {
            assert(crate::region_manager::release_post(
                old(self).region_manager,
                mid,
                snap.meta.region.id,
                snap.meta.region.epoch_version,
                snap.meta.snapshot_ts,
            ) && crate::region_manager::take_post(
                mid,
                self.region_manager,
                r@.map_values(|c: CacheRegion| c@),
            ));
        }
        r
    }

    /// Admits a freshly loaded region in `Cached` state.
    pub fn new_region(&mut self, region: CacheRegion)
        requires
            old(self).wf(),
            !old(self).region_manager.has_region(region.id),
        ensures
            final(self).wf(),
            final(self).engine == old(self).engine,
            final(self).region_manager.regions@.len() == old(self).region_manager.regions@.len()
                + 1,
            final(self).region_manager.regions@.last().region@ == region@,
            final(self).region_manager.regions@.last().state == RegionState::Cached,
            final(self).region_manager.regions@.last().safe_point == 0u64,
            final(self).region_manager.regions@.last().snapshots@.len() == 0,
            final(self).region_manager.regions@.subrange(
                0,
                old(self).region_manager.regions@.len() as int,
            ) == old(self).region_manager.regions@,
            final(self).region_manager.historical@ == old(self).region_manager.historical@,
    {
        self.region_manager.new_region(region)
    }

    /// Raises a region's safe-point; reads below it are rejected from
    /// then on. Returns whether the new value was accepted, and never
    /// lowers the safe-point.
    pub fn set_safe_point(&mut self, id: u64, ts: u64) -> (r: bool)
        requires
            old(self).wf(),
        ensures
            final(self).wf(),
            final(self).engine == old(self).engine,
            r == (old(self).region_manager.has_region(id) && ts >= old(self).region_manager.meta_of(id).safe_point),
            final(self).region_manager.historical@ == old(self).region_manager.historical@,
            !old(self).region_manager.has_region(id) ==> final(self).region_manager.regions@
                == old(self).region_manager.regions@,
            old(self).region_manager.has_region(id) ==> {
                let i = old(self).region_manager.region_idx(id);
                let m = old(self).region_manager.regions@[i];
                final(self).region_manager.regions@ == old(self).region_manager.regions@.update(
                    i,
                    crate::region_manager::RegionMeta {
                        safe_point: if ts >= m.safe_point {
                            ts
                        } else {
                            m.safe_point
                        },
                        ..m
                    },
                )
            },
            old(self).region_manager.has_region(id) ==> final(self).region_manager.meta_of(
                id,
            ).safe_point == (if ts >= old(self).region_manager.meta_of(id).safe_point {
                ts
            } else {
                old(self).region_manager.meta_of(id).safe_point
            }),
    {
        let ghost pre = self.region_manager;
        let r = self.region_manager.set_safe_point(id, ts);
        proof {
            if pre.has_region(id) {
                let i = pre.region_idx(id);
                assert(self.region_manager.regions@[i].region.id == id);
                assert(self.region_manager.has_region(id));
                let i2 = self.region_manager.region_idx(id);
                if i2 != i {
                    assert(self.region_manager.regions@[i2].region.id == id);
                    assert(self.region_manager.regions@[i2].region.id
                        != self.region_manager.regions@[i].region.id);
                }
            }
        }
        r
    }

    /// Writes a live value into a column family.
    pub fn put(&mut self, cf: CfName, user_key: &[u8], seq_num: u64, value: Vec<u8>)
        requires
            old(self).wf(),
            cf != CfName::Raft,
            seq_num <= MAX_SEQUENCE_NUMBER,
        ensures
            final(self).wf(),
            final(self).region_manager == old(self).region_manager,
            final(self).engine.cf(cf) == old(self).engine.cf(cf).insert(
                (user_key@, rev_of_seq(seq_num), TAG_VALUE),
                value@,
            ),
            forall|other: CfName|
                other != cf ==> final(self).engine.cf(other) == old(self).engine.cf(other),
    {
        self.engine.put(cf, user_key, seq_num, value)
    }

    /// Writes a tombstone into a column family.
    pub fn delete(&mut self, cf: CfName, user_key: &[u8], seq_num: u64)
        requires
            old(self).wf(),
            cf != CfName::Raft,
            seq_num <= MAX_SEQUENCE_NUMBER,
        ensures
            final(self).wf(),
            final(self).region_manager == old(self).region_manager,
            final(self).engine.cf(cf) == old(self).engine.cf(cf).insert(
                (user_key@, rev_of_seq(seq_num), TAG_DELETION),
                Seq::empty(),
            ),
            forall|other: CfName|
                other != cf ==> final(self).engine.cf(other) == old(self).engine.cf(other),
    {
        self.engine.delete(cf, user_key, seq_num)
    }

    /// Moves a cached region to pending-evict and returns what became
    /// physically deletable.
    pub fn evict_region(&mut self, id: u64) -> (r: Vec<CacheRegion>)
        requires
            old(self).wf(),
            old(self).region_manager.has_region(id),
            old(self).region_manager.meta_of(id).state == RegionState::Cached,
        ensures
            final(self).wf(),
            final(self).engine == old(self).engine,
            final(self).region_manager.historical@ == old(self).region_manager.historical@,
            final(self).region_manager.regions@.len() == old(self).region_manager.regions@.len(),
            r@.map_values(|c: CacheRegion| c@) == old(self).region_manager.evict_deletable_views(
                id,
            ),
    {
        self.region_manager.evict_region(id)
    }

    /// Splits a cached region into child regions.
    pub fn split_region(&mut self, source: &CacheRegion, new_regions: Vec<CacheRegion>)
        requires
            old(self).wf(),
            old(self).region_manager.has_region(source.id),
            old(self).region_manager.meta_of(source.id).region.epoch_version
                == source.epoch_version,
            !old(self).region_manager.pair_in_historical(source.id, source.epoch_version),
            forall|a: int, b: int|
                0 <= a < b < new_regions@.len() ==> new_regions@[a].id != new_regions@[b].id,
            forall|a: int|
                0 <= a < new_regions@.len() ==> (old(self).region_manager.has_region(
                    new_regions@[a].id,
                ) ==> new_regions@[a].id == source.id),
        ensures
            final(self).wf(),
            final(self).engine == old(self).engine,
            final(self).region_manager.regions@.len() == old(self).region_manager.regions@.len()
                - 1 + new_regions@.len(),
            final(self).region_manager.regions@.take(
                old(self).region_manager.regions@.len() - 1,
            ) == old(self).region_manager.regions@.remove(
                old(self).region_manager.region_idx(source.id),
            ),
            forall|j: int|
                0 <= j < new_regions@.len() ==> {
                    let meta = #[trigger] final(self).region_manager.regions@[old(self).region_manager.regions@.len() - 1 + j];
                    meta.region@ == new_regions@[j]@ && meta.state == RegionState::Cached
                        && meta.safe_point == old(self).region_manager.meta_of(
                        source.id,
                    ).safe_point && meta.snapshots@.len() == 0
                },
            old(self).region_manager.meta_of(source.id).snapshots@.len() > 0 ==> final(self).region_manager.historical@ == old(self).region_manager.historical@.push(
                old(self).region_manager.regions@[old(self).region_manager.region_idx(source.id)],
            ),
            old(self).region_manager.meta_of(source.id).snapshots@.len() == 0 ==> final(self).region_manager.historical@ == old(self).region_manager.historical@,
    {
        self.region_manager.split_region(source.id, source.epoch_version, new_regions)
    }

    /// Physically deletes one evicted region's data and drops its
    /// lifecycle record; the range worker calls this once no snapshot
    /// blocks the region.
    pub fn delete_region(&mut self, region: &CacheRegion)
        requires
            old(self).wf(),
        ensures
            final(self).wf(),
            forall|cf: CfName, k: IKeyModel|
                cf != CfName::Raft ==> (#[trigger] final(self).engine.cf(cf).dom().contains(k)
                    <==> (old(self).engine.cf(cf).dom().contains(k) && !crate::engine::key_in_range(
                    k.0,
                    region.start@,
                    region.end@,
                ))),
            forall|cf: CfName, k: IKeyModel|
                cf != CfName::Raft && #[trigger] final(self).engine.cf(cf).dom().contains(k)
                    ==> final(self).engine.cf(cf)[k] == old(self).engine.cf(cf)[k],
            !final(self).region_manager.has_region(region.id),
    {
        self.engine.delete_range(region.start.as_slice(), region.end.as_slice());
        self.region_manager.remove_region(region.id);
    }

    /// Opens an iterator over one column family of this snapshot. Both
    /// bounds are mandatory and must lie inside the snapshot's region.
    pub fn iterator_opt(&self, snap: &RegionCacheSnapshot, cf: CfName, opts: IterOptions) -> (r:
        Result<RegionCacheIterator, EngineError>)
        requires
            self.wf(),
            cf != CfName::Raft,
        ensures
            match r {
                Ok(it) => {
                    &&& opts.lower_bound matches Some(lo) && it.lower_bound@ == lo@
                    &&& opts.upper_bound matches Some(hi) && it.upper_bound@ == hi@
                    &&& lex_le(snap.meta.region.start@, it.lower_bound@)
                    &&& lex_le(it.upper_bound@, snap.meta.region.end@)
                    &&& it.sequence_number == snap.meta.sequence_number
                    &&& it.snapshot_read_ts == snap.meta.snapshot_ts
                    &&& it.prefix_same_as_start == opts.prefix_same_as_start
                    &&& it.prefix is None
                    &&& it.direction == Direction::Uninit
                    &&& !it.valid
                    &&& it.wf(self.engine.cf(cf))
                },
                Err(e) => match e {
                    EngineError::BoundaryNotSet => opts.lower_bound is None || opts.upper_bound
                        is None,
                    EngineError::RangeOutOfSnapshot => opts.lower_bound is Some
                        && opts.upper_bound is Some && (lex_lt(
                        opts.lower_bound->Some_0@,
                        snap.meta.region.start@,
                    ) || lex_lt(snap.meta.region.end@, opts.upper_bound->Some_0@)),
                },
            },
    {
        let (lower, upper) = match (opts.lower_bound, opts.upper_bound) {
            (Some(lo), Some(hi)) => (lo, hi),
            _ => {
                return Err(EngineError::BoundaryNotSet);
            },
        };
        if bytes_lt(lower.as_slice(), snap.meta.region.start.as_slice()) || bytes_lt(
            snap.meta.region.end.as_slice(),
            upper.as_slice(),
        ) {
            return Err(EngineError::RangeOutOfSnapshot);
        }
        proof {
            crate::byteorder::lemma_lex_lt_total(lower@, snap.meta.region.start@);
            crate::byteorder::lemma_lex_lt_total(snap.meta.region.end@, upper@);
        }
        Ok(RegionCacheIterator {
            valid: false,
            cur: None,
            lower_bound: lower,
            upper_bound: upper,
            sequence_number: snap.meta.sequence_number,
            saved_user_key: Vec::new(),
            saved_value: None,
            prefix_same_as_start: opts.prefix_same_as_start,
            prefix: None,
            direction: Direction::Uninit,
            internal_delete_skipped_count: 0,
            internal_key_skipped_count: 0,
            snapshot_read_ts: snap.meta.snapshot_ts,
        })
    }
}

/// Direction reversal returns to the same position: an iterator standing
/// on `a` that `next` moved to some key `b` is brought back to exactly
/// `a` by the following `prev` (stated without prefix mode, whose
/// restriction is a property of the seek key rather than the position).
pub proof fn lemma_direction_reversal(
    it_next: RegionCacheIterator,
    it_prev: RegionCacheIterator,
    m: CfModel,
    a: Seq<u8>,
)
    requires
        wf_contents(m),
        it_next.prefix is None,
        it_prev.prefix is None,
        it_prev.sequence_number == it_next.sequence_number,
        lex_le(it_prev.lower_bound@, a),
        visible_has_value(m, it_next.sequence_number, a),
        // the state after `next` from `a`:
        it_next.valid,
        it_next.fwd_outcome(m, a.push(0u8), (a, 0u64, 0u8)),
        // the state after the following `prev`:
        it_prev.bwd_outcome(m, it_next.saved_user_key@),
    ensures
        it_prev.valid,
        it_prev.saved_user_key@ == a,
        visible_get(m, it_prev.sequence_number, a) == Some(it_prev.spec_value()),
{
    let snap = it_next.sequence_number;
    let b = it_next.saved_user_key@;
    crate::byteorder::lemma_lex_lt_push_zero(a);
    assert(lex_le(a.push(0u8), b));
    crate::byteorder::lemma_lex_lt_le_trans(a, a.push(0u8), b);
    assert(lex_lt(a, b));
    // `a` can be handed out by the backward scan from below `b`
    assert(it_prev.bwd_emittable(m, b, a)) by {
        assert(it_prev.prefix_matches(a));
        assert(it_prev.pref_clear_bwd(m, b, a));
    }
    assert(it_prev.valid);
    let s = it_prev.saved_user_key@;
    crate::byteorder::lemma_lex_lt_total(s, a);
    if lex_lt(a, s) {
        // a key between `a` and `b` would contradict what `next` skipped
        assert(lex_lt(s, b));
        crate::byteorder::lemma_lex_successor(a, s);
        assert(lex_le(a.push(0u8), s));
        assert(!visible_has_value(m, snap, s));
        assert(false);
    } else if lex_lt(s, a) {
        // `prev` would have stopped at `a` first
        assert(lex_lt(a, b));
        assert(!visible_has_value(m, snap, a));
        assert(false);
    }
}

/// Forward scans, backward scans and point reads agree: a user key in
/// the window with a visible value is found by a forward seek at it,
/// found by a backward seek just past it, and both hand out exactly the
/// value a point read returns (stated without prefix mode).
pub proof fn lemma_scan_point_equivalence(
    it_f: RegionCacheIterator,
    it_b: RegionCacheIterator,
    m: CfModel,
    uk: Seq<u8>,
)
    requires
        wf_contents(m),
        it_f.prefix is None,
        it_b.prefix is None,
        it_b.sequence_number == it_f.sequence_number,
        it_b.lower_bound@ == it_f.lower_bound@,
        lex_le(it_f.lower_bound@, uk),
        lex_lt(uk, it_f.upper_bound@),
        visible_get(m, it_f.sequence_number, uk) is Some,
        // the state after a forward seek at `uk`:
        it_f.fwd_outcome(m, uk, it_f.seek_triple(uk)),
        // the state after a backward seek at `uk`:
        it_b.bwd_outcome(m, uk.push(0u8)),
    ensures
        it_f.valid,
        it_f.saved_user_key@ == uk,
        it_b.valid,
        it_b.saved_user_key@ == uk,
        visible_get(m, it_f.sequence_number, uk) == Some(it_f.spec_value()),
        visible_get(m, it_b.sequence_number, uk) == Some(it_b.spec_value()),
{
    let snap = it_f.sequence_number;
    assert(visible_has_value(m, snap, uk)) by {
        if !visible_has_value(m, snap, uk) {
            assert(visible_get(m, snap, uk) is None);
        }
    }
    crate::byteorder::lemma_lex_lt_irreflexive(uk);
    // forward: `uk` is itself the least candidate at or after `uk`
    assert(it_f.fwd_emittable(m, uk, it_f.seek_triple(uk), uk)) by {
        assert(it_f.prefix_matches(uk));
        assert(it_f.pref_clear(m, it_f.seek_triple(uk), uk));
    }
    assert(it_f.valid);
    crate::byteorder::lemma_lex_lt_total(it_f.saved_user_key@, uk);
    if lex_lt(uk, it_f.saved_user_key@) {
        assert(!visible_has_value(m, snap, uk));
        assert(false);
    } else if lex_lt(it_f.saved_user_key@, uk) {
        assert(it_f.fwd_emittable(m, uk, it_f.seek_triple(uk), it_f.saved_user_key@));
        crate::byteorder::lemma_lex_le_lt_trans(uk, it_f.saved_user_key@, uk);
        assert(false);
    }
    // backward: `uk` is itself the greatest candidate below `uk`'s
    // successor
    crate::byteorder::lemma_lex_lt_push_zero(uk);
    assert(it_b.bwd_emittable(m, uk.push(0u8), uk)) by {
        assert(it_b.prefix_matches(uk));
        assert(it_b.pref_clear_bwd(m, uk.push(0u8), uk));
    }
    assert(it_b.valid);
    let s = it_b.saved_user_key@;
    crate::byteorder::lemma_lex_lt_total(s, uk);
    if lex_lt(uk, s) {
        assert(lex_lt(s, uk.push(0u8)));
        crate::byteorder::lemma_lex_successor(uk, s);
        crate::byteorder::lemma_lex_lt_le_trans(s, uk.push(0u8), s);
        assert(false);
    } else if lex_lt(s, uk) {
        assert(lex_lt(uk, uk.push(0u8)));
        assert(!visible_has_value(m, snap, uk));
        assert(false);
    }
}

/// Tombstone transparency: a positioned iterator, in the state every
/// scanning and seeking operation leaves it, stands at a user key whose
/// newest visible record is a live value, and hands out exactly that
/// value; a user key whose newest visible record is a tombstone is
/// never the one emitted.
pub proof fn lemma_tombstone_transparency(m: CfModel, it: RegionCacheIterator, uk: Seq<u8>)
    requires
        wf_contents(m),
        it.wf(m),
        it.valid,
        tombstoned(m, it.sequence_number, uk),
    ensures
        visible_has_value(m, it.sequence_number, it.saved_user_key@),
        visible_get(m, it.sequence_number, it.saved_user_key@) == Some(it.spec_value()),
        it.saved_user_key@ != uk,
{
    let snap = it.sequence_number;
    assert(visible_has_value(m, snap, it.saved_user_key@)) by {
        if !visible_has_value(m, snap, it.saved_user_key@) {
            assert(visible_get(m, snap, it.saved_user_key@) is None);
        }
    }
    if it.saved_user_key@ == uk {
        let rd = choose|rv: u64| is_newest_visible(m, snap, uk, rv, TAG_DELETION);
        let rv2 = choose|rv: u64| is_newest_visible(m, snap, uk, rv, TAG_VALUE);
        crate::model::lemma_newest_visible_unique(m, snap, uk, rd, TAG_DELETION, rv2, TAG_VALUE);
    }
}

/// Marks one step index of a sweep: always true, and mentioned only to
/// address a single step of a sweep's chained quantifier.
pub open spec fn sweep_idx(its: Seq<RegionCacheIterator>, i: int) -> bool {
    true
}

/// Two iterator states that belong to one scan: same snapshot, same
/// bound window, and prefix mode off on both.
pub open spec fn same_scan(a: RegionCacheIterator, b: RegionCacheIterator) -> bool {
    &&& a.sequence_number == b.sequence_number
    &&& a.lower_bound@ == b.lower_bound@
    &&& a.upper_bound@ == b.upper_bound@
    &&& a.prefix is None
    &&& b.prefix is None
}

/// The states a forward scan runs through until exhaustion: the first
/// is the state a seek at `lo` leaves, each later one the state the
/// following step leaves, anchored just past its predecessor's key,
/// and the last is invalid.
pub open spec fn fwd_sweep(m: CfModel, its: Seq<RegionCacheIterator>, lo: Seq<u8>) -> bool {
    &&& its.len() >= 1
    &&& its[0].prefix is None
    &&& its[0].fwd_outcome(m, lo, its[0].seek_triple(lo))
    &&& forall|i: int|
        #![trigger sweep_idx(its, i)]
        0 < i < its.len() ==> same_scan(its[i], its[0]) && its[i - 1].valid && its[i].fwd_outcome(
            m,
            its[i - 1].saved_user_key@.push(0u8),
            (its[i - 1].saved_user_key@, 0u64, 0u8),
        )
    &&& !its[its.len() - 1].valid
}

/// The states a backward scan runs through until exhaustion, from just
/// below user key `top`.
pub open spec fn bwd_sweep(m: CfModel, its: Seq<RegionCacheIterator>, top: Seq<u8>) -> bool {
    &&& its.len() >= 1
    &&& its[0].prefix is None
    &&& its[0].bwd_outcome(m, top)
    &&& forall|i: int|
        #![trigger sweep_idx(its, i)]
        0 < i < its.len() ==> same_scan(its[i], its[0]) && its[i - 1].valid && its[i].bwd_outcome(
            m,
            its[i - 1].saved_user_key@,
        )
    &&& !its[its.len() - 1].valid
}

/// Unfolds one step of a forward sweep.
proof fn lemma_fwd_sweep_at(m: CfModel, its: Seq<RegionCacheIterator>, lo: Seq<u8>, i: int)
    requires
        fwd_sweep(m, its, lo),
        0 < i < its.len(),
    ensures
        same_scan(its[i], its[0]),
        its[i - 1].valid,
        its[i].fwd_outcome(
            m,
            its[i - 1].saved_user_key@.push(0u8),
            (its[i - 1].saved_user_key@, 0u64, 0u8),
        ),
{
    assert(sweep_idx(its, i));
}

/// Unfolds one step of a backward sweep.
proof fn lemma_bwd_sweep_at(m: CfModel, its: Seq<RegionCacheIterator>, top: Seq<u8>, i: int)
    requires
        bwd_sweep(m, its, top),
        0 < i < its.len(),
    ensures
        same_scan(its[i], its[0]),
        its[i - 1].valid,
        its[i].bwd_outcome(m, its[i - 1].saved_user_key@),
{
    assert(sweep_idx(its, i));
}

/// Every key a forward sweep emits sits at or above its starting point.
proof fn lemma_fwd_sweep_lo(m: CfModel, its: Seq<RegionCacheIterator>, lo: Seq<u8>, i: int)
    requires
        wf_contents(m),
        fwd_sweep(m, its, lo),
        0 <= i < its.len() - 1,
    ensures
        its[i].valid,
        lex_le(lo, its[i].saved_user_key@),
    decreases i,
{
    lemma_fwd_sweep_at(m, its, lo, i + 1);
    if i == 0 {
        assert(its[0].fwd_emittable(m, lo, its[0].seek_triple(lo), its[0].saved_user_key@));
    } else {
        lemma_fwd_sweep_lo(m, its, lo, i - 1);
        lemma_fwd_sweep_at(m, its, lo, i);
        let prev = its[i - 1].saved_user_key@;
        assert(its[i].fwd_emittable(m, prev.push(0u8), (prev, 0u64, 0u8), its[i].saved_user_key@));
        crate::byteorder::lemma_lex_lt_push_zero(prev);
        crate::byteorder::lemma_lex_lt_le_trans(prev, prev.push(0u8), its[i].saved_user_key@);
        crate::byteorder::lemma_lex_le_lt_trans(lo, prev, its[i].saved_user_key@);
    }
}

/// A forward sweep emits strictly increasing keys.
proof fn lemma_fwd_sweep_mono(m: CfModel, its: Seq<RegionCacheIterator>, lo: Seq<u8>, i: int, j: int)
    requires
        wf_contents(m),
        fwd_sweep(m, its, lo),
        0 <= i < j < its.len() - 1,
    ensures
        lex_lt(its[i].saved_user_key@, its[j].saved_user_key@),
    decreases j - i,
{
    lemma_fwd_sweep_at(m, its, lo, j + 1);
    lemma_fwd_sweep_at(m, its, lo, j);
    let prev = its[j - 1].saved_user_key@;
    assert(its[j].fwd_emittable(m, prev.push(0u8), (prev, 0u64, 0u8), its[j].saved_user_key@));
    crate::byteorder::lemma_lex_lt_push_zero(prev);
    crate::byteorder::lemma_lex_lt_le_trans(prev, prev.push(0u8), its[j].saved_user_key@);
    if i < j - 1 {
        lemma_fwd_sweep_mono(m, its, lo, i, j - 1);
        crate::byteorder::lemma_lex_lt_transitive(
            its[i].saved_user_key@,
            prev,
            its[j].saved_user_key@,
        );
    }
}

/// A forward sweep misses nothing: any user key with a visible value,
/// at or after the step anchor and below the upper bound, is emitted
/// by that step or a later one.
proof fn lemma_fwd_sweep_covers(
    m: CfModel,
    its: Seq<RegionCacheIterator>,
    lo: Seq<u8>,
    uk: Seq<u8>,
    i: int,
    anchor: Seq<u8>,
)
    requires
        wf_contents(m),
        fwd_sweep(m, its, lo),
        0 <= i < its.len(),
        anchor == (if i == 0 {
            lo
        } else {
            its[i - 1].saved_user_key@.push(0u8)
        }),
        lex_le(anchor, uk),
        lex_lt(uk, its[0].upper_bound@),
        visible_has_value(m, its[0].sequence_number, uk),
    ensures
        exists|j: int| i <= j < its.len() - 1 && its[j].saved_user_key@ == uk,
    decreases its.len() - i,
{
    let it = its[i];
    let ghost t: IKeyModel = if i == 0 {
        its[0].seek_triple(lo)
    } else {
        (its[i - 1].saved_user_key@, 0u64, 0u8)
    };
    if i > 0 {
        lemma_fwd_sweep_at(m, its, lo, i);
    }
    if !it.valid {
        if i < its.len() - 1 {
            lemma_fwd_sweep_at(m, its, lo, i + 1);
        }
        assert(i == its.len() - 1);
        assert(it.fwd_emittable(m, anchor, t, uk));
        assert(false);
    } else {
        lemma_fwd_sweep_at(m, its, lo, its.len() - 1);
        assert(i < its.len() - 1);
        crate::byteorder::lemma_lex_lt_total(uk, it.saved_user_key@);
        if lex_lt(uk, it.saved_user_key@) {
            assert(!visible_has_value(m, it.sequence_number, uk));
            assert(false);
        }
        if uk == it.saved_user_key@ {
            assert(i <= i < its.len() - 1 && its[i].saved_user_key@ == uk);
        } else {
            assert(lex_lt(it.saved_user_key@, uk));
            crate::byteorder::lemma_lex_successor(it.saved_user_key@, uk);
            lemma_fwd_sweep_covers(m, its, lo, uk, i + 1, it.saved_user_key@.push(0u8));
            let j = choose|j: int|
                i + 1 <= j < its.len() - 1 && its[j].saved_user_key@ == uk;
            assert(i <= j < its.len() - 1 && its[j].saved_user_key@ == uk);
        }
    }
}

/// Every key a backward sweep emits sits below its starting point.
proof fn lemma_bwd_sweep_hi(m: CfModel, its: Seq<RegionCacheIterator>, top: Seq<u8>, i: int)
    requires
        wf_contents(m),
        bwd_sweep(m, its, top),
        0 <= i < its.len() - 1,
    ensures
        its[i].valid,
        lex_lt(its[i].saved_user_key@, top),
    decreases i,
{
    lemma_bwd_sweep_at(m, its, top, i + 1);
    if i == 0 {
        assert(its[0].bwd_emittable(m, top, its[0].saved_user_key@));
    } else {
        lemma_bwd_sweep_hi(m, its, top, i - 1);
        lemma_bwd_sweep_at(m, its, top, i);
        let prev = its[i - 1].saved_user_key@;
        assert(its[i].bwd_emittable(m, prev, its[i].saved_user_key@));
        crate::byteorder::lemma_lex_lt_transitive(its[i].saved_user_key@, prev, top);
    }
}

/// A backward sweep emits strictly decreasing keys.
proof fn lemma_bwd_sweep_mono(
    m: CfModel,
    its: Seq<RegionCacheIterator>,
    top: Seq<u8>,
    i: int,
    j: int,
)
    requires
        wf_contents(m),
        bwd_sweep(m, its, top),
        0 <= i < j < its.len() - 1,
    ensures
        lex_lt(its[j].saved_user_key@, its[i].saved_user_key@),
    decreases j - i,
{
    lemma_bwd_sweep_at(m, its, top, j + 1);
    lemma_bwd_sweep_at(m, its, top, j);
    let prev = its[j - 1].saved_user_key@;
    assert(its[j].bwd_emittable(m, prev, its[j].saved_user_key@));
    if i < j - 1 {
        lemma_bwd_sweep_mono(m, its, top, i, j - 1);
        crate::byteorder::lemma_lex_lt_transitive(
            its[j].saved_user_key@,
            prev,
            its[i].saved_user_key@,
        );
    }
}

/// A backward sweep misses nothing below the step anchor.
proof fn lemma_bwd_sweep_covers(
    m: CfModel,
    its: Seq<RegionCacheIterator>,
    top: Seq<u8>,
    uk: Seq<u8>,
    i: int,
    anchor: Seq<u8>,
)
    requires
        wf_contents(m),
        bwd_sweep(m, its, top),
        0 <= i < its.len(),
        anchor == (if i == 0 {
            top
        } else {
            its[i - 1].saved_user_key@
        }),
        lex_le(its[0].lower_bound@, uk),
        lex_lt(uk, anchor),
        visible_has_value(m, its[0].sequence_number, uk),
    ensures
        exists|j: int| i <= j < its.len() - 1 && its[j].saved_user_key@ == uk,
    decreases its.len() - i,
{
    let it = its[i];
    if i > 0 {
        lemma_bwd_sweep_at(m, its, top, i);
    }
    if !it.valid {
        if i < its.len() - 1 {
            lemma_bwd_sweep_at(m, its, top, i + 1);
        }
        assert(i == its.len() - 1);
        assert(it.bwd_emittable(m, anchor, uk));
        assert(false);
    } else {
        lemma_bwd_sweep_at(m, its, top, its.len() - 1);
        assert(i < its.len() - 1);
        crate::byteorder::lemma_lex_lt_total(uk, it.saved_user_key@);
        if lex_lt(it.saved_user_key@, uk) {
            assert(!visible_has_value(m, it.sequence_number, uk));
            assert(false);
        }
        if uk == it.saved_user_key@ {
            assert(i <= i < its.len() - 1 && its[i].saved_user_key@ == uk);
        } else {
            assert(lex_lt(uk, it.saved_user_key@));
            lemma_bwd_sweep_covers(m, its, top, uk, i + 1, it.saved_user_key@);
            let j = choose|j: int|
                i + 1 <= j < its.len() - 1 && its[j].saved_user_key@ == uk;
            assert(i <= j < its.len() - 1 && its[j].saved_user_key@ == uk);
        }
    }
}

/// Whole-scan equivalence: over one snapshot, window and store, a
/// completed forward sweep from the lower bound and a completed
/// backward sweep from the upper bound both emit exactly the user keys
/// of the window that hold a visible value — the forward one in
/// strictly increasing and the backward one in strictly decreasing
/// order, so each key appears exactly once on each side and the two
/// emitted multisets are mirror images of one another — and every
/// emitted value is the one a point read of its key returns.
#[verifier::rlimit(100)]
pub proof fn lemma_scan_multiset_equivalence(
    m: CfModel,
    fwd: Seq<RegionCacheIterator>,
    bwd: Seq<RegionCacheIterator>,
    uk: Seq<u8>,
)
    requires
        wf_contents(m),
        fwd.len() >= 1,
        bwd.len() >= 1,
        fwd_sweep(m, fwd, fwd[0].lower_bound@),
        bwd_sweep(m, bwd, bwd[0].upper_bound@),
        same_scan(fwd[0], bwd[0]),
    ensures
        forall|i: int|
            #![trigger fwd[i].saved_user_key]
            0 <= i < fwd.len() - 1 ==> fwd[i].valid && fwd[0].in_window(fwd[i].saved_user_key@)
                && visible_get(m, fwd[0].sequence_number, fwd[i].saved_user_key@) == Some(
                fwd[i].spec_value(),
            ),
        forall|i: int|
            #![trigger bwd[i].saved_user_key]
            0 <= i < bwd.len() - 1 ==> bwd[i].valid && bwd[0].in_window(bwd[i].saved_user_key@)
                && visible_get(m, bwd[0].sequence_number, bwd[i].saved_user_key@) == Some(
                bwd[i].spec_value(),
            ),
        forall|i: int, j: int|
            #![trigger fwd[i].saved_user_key, fwd[j].saved_user_key]
            0 <= i < j < fwd.len() - 1 ==> lex_lt(fwd[i].saved_user_key@, fwd[j].saved_user_key@),
        forall|i: int, j: int|
            #![trigger bwd[i].saved_user_key, bwd[j].saved_user_key]
            0 <= i < j < bwd.len() - 1 ==> lex_lt(bwd[j].saved_user_key@, bwd[i].saved_user_key@),
        fwd[0].in_window(uk) && visible_has_value(m, fwd[0].sequence_number, uk) ==> (exists|i: int|
            0 <= i < fwd.len() - 1 && fwd[i].saved_user_key@ == uk) && (exists|i: int|
            0 <= i < bwd.len() - 1 && bwd[i].saved_user_key@ == uk),
        forall|i: int|
            #![trigger fwd[i].saved_user_key]
            0 <= i < fwd.len() - 1 ==> exists|j: int|
                0 <= j < bwd.len() - 1 && bwd[j].saved_user_key@ == fwd[i].saved_user_key@
                    && bwd[j].spec_value() == fwd[i].spec_value(),
        forall|i: int|
            #![trigger bwd[i].saved_user_key]
            0 <= i < bwd.len() - 1 ==> exists|j: int|
                0 <= j < fwd.len() - 1 && fwd[j].saved_user_key@ == bwd[i].saved_user_key@
                    && fwd[j].spec_value() == bwd[i].spec_value(),
{
    let lo = fwd[0].lower_bound@;
    let top = bwd[0].upper_bound@;
    let snap = fwd[0].sequence_number;
    assert forall|i: int|
        #![trigger fwd[i].saved_user_key]
        0 <= i < fwd.len() - 1 implies fwd[i].valid && fwd[0].in_window(fwd[i].saved_user_key@)
        && visible_get(m, snap, fwd[i].saved_user_key@) == Some(fwd[i].spec_value()) by {
        lemma_fwd_sweep_lo(m, fwd, lo, i);
        if i == 0 {
            assert(fwd[0].fwd_emittable(m, lo, fwd[0].seek_triple(lo), fwd[0].saved_user_key@));
        } else {
            lemma_fwd_sweep_at(m, fwd, lo, i);
            let prev = fwd[i - 1].saved_user_key@;
            assert(fwd[i].fwd_emittable(
                m,
                prev.push(0u8),
                (prev, 0u64, 0u8),
                fwd[i].saved_user_key@,
            ));
        }
    }
    assert forall|i: int|
        #![trigger bwd[i].saved_user_key]
        0 <= i < bwd.len() - 1 implies bwd[i].valid && bwd[0].in_window(bwd[i].saved_user_key@)
        && visible_get(m, snap, bwd[i].saved_user_key@) == Some(bwd[i].spec_value()) by {
        lemma_bwd_sweep_hi(m, bwd, top, i);
        if i == 0 {
            assert(bwd[0].bwd_emittable(m, top, bwd[0].saved_user_key@));
        } else {
            lemma_bwd_sweep_at(m, bwd, top, i);
            let prev = bwd[i - 1].saved_user_key@;
            assert(bwd[i].bwd_emittable(m, prev, bwd[i].saved_user_key@));
        }
    }
    assert forall|i: int, j: int|
        #![trigger fwd[i].saved_user_key, fwd[j].saved_user_key]
        0 <= i < j < fwd.len() - 1 implies lex_lt(
        fwd[i].saved_user_key@,
        fwd[j].saved_user_key@,
    ) by {
        lemma_fwd_sweep_mono(m, fwd, lo, i, j);
    }
    assert forall|i: int, j: int|
        #![trigger bwd[i].saved_user_key, bwd[j].saved_user_key]
        0 <= i < j < bwd.len() - 1 implies lex_lt(
        bwd[j].saved_user_key@,
        bwd[i].saved_user_key@,
    ) by {
        lemma_bwd_sweep_mono(m, bwd, top, i, j);
    }
    if fwd[0].in_window(uk) && visible_has_value(m, snap, uk) {
        lemma_fwd_sweep_covers(m, fwd, lo, uk, 0, lo);
        lemma_bwd_sweep_covers(m, bwd, top, uk, 0, top);
    }
    assert forall|i: int|
        #![trigger fwd[i].saved_user_key]
        0 <= i < fwd.len() - 1 implies exists|j: int|
        0 <= j < bwd.len() - 1 && bwd[j].saved_user_key@ == fwd[i].saved_user_key@
            && bwd[j].spec_value() == fwd[i].spec_value() by {
        let k = fwd[i].saved_user_key@;
        lemma_bwd_sweep_covers(m, bwd, top, k, 0, top);
        let j = choose|j: int| 0 <= j < bwd.len() - 1 && bwd[j].saved_user_key@ == k;
        assert(visible_get(m, snap, k) == Some(bwd[j].spec_value()));
        assert(0 <= j < bwd.len() - 1 && bwd[j].saved_user_key@ == fwd[i].saved_user_key@
            && bwd[j].spec_value() == fwd[i].spec_value());
    }
    assert forall|i: int|
        #![trigger bwd[i].saved_user_key]
        0 <= i < bwd.len() - 1 implies exists|j: int|
        0 <= j < fwd.len() - 1 && fwd[j].saved_user_key@ == bwd[i].saved_user_key@
            && fwd[j].spec_value() == bwd[i].spec_value() by {
        let k = bwd[i].saved_user_key@;
        lemma_fwd_sweep_covers(m, fwd, lo, k, 0, lo);
        let j = choose|j: int| 0 <= j < fwd.len() - 1 && fwd[j].saved_user_key@ == k;
        assert(visible_get(m, snap, k) == Some(fwd[j].spec_value()));
        assert(0 <= j < fwd.len() - 1 && fwd[j].saved_user_key@ == bwd[i].saved_user_key@
            && fwd[j].spec_value() == bwd[i].spec_value());
    }
}

} // verus!
