//! Region lifecycle and snapshot accounting.
//!
//! Regions partition the user keyspace into half-open ranges. Each cached
//! region tracks a monotone safe-point and the read timestamps of its
//! live snapshots; a region that has been evicted stays in `PendingEvict`
//! until no live snapshot overlaps its range, and only then becomes
//! physically deletable. A split retires the parent region; if the parent
//! still holds snapshots its accounting lives on in a historical record
//! until the last of them is released.

use vstd::prelude::*;

use crate::byteorder::{bytes_le, bytes_lt, lex_le, lex_lt};

verus! {

/// A cached key range: `start <= k < end` is containment.
#[derive(Clone, Debug)]
pub struct CacheRegion {
    pub id: u64,
    pub epoch_version: u64,
    pub start: Vec<u8>,
    pub end: Vec<u8>,
}

impl View for CacheRegion {
    type V = (u64, u64, Seq<u8>, Seq<u8>);

    open spec fn view(&self) -> (u64, u64, Seq<u8>, Seq<u8>) {
        (self.id, self.epoch_version, self.start@, self.end@)
    }
}

impl CacheRegion {
    pub fn new(id: u64, epoch_version: u64, start: Vec<u8>, end: Vec<u8>) -> (r: CacheRegion)
        ensures
            r.id == id,
            r.epoch_version == epoch_version,
            r.start@ == start@,
            r.end@ == end@,
    {
        CacheRegion { id, epoch_version, start, end }
    }

    pub open spec fn spec_contains_key(self, key: Seq<u8>) -> bool {
        lex_le(self.start@, key) && lex_lt(key, self.end@)
    }

    pub fn contains_key(&self, key: &[u8]) -> (r: bool)
        ensures
            r == self.spec_contains_key(key@),
    {
        bytes_le(self.start.as_slice(), key) && bytes_lt(key, self.end.as_slice())
    }
}

/// Two half-open ranges share at least one key.
pub open spec fn ranges_overlap(s1: Seq<u8>, e1: Seq<u8>, s2: Seq<u8>, e2: Seq<u8>) -> bool {
    lex_lt(s1, e2) && lex_lt(s2, e1)
}

/// The lifecycle of a cached region.
#[derive(Clone, Copy, PartialEq, Eq, Structural, Debug)]
pub enum RegionState {
    Pending,
    Loading,
    Cached,
    ToBeSplit,
    PendingEvict,
    Evicting,
}

/// Why taking a snapshot failed.
#[derive(Clone, Copy, PartialEq, Eq, Structural, Debug)]
pub enum FailedReason {
    TooOldRead,
    EpochNotMatch,
    NotCached,
}

/// Per-region bookkeeping: the range, its state, the safe-point, and one
/// entry per live snapshot holding that snapshot's read timestamp.
pub struct RegionMeta {
    pub region: CacheRegion,
    pub state: RegionState,
    pub safe_point: u64,
    pub snapshots: Vec<u64>,
}

/// How many live snapshots of this list were taken at `ts`.
pub open spec fn snap_count(s: Seq<u64>, ts: u64) -> int
    decreases s.len(),
{
    if s.len() == 0 {
        0int
    } else {
        (if s[0] == ts {
            1int
        } else {
            0int
        }) + snap_count(s.skip(1), ts)
    }
}

/// Tracks every region the cache knows of. `regions` holds the current
/// regions, at most one per id; `historical` holds retired parents of
/// splits whose snapshots are still live.
pub struct RegionManager {
    pub regions: Vec<RegionMeta>,
    pub historical: Vec<RegionMeta>,
}

impl RegionManager {
    pub open spec fn wf(self) -> bool {
        &&& forall|i: int, j: int|
            #![trigger self.regions@[i], self.regions@[j]]
            0 <= i < j < self.regions@.len() ==> self.regions@[i].region.id
                != self.regions@[j].region.id
        &&& forall|i: int| 0 <= i < self.historical@.len() ==> self.historical@[i].snapshots@.len() > 0
        &&& forall|i: int, j: int|
            #![trigger self.historical@[i], self.historical@[j]]
            0 <= i < j < self.historical@.len() ==> self.hist_pair_at(i) != self.hist_pair_at(j)
    }

    /// Some live snapshot, current or historical, overlaps `[start, end)`:
    /// the range may still be read and must not be physically deleted.
    pub open spec fn range_blocked(self, start: Seq<u8>, end: Seq<u8>) -> bool {
        (exists|i: int|
            0 <= i < self.regions@.len() && self.regions@[i].snapshots@.len() > 0 && ranges_overlap(
                self.regions@[i].region.start@,
                self.regions@[i].region.end@,
                start,
                end,
            )) || (exists|i: int|
            0 <= i < self.historical@.len() && self.historical@[i].snapshots@.len() > 0
                && ranges_overlap(
                self.historical@[i].region.start@,
                self.historical@[i].region.end@,
                start,
                end,
            ))
    }

    pub open spec fn has_region(self, id: u64) -> bool {
        exists|i: int| 0 <= i < self.regions@.len() && self.regions@[i].region.id == id
    }

    pub open spec fn region_idx(self, id: u64) -> int {
        choose|i: int| 0 <= i < self.regions@.len() && self.regions@[i].region.id == id
    }

    pub open spec fn meta_of(self, id: u64) -> RegionMeta {
        self.regions@[self.region_idx(id)]
    }

    pub fn new() -> (r: RegionManager)
        ensures
            r.wf(),
            r.regions@.len() == 0,
            r.historical@.len() == 0,
    {
        RegionManager { regions: Vec::new(), historical: Vec::new() }
    }

    /// Finds the current region with this id.
    fn find_region(&self, id: u64) -> (r: Option<usize>)
        requires
            self.wf(),
        ensures
            match r {
                Some(i) => i < self.regions@.len() && self.regions@[i as int].region.id == id
                    && self.has_region(id) && self.region_idx(id) == i,
                None => !self.has_region(id),
            },
    {
        let mut i: usize = 0;
        while i < self.regions.len()
            invariant
                self.wf(),
                i <= self.regions@.len(),
                forall|j: int| 0 <= j < i ==> self.regions@[j].region.id != id,
            decreases self.regions@.len() - i,
        {
            if self.regions[i].region.id == id {
                proof {
                    assert(self.regions@[i as int].region.id == id);
                    let i2 = self.region_idx(id);
                    assert(0 <= i2 < self.regions@.len() && self.regions@[i2].region.id == id);
                    if i2 < i as int {
                        assert(self.regions@[i2].region.id != self.regions@[i as int].region.id);
                    } else if i2 > i as int {
                        assert(self.regions@[i as int].region.id != self.regions@[i2].region.id);
                    }
                }
                return Some(i);
            }
            i += 1;
        }
        None
    }

    /// Admits a new region to the cache in `Cached` state with no
    /// snapshots and safe-point zero.
    pub fn new_region(&mut self, region: CacheRegion)
        requires
            old(self).wf(),
            !old(self).has_region(region.id),
        ensures
            final(self).wf(),
            final(self).regions@.len() == old(self).regions@.len() + 1,
            final(self).regions@.subrange(0, old(self).regions@.len() as int) == old(self).regions@,
            final(self).regions@.last().region == region,
            final(self).regions@.last().state == RegionState::Cached,
            final(self).regions@.last().safe_point == 0u64,
            final(self).regions@.last().snapshots@.len() == 0,
            final(self).historical@ == old(self).historical@,
    {
        let meta = RegionMeta {
            region,
            state: RegionState::Cached,
            safe_point: 0u64,
            snapshots: Vec::new(),
        };
        self.regions.push(meta);
        proof {
            assert(self.regions@.subrange(0, old(self).regions@.len() as int) =~= old(self).regions@);
            assert forall|i: int, j: int|
                0 <= i < j < self.regions@.len() implies self.regions@[i].region.id
                != self.regions@[j].region.id by {
                if j == self.regions@.len() - 1 {
                    assert(self.regions@[i] == old(self).regions@[i]);
                }
            }
        }
    }

    /// Raises the region's safe-point to `ts` and reports success; a `ts`
    /// below the current safe-point, or an unknown region, changes
    /// nothing. The safe-point never decreases.
    pub fn set_safe_point(&mut self, id: u64, ts: u64) -> (r: bool)
        requires
            old(self).wf(),
        ensures
            final(self).wf(),
            r == (old(self).has_region(id) && ts >= old(self).meta_of(id).safe_point),
            final(self).historical@ == old(self).historical@,
            !old(self).has_region(id) ==> final(self).regions@ == old(self).regions@,
            old(self).has_region(id) ==> {
                let i = old(self).region_idx(id);
                let m = old(self).regions@[i];
                final(self).regions@ == old(self).regions@.update(
                    i,
                    RegionMeta {
                        safe_point: if ts >= m.safe_point {
                            ts
                        } else {
                            m.safe_point
                        },
                        ..m
                    },
                )
            },
    {
        let idx = self.find_region(id);
        match idx {
            None => false,
            Some(i) => {
                let ghost before = self.regions@;
                if ts >= self.regions[i].safe_point {
                    set_meta_safe_point(&mut self.regions, i, ts);
                    proof {
                        assert(forall|j: int|
                            0 <= j < self.regions@.len() ==> self.regions@[j].region.id
                                == before[j].region.id);
                    }
                    true
                } else {
                    proof {
                        assert(before[i as int] == RegionMeta {
                            safe_point: before[i as int].safe_point,
                            ..before[i as int]
                        });
                        assert(before.update(i as int, before[i as int]) =~= before);
                    }
                    false
                }
            },
        }
    }
}

/// Replaces one meta's safe-point.
fn set_meta_safe_point(regions: &mut Vec<RegionMeta>, i: usize, ts: u64)
    requires
        i < old(regions)@.len(),
    ensures
        final(regions)@ == old(regions)@.update(
            i as int,
            RegionMeta { safe_point: ts, ..old(regions)@[i as int] },
        ),
{
    let m = &mut regions[i];
    m.safe_point = ts;
    proof {
        assert(regions@ =~= old(regions)@.update(
            i as int,
            RegionMeta { safe_point: ts, ..old(regions)@[i as int] },
        ));
    }
}

impl RegionManager {
    /// A current region's pair of id and epoch.
    pub open spec fn pair_at(self, i: int) -> (u64, u64) {
        (self.regions@[i].region.id, self.regions@[i].region.epoch_version)
    }

    pub open spec fn hist_pair_at(self, i: int) -> (u64, u64) {
        (self.historical@[i].region.id, self.historical@[i].region.epoch_version)
    }

    pub open spec fn pair_in_regions(self, id: u64, epoch: u64) -> bool {
        exists|i: int| 0 <= i < self.regions@.len() && self.pair_at(i) == (id, epoch)
    }

    pub open spec fn regions_pair_idx(self, id: u64, epoch: u64) -> int {
        choose|i: int| 0 <= i < self.regions@.len() && self.pair_at(i) == (id, epoch)
    }

    pub open spec fn pair_in_historical(self, id: u64, epoch: u64) -> bool {
        exists|i: int| 0 <= i < self.historical@.len() && self.hist_pair_at(i) == (id, epoch)
    }

    pub open spec fn hist_pair_idx(self, id: u64, epoch: u64) -> int {
        choose|i: int| 0 <= i < self.historical@.len() && self.hist_pair_at(i) == (id, epoch)
    }

    /// Takes a snapshot of region `id` at `read_ts`: succeeds, recording
    /// the timestamp, exactly when the region is known under a matching
    /// epoch, is `Cached`, and `read_ts` is not below the safe-point.
    pub fn region_snapshot(&mut self, id: u64, epoch: u64, read_ts: u64) -> (r: Result<
        (),
        FailedReason,
    >)
        requires
            old(self).wf(),
        ensures
            final(self).wf(),
            final(self).historical@ == old(self).historical@,
            r is Err ==> final(self).regions@ == old(self).regions@,
            match r {
                Ok(_) => old(self).has_region(id) && old(self).meta_of(id).region.epoch_version
                    == epoch && old(self).meta_of(id).state == RegionState::Cached && read_ts
                    >= old(self).meta_of(id).safe_point,
                Err(e) => match e {
                    FailedReason::NotCached => !old(self).has_region(id) || (old(self).meta_of(id).region.epoch_version == epoch && old(self).meta_of(id).state
                        != RegionState::Cached),
                    FailedReason::EpochNotMatch => old(self).has_region(id) && old(self).meta_of(id).region.epoch_version != epoch,
                    FailedReason::TooOldRead => old(self).has_region(id) && old(self).meta_of(id).region.epoch_version == epoch && old(self).meta_of(id).state
                        == RegionState::Cached && read_ts < old(self).meta_of(id).safe_point,
                },
            },
            r is Ok ==> {
                let i = old(self).region_idx(id);
                let m = old(self).regions@[i];
                final(self).regions@.len() == old(self).regions@.len() && final(self).regions@[i]
                    == (RegionMeta { snapshots: final(self).regions@[i].snapshots, ..m }) && final(self).regions@[i].snapshots@ == m.snapshots@.push(read_ts) && forall|j: int|
                    0 <= j < old(self).regions@.len() && j != i ==> final(self).regions@[j] == old(self).regions@[j]
            },
    {
        let idx = self.find_region(id);
        match idx {
            None => Err(FailedReason::NotCached),
            Some(i) => {
                if self.regions[i].region.epoch_version != epoch {
                    Err(FailedReason::EpochNotMatch)
                } else if !matches!(self.regions[i].state, RegionState::Cached) {
                    Err(FailedReason::NotCached)
                } else if read_ts < self.regions[i].safe_point {
                    Err(FailedReason::TooOldRead)
                } else {
                    let ghost before = self.regions@;
                    push_meta_snapshot(&mut self.regions, i, read_ts);
                    proof {
                        assert(forall|j: int|
                            0 <= j < self.regions@.len() ==> self.regions@[j].region.id
                                == before[j].region.id);
                    }
                    Ok(())
                }
            },
        }
    }

    /// Releases one snapshot taken at `ts` on the region that was
    /// `(id, epoch)` when the snapshot was created. The record may live
    /// on the current region of that id or, after a split, on a
    /// historical parent; a historical record whose last snapshot is
    /// released disappears.
    pub fn release_snapshot(&mut self, id: u64, epoch: u64, ts: u64)
        requires
            old(self).wf(),
            old(self).pair_in_regions(id, epoch) ==> {
                let i = old(self).regions_pair_idx(id, epoch);
                snap_count(old(self).regions@[i].snapshots@, ts) > 0
            },
            !old(self).pair_in_regions(id, epoch) ==> old(self).pair_in_historical(id, epoch) && {
                let i = old(self).hist_pair_idx(id, epoch);
                snap_count(old(self).historical@[i].snapshots@, ts) > 0
            },
        ensures
            final(self).wf(),
            old(self).pair_in_regions(id, epoch) ==> {
                let i = old(self).regions_pair_idx(id, epoch);
                let m = old(self).regions@[i];
                final(self).historical@ == old(self).historical@
                    && final(self).regions@.len() == old(self).regions@.len()
                    && (forall|j: int|
                        0 <= j < old(self).regions@.len() && j != i ==> final(self).regions@[j]
                        == old(self).regions@[j])
                    && final(self).regions@[i] == (RegionMeta {
                        snapshots: final(self).regions@[i].snapshots,
                        ..m
                    })
                    && final(self).regions@[i].snapshots@.len() == m.snapshots@.len() - 1
                    && snap_count(final(self).regions@[i].snapshots@, ts)
                        == snap_count(m.snapshots@, ts) - 1
                    && (forall|t: u64|
                        t != ts ==> snap_count(final(self).regions@[i].snapshots@, t)
                        == snap_count(m.snapshots@, t))
            },
            release_post(*old(self), *final(self), id, epoch, ts),
            !old(self).pair_in_regions(id, epoch) ==> {
                let i = old(self).hist_pair_idx(id, epoch);
                let m = old(self).historical@[i];
                final(self).regions@ == old(self).regions@
                    && (m.snapshots@.len() == 1 ==> final(self).historical@
                        == old(self).historical@.remove(i))
                    && (m.snapshots@.len() > 1 ==> final(self).historical@.len()
                        == old(self).historical@.len()
                    && (forall|j: int|
                        0 <= j < old(self).historical@.len() && j != i
                        ==> final(self).historical@[j] == old(self).historical@[j])
                    && final(self).historical@[i] == (RegionMeta {
                        snapshots: final(self).historical@[i].snapshots,
                        ..m
                    })
                    && final(self).historical@[i].snapshots@.len() == m.snapshots@.len() - 1
                    && snap_count(final(self).historical@[i].snapshots@, ts)
                        == snap_count(m.snapshots@, ts) - 1
                    && (forall|t: u64|
                        t != ts ==> snap_count(final(self).historical@[i].snapshots@, t)
                        == snap_count(m.snapshots@, t)))
            },
    {
        let idx = find_pair(&self.regions, id, epoch);
        match idx {
            Some(i) => {
                proof {
                    assert(self.pair_at(i as int) == (id, epoch));
                    let i2 = self.regions_pair_idx(id, epoch);
                    assert(0 <= i2 < self.regions@.len() && self.pair_at(i2) == (id, epoch));
                    if i2 != i as int {
                        assert(self.regions@[i2].region.id == self.regions@[i as int].region.id);
                    }
                }
                let ghost before = self.regions@;
                remove_meta_snapshot_once(&mut self.regions, i, ts);
                proof {
                    assert(forall|j: int|
                        0 <= j < self.regions@.len() ==> self.regions@[j].region.id
                            == before[j].region.id);
                }
            },
            None => {
                let h = match find_pair(&self.historical, id, epoch) {
                    Some(h) => h,
                    None => {
                        proof {
                            assert(false);
                        }
                        0
                    },
                };
                proof {
                    assert(self.hist_pair_at(h as int) == (id, epoch));
                    let i2 = self.hist_pair_idx(id, epoch);
                    assert(0 <= i2 < self.historical@.len() && self.hist_pair_at(i2) == (
                        id,
                        epoch,
                    ));
                    if i2 != h as int {
                        lemma_hist_pair_unique(*self, i2, h as int);
                    }
                }
                let ghost hbefore = self.historical@;
                if self.historical[h].snapshots.len() == 1 {
                    self.historical.remove(h);
                    proof {
                        assert(self.historical@ =~= hbefore.remove(h as int));
                        assert forall|a: int, b: int|
                            0 <= a < b < self.historical@.len() implies self.hist_pair_at(a)
                            != self.hist_pair_at(b) by {
                            let a0: int = if a < h as int {
                                a
                            } else {
                                a + 1
                            };
                            let b0: int = if b < h as int {
                                b
                            } else {
                                b + 1
                            };
                            assert(self.historical@[a] == hbefore[a0]);
                            assert(self.historical@[b] == hbefore[b0]);
                        }
                        assert forall|a: int| 0 <= a < self.historical@.len() implies self.historical@[a].snapshots@.len() > 0 by {
                            let a0: int = if a < h as int {
                                a
                            } else {
                                a + 1
                            };
                            assert(self.historical@[a] == hbefore[a0]);
                        }
                    }
                } else {
                    remove_meta_snapshot_once(&mut self.historical, h, ts);
                    proof {
                        assert(forall|j: int|
                            0 <= j < self.historical@.len() ==> self.historical@[j].region.id
                                == hbefore[j].region.id && self.historical@[j].region.epoch_version
                                == hbefore[j].region.epoch_version);
                        assert(forall|j: int|
                            0 <= j < self.historical@.len() ==> self.historical@[j].snapshots@.len()
                                > 0);
                    }
                }
            },
        }
    }
}

/// Finds the record whose region carried this id and epoch.
fn find_pair(metas: &Vec<RegionMeta>, id: u64, epoch: u64) -> (r: Option<usize>)
    ensures
        match r {
            Some(i) => i < metas@.len() && metas@[i as int].region.id == id && metas@[
                i as int
            ].region.epoch_version == epoch,
            None => forall|j: int|
                0 <= j < metas@.len() ==> !(metas@[j].region.id == id
                    && metas@[j].region.epoch_version == epoch),
        },
{
    let mut i: usize = 0;
    while i < metas.len()
        invariant
            i <= metas@.len(),
            forall|j: int|
                0 <= j < i ==> !(metas@[j].region.id == id && metas@[j].region.epoch_version
                    == epoch),
        decreases metas@.len() - i,
    {
        if metas[i].region.id == id && metas[i].region.epoch_version == epoch {
            return Some(i);
        }
        i += 1;
    }
    None
}

/// Records one more snapshot timestamp on a meta.
fn push_meta_snapshot(regions: &mut Vec<RegionMeta>, i: usize, ts: u64)
    requires
        i < old(regions)@.len(),
    ensures
        final(regions)@.len() == old(regions)@.len(),
        final(regions)@[i as int] == (RegionMeta {
            snapshots: final(regions)@[i as int].snapshots,
            ..old(regions)@[i as int]
        }),
        final(regions)@[i as int].snapshots@ == old(regions)@[i as int].snapshots@.push(ts),
        forall|j: int|
            0 <= j < old(regions)@.len() && j != i ==> final(regions)@[j] == old(regions)@[j],
{
    let m = &mut regions[i];
    m.snapshots.push(ts);
}

/// Removes one occurrence of `ts` from a meta's snapshot list.
fn remove_meta_snapshot_once(regions: &mut Vec<RegionMeta>, i: usize, ts: u64)
    requires
        i < old(regions)@.len(),
        snap_count(old(regions)@[i as int].snapshots@, ts) > 0,
    ensures
        final(regions)@.len() == old(regions)@.len(),
        final(regions)@[i as int] == (RegionMeta {
            snapshots: final(regions)@[i as int].snapshots,
            ..old(regions)@[i as int]
        }),
        final(regions)@[i as int].snapshots@.len() == old(regions)@[i as int].snapshots@.len() - 1,
        snap_count(final(regions)@[i as int].snapshots@, ts) == snap_count(
            old(regions)@[i as int].snapshots@,
            ts,
        ) - 1,
        forall|t: u64|
            t != ts ==> snap_count(final(regions)@[i as int].snapshots@, t) == snap_count(
                old(regions)@[i as int].snapshots@,
                t,
            ),
        forall|j: int|
            0 <= j < old(regions)@.len() && j != i ==> final(regions)@[j] == old(regions)@[j],
{
    let ghost r0 = regions@;
    let ghost s0 = regions@[i as int].snapshots@;
    let n = regions[i].snapshots.len();
    let mut j: usize = 0;
    while j < n && regions[i].snapshots[j] != ts
        invariant
            i < regions@.len(),
            regions@ == r0,
            s0 == regions@[i as int].snapshots@,
            n == s0.len(),
            j <= n,
            forall|k: int| 0 <= k < j ==> s0[k] != ts,
        decreases n - j,
    {
        j += 1;
    }
    proof {
        if j == n {
            lemma_snap_count_zero(s0, ts);
        }
        assert(j < n);
        assert(s0[j as int] == ts);
    }
    let ghost jj = j as int;
    regions[i].snapshots.remove(j);
    proof {
        assert(regions@[i as int].snapshots@ == s0.remove(jj));
        assert(regions@ =~= r0.update(
            i as int,
            RegionMeta { snapshots: regions@[i as int].snapshots, ..r0[i as int] },
        ));
        lemma_snap_count_remove(s0, jj, ts);
        assert forall|t: u64| t != ts implies snap_count(regions@[i as int].snapshots@, t)
            == snap_count(s0, t) by {
            lemma_snap_count_remove(s0, jj, t);
        }
    }
}

/// Counting after removing one element.
proof fn lemma_snap_count_remove(s: Seq<u64>, j: int, t: u64)
    requires
        0 <= j < s.len(),
    ensures
        snap_count(s.remove(j), t) == snap_count(s, t) - (if s[j] == t {
            1int
        } else {
            0int
        }),
    decreases s.len(),
{
    if j == 0 {
        assert(s.remove(0) =~= s.skip(1));
    } else {
        assert(s.remove(j).len() == s.len() - 1);
        assert(s.remove(j)[0] == s[0]);
        lemma_snap_count_remove(s.skip(1), j - 1, t);
        assert(s.remove(j).skip(1) =~= s.skip(1).remove(j - 1));
    }
}

/// A list with no occurrence of `t` counts zero of it.
proof fn lemma_snap_count_zero(s: Seq<u64>, t: u64)
    requires
        forall|k: int| 0 <= k < s.len() ==> s[k] != t,
    ensures
        snap_count(s, t) == 0,
    decreases s.len(),
{
    if s.len() > 0 {
        lemma_snap_count_zero(s.skip(1), t);
    }
}

/// Distinct historical records carry distinct id and epoch pairs.
proof fn lemma_hist_pair_unique(m: RegionManager, i: int, j: int)
    requires
        m.wf(),
        0 <= i < m.historical@.len(),
        0 <= j < m.historical@.len(),
        i != j,
    ensures
        m.hist_pair_at(i) != m.hist_pair_at(j),
{
    if i < j {
        assert(m.hist_pair_at(i) != m.hist_pair_at(j));
    } else {
        assert(m.hist_pair_at(j) != m.hist_pair_at(i));
    }
}

impl RegionManager {
    /// A current region may be physically deleted: it is pending evict
    /// and no live snapshot overlaps its range.
    pub open spec fn deletable(self, i: int) -> bool {
        self.regions@[i].state == RegionState::PendingEvict && !self.range_blocked(
            self.regions@[i].region.start@,
            self.regions@[i].region.end@,
        )
    }

    /// Whether some live snapshot overlaps `[start, end)`.
    pub fn is_range_blocked(&self, start: &[u8], end: &[u8]) -> (r: bool)
        ensures
            r == self.range_blocked(start@, end@),
    {
        let mut i: usize = 0;
        while i < self.regions.len()
            invariant
                i <= self.regions@.len(),
                forall|j: int|
                    0 <= j < i ==> !(self.regions@[j].snapshots@.len() > 0 && ranges_overlap(
                        self.regions@[j].region.start@,
                        self.regions@[j].region.end@,
                        start@,
                        end@,
                    )),
            decreases self.regions@.len() - i,
        {
            if self.regions[i].snapshots.len() > 0 && bytes_lt(
                self.regions[i].region.start.as_slice(),
                end,
            ) && bytes_lt(start, self.regions[i].region.end.as_slice()) {
                return true;
            }
            i += 1;
        }
        let mut h: usize = 0;
        while h < self.historical.len()
            invariant
                h <= self.historical@.len(),
                forall|j: int|
                    0 <= j < self.regions@.len() ==> !(self.regions@[j].snapshots@.len() > 0
                        && ranges_overlap(
                        self.regions@[j].region.start@,
                        self.regions@[j].region.end@,
                        start@,
                        end@,
                    )),
                forall|j: int|
                    0 <= j < h ==> !(self.historical@[j].snapshots@.len() > 0 && ranges_overlap(
                        self.historical@[j].region.start@,
                        self.historical@[j].region.end@,
                        start@,
                        end@,
                    )),
            decreases self.historical@.len() - h,
        {
            if self.historical[h].snapshots.len() > 0 && bytes_lt(
                self.historical[h].region.start.as_slice(),
                end,
            ) && bytes_lt(start, self.historical[h].region.end.as_slice()) {
                return true;
            }
            h += 1;
        }
        false
    }

    /// The views of the regions that `take_deletable_regions` hands out,
    /// in region order: every pending-evict region whose range no live
    /// snapshot overlaps.
    pub open spec fn deletable_views_upto(self, n: int) -> Seq<(u64, u64, Seq<u8>, Seq<u8>)>
        decreases n,
    {
        if n <= 0 {
            Seq::empty()
        } else if self.deletable(n - 1) {
            self.deletable_views_upto(n - 1).push(self.regions@[n - 1].region@)
        } else {
            self.deletable_views_upto(n - 1)
        }
    }

    pub open spec fn deletable_views(self) -> Seq<(u64, u64, Seq<u8>, Seq<u8>)> {
        self.deletable_views_upto(self.regions@.len() as int)
    }

    /// Marks every deletable pending-evict region `Evicting` and returns
    /// their descriptors, to be handed to the range worker for physical
    /// deletion. A pending-evict region with any overlapping live
    /// snapshot stays as it is.
    #[verifier::rlimit(60)]
    pub fn take_deletable_regions(&mut self) -> (r: Vec<CacheRegion>)
        requires
            old(self).wf(),
        ensures
            final(self).wf(),
            final(self).historical@ == old(self).historical@,
            final(self).regions@.len() == old(self).regions@.len(),
            forall|i: int|
                0 <= i < old(self).regions@.len() ==> #[trigger] final(self).regions@[i] == (if old(self).deletable(i) {
                    RegionMeta { state: RegionState::Evicting, ..old(self).regions@[i] }
                } else {
                    old(self).regions@[i]
                }),
            r@.map_values(|c: CacheRegion| c@) == old(self).deletable_views(),
            take_post(*old(self), *final(self), r@.map_values(|c: CacheRegion| c@)),
    {
        let mut r: Vec<CacheRegion> = Vec::new();
        let n = self.regions.len();
        let mut i: usize = 0;
        while i < n
            invariant
                old(self).wf(),
                n == old(self).regions@.len(),
                i <= n,
                self.historical@ == old(self).historical@,
                self.regions@.len() == old(self).regions@.len(),
                forall|k: int|
                    0 <= k < i ==> #[trigger] self.regions@[k] == (if old(self).deletable(k) {
                        RegionMeta { state: RegionState::Evicting, ..old(self).regions@[k] }
                    } else {
                        old(self).regions@[k]
                    }),
                forall|k: int| i <= k < n ==> #[trigger] self.regions@[k] == old(self).regions@[k],
                r@.map_values(|c: CacheRegion| c@) == old(self).deletable_views_upto(i as int),
            decreases n - i,
        {
            let pending = matches!(self.regions[i].state, RegionState::PendingEvict);
            let ghost rsnap = r@;
            if pending {
                let blocked = is_range_blocked_of(self, i);
                proof {
                    lemma_range_blocked_same(
                        *self,
                        *old(self),
                        old(self).regions@[i as int].region.start@,
                        old(self).regions@[i as int].region.end@,
                    );
                }
                if !blocked {
                    let region = copy_region(&self.regions[i].region);
                    r.push(region);
                    set_meta_state(&mut self.regions, i, RegionState::Evicting);
                    proof {
                        assert(old(self).deletable(i as int));
                        assert(r@.map_values(|c: CacheRegion| c@) =~= rsnap.map_values(
                            |c: CacheRegion| c@,
                        ).push(old(self).regions@[i as int].region@));
                    }
                } else {
                    proof {
                        assert(!old(self).deletable(i as int));
                    }
                }
            } else {
                proof {
                    assert(!old(self).deletable(i as int));
                }
            }
            i += 1;
        }
        r
    }

    /// Moves a cached region to `PendingEvict`; returns every region
    /// that thereby became physically deletable (the evicted one included
    /// when nothing blocks it).
    #[verifier::rlimit(60)]
    pub fn evict_region(&mut self, id: u64) -> (r: Vec<CacheRegion>)
        requires
            old(self).wf(),
            old(self).has_region(id),
            old(self).meta_of(id).state == RegionState::Cached,
        ensures
            final(self).wf(),
            final(self).historical@ == old(self).historical@,
            final(self).regions@.len() == old(self).regions@.len(),
            forall|i: int|
                0 <= i < old(self).regions@.len() ==> #[trigger] final(self).regions@[i] == (if old(self).evict_deletable(id, i) {
                    RegionMeta { state: RegionState::Evicting, ..old(self).regions@[i] }
                } else if i == old(self).region_idx(id) {
                    RegionMeta { state: RegionState::PendingEvict, ..old(self).regions@[i] }
                } else {
                    old(self).regions@[i]
                }),
            r@.map_values(|c: CacheRegion| c@) == old(self).evict_deletable_views(id),
    {
        let i = match self.find_region(id) {
            Some(i) => i,
            None => {
                proof {
                    assert(false);
                }
                0
            },
        };
        let ghost before = *self;
        set_meta_state(&mut self.regions, i, RegionState::PendingEvict);
        proof {
            assert(forall|j: int|
                0 <= j < self.regions@.len() ==> self.regions@[j].region.id
                    == before.regions@[j].region.id);
            assert(forall|j: int|
                0 <= j < self.regions@.len() ==> #[trigger] self.regions@[j].region
                    == before.regions@[j].region && self.regions@[j].snapshots
                    == before.regions@[j].snapshots);
            assert forall|j: int| 0 <= j < self.regions@.len() implies #[trigger] self.deletable(j)
                == before.evict_deletable(id, j) by {
                lemma_range_blocked_same(
                    *self,
                    before,
                    self.regions@[j].region.start@,
                    self.regions@[j].region.end@,
                );
            }
        }
        let ghost mid = *self;
        let r = self.take_deletable_regions();
        proof {
            lemma_views_agree(mid, before, id, mid.regions@.len() as int);
            assert forall|j: int|
                0 <= j < before.regions@.len() implies #[trigger] self.regions@[j] == (if before.evict_deletable(id, j) {
                RegionMeta { state: RegionState::Evicting, ..before.regions@[j] }
            } else if j == before.region_idx(id) {
                RegionMeta { state: RegionState::PendingEvict, ..before.regions@[j] }
            } else {
                before.regions@[j]
            }) by {
                assert(self.regions@[j] == (if mid.deletable(j) {
                    RegionMeta { state: RegionState::Evicting, ..mid.regions@[j] }
                } else {
                    mid.regions@[j]
                }));
            }
        }
        r
    }

    /// The views handed out by evicting `id`.
    pub open spec fn evict_deletable_views_upto(self, id: u64, n: int) -> Seq<
        (u64, u64, Seq<u8>, Seq<u8>),
    >
        decreases n,
    {
        if n <= 0 {
            Seq::empty()
        } else if self.evict_deletable(id, n - 1) {
            self.evict_deletable_views_upto(id, n - 1).push(self.regions@[n - 1].region@)
        } else {
            self.evict_deletable_views_upto(id, n - 1)
        }
    }

    pub open spec fn evict_deletable_views(self, id: u64) -> Seq<(u64, u64, Seq<u8>, Seq<u8>)> {
        self.evict_deletable_views_upto(id, self.regions@.len() as int)
    }

    /// A region that eviction of `id` leaves physically deletable: it is
    /// (or just became) pending evict and nothing blocks its range.
    pub open spec fn evict_deletable(self, id: u64, i: int) -> bool {
        (self.regions@[i].state == RegionState::PendingEvict || i == self.region_idx(id))
            && !self.range_blocked(self.regions@[i].region.start@, self.regions@[i].region.end@)
    }
}

/// Copies a region descriptor.
pub fn copy_region(r: &CacheRegion) -> (c: CacheRegion)
    ensures
        c@ == r@,
{
    let c = CacheRegion {
        id: r.id,
        epoch_version: r.epoch_version,
        start: vstd::slice::slice_to_vec(r.start.as_slice()),
        end: vstd::slice::slice_to_vec(r.end.as_slice()),
    };
    proof {
        assert(c.start@ =~= r.start@);
        assert(c.end@ =~= r.end@);
    }
    c
}

/// Replaces one meta's state.
fn set_meta_state(regions: &mut Vec<RegionMeta>, i: usize, st: RegionState)
    requires
        i < old(regions)@.len(),
    ensures
        final(regions)@ == old(regions)@.update(
            i as int,
            RegionMeta { state: st, ..old(regions)@[i as int] },
        ),
{
    let m = &mut regions[i];
    m.state = st;
    proof {
        assert(regions@ =~= old(regions)@.update(
            i as int,
            RegionMeta { state: st, ..old(regions)@[i as int] },
        ));
    }
}

/// Checks whether live snapshots block the range of `regions[i]`.
fn is_range_blocked_of(m: &RegionManager, i: usize) -> (r: bool)
    requires
        i < m.regions@.len(),
    ensures
        r == m.range_blocked(m.regions@[i as int].region.start@, m.regions@[i as int].region.end@),
{
    let start = vstd::slice::slice_to_vec(m.regions[i].region.start.as_slice());
    let end = vstd::slice::slice_to_vec(m.regions[i].region.end.as_slice());
    m.is_range_blocked(start.as_slice(), end.as_slice())
}

/// With pointwise-equal deletability and regions, the two view
/// sequences agree.
proof fn lemma_views_agree(mid: RegionManager, before: RegionManager, id: u64, n: int)
    requires
        mid.regions@.len() == before.regions@.len(),
        n <= mid.regions@.len(),
        forall|j: int|
            0 <= j < mid.regions@.len() ==> #[trigger] mid.deletable(j) == before.evict_deletable(
                id,
                j,
            ),
        forall|j: int|
            0 <= j < mid.regions@.len() ==> #[trigger] mid.regions@[j].region
                == before.regions@[j].region,
    ensures
        mid.deletable_views_upto(n) == before.evict_deletable_views_upto(id, n),
    decreases n,
{
    if n > 0 {
        lemma_views_agree(mid, before, id, n - 1);
    }
}

/// Two managers whose regions carry the same ranges and snapshot lists
/// block the same ranges, whatever their states.
proof fn lemma_range_blocked_same(
    m1: RegionManager,
    m2: RegionManager,
    start: Seq<u8>,
    end: Seq<u8>,
)
    requires
        m1.regions@.len() == m2.regions@.len(),
        forall|j: int|
            #![trigger m1.regions@[j]]
            #![trigger m2.regions@[j]]
            0 <= j < m1.regions@.len() ==> m1.regions@[j].region == m2.regions@[j].region
                && m1.regions@[j].snapshots == m2.regions@[j].snapshots,
        m1.historical@ == m2.historical@,
    ensures
        m1.range_blocked(start, end) == m2.range_blocked(start, end),
{
    if m1.range_blocked(start, end) {
        assert(m2.range_blocked(start, end)) by {
            if exists|i: int|
                0 <= i < m1.regions@.len() && m1.regions@[i].snapshots@.len() > 0 && ranges_overlap(
                    m1.regions@[i].region.start@,
                    m1.regions@[i].region.end@,
                    start,
                    end,
                ) {
                let i = choose|i: int|
                    0 <= i < m1.regions@.len() && m1.regions@[i].snapshots@.len() > 0
                        && ranges_overlap(
                        m1.regions@[i].region.start@,
                        m1.regions@[i].region.end@,
                        start,
                        end,
                    );
                assert(m2.regions@[i].snapshots@.len() > 0 && ranges_overlap(
                    m2.regions@[i].region.start@,
                    m2.regions@[i].region.end@,
                    start,
                    end,
                ));
            }
        }
    }
    if m2.range_blocked(start, end) {
        assert(m1.range_blocked(start, end)) by {
            if exists|i: int|
                0 <= i < m2.regions@.len() && m2.regions@[i].snapshots@.len() > 0 && ranges_overlap(
                    m2.regions@[i].region.start@,
                    m2.regions@[i].region.end@,
                    start,
                    end,
                ) {
                let i = choose|i: int|
                    0 <= i < m2.regions@.len() && m2.regions@[i].snapshots@.len() > 0
                        && ranges_overlap(
                        m2.regions@[i].region.start@,
                        m2.regions@[i].region.end@,
                        start,
                        end,
                    );
                assert(m1.regions@[i].snapshots@.len() > 0 && ranges_overlap(
                    m1.regions@[i].region.start@,
                    m1.regions@[i].region.end@,
                    start,
                    end,
                ));
            }
        }
    }
}

impl RegionManager {
    /// The state of the current region with this id.
    pub fn region_state(&self, id: u64) -> (r: Option<RegionState>)
        requires
            self.wf(),
        ensures
            match r {
                Some(st) => self.has_region(id) && st == self.meta_of(id).state,
                None => !self.has_region(id),
            },
    {
        match self.find_region(id) {
            Some(i) => Some(self.regions[i].state),
            None => None,
        }
    }

    /// The region's safe-point, zero for an unknown region.
    pub fn safe_point_of(&self, id: u64) -> (r: u64)
        requires
            self.wf(),
        ensures
            self.has_region(id) ==> r == self.meta_of(id).safe_point,
            !self.has_region(id) ==> r == 0u64,
    {
        match self.find_region(id) {
            Some(i) => self.regions[i].safe_point,
            None => 0,
        }
    }

    /// How many live snapshots of the current region with this id were
    /// taken at `ts`.
    pub fn snapshot_count(&self, id: u64, ts: u64) -> (r: usize)
        requires
            self.wf(),
        ensures
            self.has_region(id) ==> r == snap_count(self.meta_of(id).snapshots@, ts),
            !self.has_region(id) ==> r == 0,
    {
        match self.find_region(id) {
            Some(i) => {
                let list = &self.regions[i].snapshots;
                let mut c: usize = 0;
                let mut j: usize = 0;
                proof {
                    assert(list@.take(0).len() == 0);
                }
                while j < list.len()
                    invariant
                        j <= list@.len(),
                        c == snap_count(list@.take(j as int), ts),
                        c <= j,
                        list@ == self.regions@[self.region_idx(id)].snapshots@,
                    decreases list@.len() - j,
                {
                    let ghost jj = j as int;
                    if list[j] == ts {
                        c = c + 1;
                    }
                    j += 1;
                    proof {
                        lemma_snap_count_take_step(list@, jj, ts);
                    }
                }
                proof {
                    assert(list@.take(list@.len() as int) =~= list@);
                }
                c
            },
            None => 0,
        }
    }

    /// The number of live snapshots of the current region with this id.
    pub fn snapshot_total(&self, id: u64) -> (r: usize)
        requires
            self.wf(),
        ensures
            self.has_region(id) ==> r == self.meta_of(id).snapshots@.len(),
            !self.has_region(id) ==> r == 0,
    {
        match self.find_region(id) {
            Some(i) => self.regions[i].snapshots.len(),
            None => 0,
        }
    }

    /// Removes a current region's record outright, as physical deletion
    /// of an evicting region does.
    pub fn remove_region(&mut self, id: u64)
        requires
            old(self).wf(),
        ensures
            final(self).wf(),
            final(self).historical@ == old(self).historical@,
            !old(self).has_region(id) ==> final(self).regions@ == old(self).regions@,
            old(self).has_region(id) ==> final(self).regions@ == old(self).regions@.remove(
                old(self).region_idx(id),
            ),
            !final(self).has_region(id),
    {
        let ghost pre = *self;
        match self.find_region(id) {
            Some(i) => {
                self.regions.remove(i);
                proof {
                    assert forall|a: int, b: int|
                        #![trigger self.regions@[a], self.regions@[b]]
                        0 <= a < b < self.regions@.len() implies self.regions@[a].region.id
                        != self.regions@[b].region.id by {
                        let a0: int = if a < i as int {
                            a
                        } else {
                            a + 1
                        };
                        let b0: int = if b < i as int {
                            b
                        } else {
                            b + 1
                        };
                        assert(self.regions@[a] == pre.regions@[a0]);
                        assert(self.regions@[b] == pre.regions@[b0]);
                    }
                    assert(!self.has_region(id)) by {
                        if self.has_region(id) {
                            let j = choose|j: int|
                                0 <= j < self.regions@.len() && self.regions@[j].region.id == id;
                            let j0: int = if j < i as int {
                                j
                            } else {
                                j + 1
                            };
                            assert(self.regions@[j] == pre.regions@[j0]);
                            assert(pre.regions@[j0].region.id == id);
                            assert(pre.regions@[i as int].region.id == id);
                        }
                    }
                }
            },
            None => (),
        }
    }

    /// Splits a cached region: the parent's record leaves the current
    /// set (living on as a historical record while its snapshots last),
    /// and each child enters as a cached region inheriting the parent's
    /// safe-point with no snapshots.
    pub fn split_region(&mut self, source_id: u64, source_epoch: u64, new_regions: Vec<CacheRegion>)
        requires
            old(self).wf(),
            old(self).has_region(source_id),
            old(self).meta_of(source_id).region.epoch_version == source_epoch,
            !old(self).pair_in_historical(source_id, source_epoch),
            forall|a: int, b: int|
                0 <= a < b < new_regions@.len() ==> new_regions@[a].id != new_regions@[b].id,
            forall|a: int|
                0 <= a < new_regions@.len() ==> (old(self).has_region(new_regions@[a].id)
                    ==> new_regions@[a].id == source_id),
        ensures
            final(self).wf(),
            final(self).regions@.len() == old(self).regions@.len() - 1 + new_regions@.len(),
            final(self).regions@.take(old(self).regions@.len() - 1) == old(self).regions@.remove(
                old(self).region_idx(source_id),
            ),
            forall|j: int|
                0 <= j < new_regions@.len() ==> {
                    let meta = #[trigger] final(self).regions@[old(self).regions@.len() - 1 + j];
                    meta.region@ == new_regions@[j]@ && meta.state == RegionState::Cached
                        && meta.safe_point == old(self).meta_of(source_id).safe_point
                        && meta.snapshots@.len() == 0
                },
            old(self).meta_of(source_id).snapshots@.len() > 0 ==> final(self).historical@ == old(
                self,
            ).historical@.push(old(self).regions@[old(self).region_idx(source_id)]),
            old(self).meta_of(source_id).snapshots@.len() == 0 ==> final(self).historical@ == old(
                self,
            ).historical@,
    {
        let ghost pre = *self;
        let i = match self.find_region(source_id) {
            Some(i) => i,
            None => {
                proof {
                    assert(false);
                }
                0
            },
        };
        let sp = self.regions[i].safe_point;
        let meta = self.regions.remove(i);
        let has_snaps = meta.snapshots.len() > 0;
        if has_snaps {
            self.historical.push(meta);
        }
        let ghost mid_regions = self.regions@;
        let ghost base = self.regions@.len() as int;
        proof {
            assert(mid_regions == pre.regions@.remove(pre.region_idx(source_id)));
            assert forall|a: int, b: int|
                #![trigger self.regions@[a], self.regions@[b]]
                0 <= a < b < self.regions@.len() implies self.regions@[a].region.id
                != self.regions@[b].region.id by {
                let a0: int = if a < i as int {
                    a
                } else {
                    a + 1
                };
                let b0: int = if b < i as int {
                    b
                } else {
                    b + 1
                };
                assert(self.regions@[a] == pre.regions@[a0]);
                assert(self.regions@[b] == pre.regions@[b0]);
            }
            assert forall|j: int|
                0 <= j < self.regions@.len() implies self.regions@[j].region.id != source_id by {
                let j0: int = if j < i as int {
                    j
                } else {
                    j + 1
                };
                assert(self.regions@[j] == pre.regions@[j0]);
                if pre.regions@[j0].region.id == source_id {
                    assert(pre.regions@[pre.region_idx(source_id)].region.id == source_id);
                }
            }
        }
        let mut children = new_regions;
        let ghost kids = children@;
        let total = children.len();
        let ghost hist_after = self.historical@;
        let ghost src_meta = pre.regions@[i as int];
        proof {
            assert(kids.len() == total as int);
            assert(i as int == pre.region_idx(source_id));
            assert(hist_after == if src_meta.snapshots@.len() > 0 {
                pre.historical@.push(src_meta)
            } else {
                pre.historical@
            });
            assert forall|h: int|
                0 <= h < self.historical@.len() implies self.historical@[h].snapshots@.len()
                > 0 by {
                if h < pre.historical@.len() {
                    assert(self.historical@[h] == pre.historical@[h]);
                } else {
                    assert(self.historical@[h] == src_meta);
                }
            }
            assert forall|a: int, b: int|
                #![trigger self.historical@[a], self.historical@[b]]
                0 <= a < b < self.historical@.len() implies self.hist_pair_at(a)
                != self.hist_pair_at(b) by {
                if b < pre.historical@.len() {
                    assert(self.historical@[a] == pre.historical@[a]);
                    assert(self.historical@[b] == pre.historical@[b]);
                } else {
                    assert(self.historical@[a] == pre.historical@[a]);
                    assert(self.historical@[b] == src_meta);
                    assert((src_meta.region.id, src_meta.region.epoch_version) == (
                        source_id,
                        source_epoch,
                    ));
                    assert(!(pre.hist_pair_at(a) == (source_id, source_epoch)));
                }
            }
        }
        let mut pushed: usize = 0;
        while children.len() > 0
            invariant
                self.wf(),
                self.historical@ == hist_after,
                hist_after == if src_meta.snapshots@.len() > 0 {
                    pre.historical@.push(src_meta)
                } else {
                    pre.historical@
                },
                src_meta == pre.regions@[pre.region_idx(source_id)],
                pre.has_region(source_id),
                pushed as int + children@.len() == kids.len(),
                kids.len() <= usize::MAX,
                children@ == kids.skip(pushed as int),
                base == mid_regions.len(),
                self.regions@.len() == base + pushed,
                self.regions@.take(base) == mid_regions,
                forall|j: int| 0 <= j < base ==> self.regions@[j].region.id != source_id,
                forall|j: int|
                    0 <= j < pushed ==> {
                        let meta = #[trigger] self.regions@[base + j];
                        meta.region@ == kids[j]@ && meta.state == RegionState::Cached
                            && meta.safe_point == sp && meta.snapshots@.len() == 0
                    },
                sp == pre.meta_of(source_id).safe_point,
                pre.wf(),
                forall|a: int, b: int| 0 <= a < b < kids.len() ==> kids[a].id != kids[b].id,
                forall|a: int|
                    0 <= a < kids.len() ==> (pre.has_region(kids[a].id) ==> kids[a].id
                        == source_id),
                forall|j: int|
                    0 <= j < pushed ==> self.regions@[base + j].region.id == kids[j].id,
                forall|j: int, j0: int|
                    0 <= j < base && 0 <= j0 < kids.len() ==> (self.regions@[j].region.id
                        == kids[j0].id ==> false),
            decreases children@.len(),
        {
            let child = children.remove(0);
            let ghost cid = child.id;
            let new_meta = RegionMeta {
                region: child,
                state: RegionState::Cached,
                safe_point: sp,
                snapshots: Vec::new(),
            };
            self.regions.push(new_meta);
            pushed += 1;
            proof {
                assert(children@ =~= kids.skip(pushed as int));
                assert(self.regions@.take(base) =~= mid_regions);
                assert forall|a: int, b: int|
                    #![trigger self.regions@[a], self.regions@[b]]
                    0 <= a < b < self.regions@.len() implies self.regions@[a].region.id
                    != self.regions@[b].region.id by {
                    if b == self.regions@.len() - 1 {
                        if a < base {
                        } else {
                            assert(self.regions@[a].region.id == kids[a - base].id);
                            assert(self.regions@[b].region.id == kids[pushed - 1].id);
                        }
                    }
                }
            }
        }
        proof {
            assert(self.regions@.take(base) =~= mid_regions);
        }
    }
}

proof fn lemma_snap_count_take_step(s: Seq<u64>, j: int, t: u64)
    requires
        0 <= j < s.len(),
    ensures
        snap_count(s.take(j + 1), t) == snap_count(s.take(j), t) + (if s[j] == t {
            1int
        } else {
            0int
        }),
{
    lemma_snap_count_append(s.take(j + 1), j, t);
    assert(s.take(j + 1).take(j) =~= s.take(j));
    assert(s.take(j + 1)[j] == s[j]);
}

/// Counting splits at the last element.
proof fn lemma_snap_count_append(s: Seq<u64>, j: int, t: u64)
    requires
        s.len() == j + 1,
        0 <= j,
    ensures
        snap_count(s, t) == snap_count(s.take(j), t) + (if s[j] == t {
            1int
        } else {
            0int
        }),
    decreases j,
{
    if j == 0 {
        assert(s.take(0).len() == 0);
        assert(s.skip(1).len() == 0);
        assert(snap_count(s, t) == (if s[0] == t {
            1int
        } else {
            0int
        }) + snap_count(s.skip(1), t));
    } else {
        lemma_snap_count_append(s.skip(1), j - 1, t);
        assert(s.skip(1).take(j - 1) =~= s.take(j).skip(1));
        assert(s.skip(1)[j - 1] == s[j]);
        assert(s.take(j).len() == j);
        assert(s.take(j)[0] == s[0]);
        assert(snap_count(s, t) == (if s[0] == t {
            1int
        } else {
            0int
        }) + snap_count(s.skip(1), t));
        assert(snap_count(s.take(j), t) == (if s.take(j)[0] == t {
            1int
        } else {
            0int
        }) + snap_count(s.take(j).skip(1), t));
    }
}

/// What releasing one snapshot leaves behind, relating the manager
/// before and after.
pub open spec fn release_post(
    pre: RegionManager,
    post: RegionManager,
    id: u64,
    epoch: u64,
    ts: u64,
) -> bool {
    &&& post.wf()
    &&& (pre.pair_in_regions(id, epoch) ==> {
        let i = pre.regions_pair_idx(id, epoch);
        let m = pre.regions@[i];
        post.historical@ == pre.historical@ && post.regions@.len() == pre.regions@.len() && (
        forall|j: int|
            0 <= j < pre.regions@.len() && j != i ==> post.regions@[j] == pre.regions@[j])
            && post.regions@[i] == (RegionMeta { snapshots: post.regions@[i].snapshots, ..m })
            && post.regions@[i].snapshots@.len() == m.snapshots@.len() - 1 && snap_count(
            post.regions@[i].snapshots@,
            ts,
        ) == snap_count(m.snapshots@, ts) - 1
    })
    &&& (!pre.pair_in_regions(id, epoch) ==> post.regions@ == pre.regions@)
}

/// What taking the deletable regions leaves behind.
pub open spec fn take_post(
    pre: RegionManager,
    post: RegionManager,
    views: Seq<(u64, u64, Seq<u8>, Seq<u8>)>,
) -> bool {
    &&& post.wf()
    &&& post.historical@ == pre.historical@
    &&& post.regions@.len() == pre.regions@.len()
    &&& forall|i: int|
        0 <= i < pre.regions@.len() ==> #[trigger] post.regions@[i] == (if pre.deletable(i) {
            RegionMeta { state: RegionState::Evicting, ..pre.regions@[i] }
        } else {
            pre.regions@[i]
        })
    &&& views == pre.deletable_views()
}

/// Safe-points only ever rise: after raising to `t1` and then `t2`, the
/// safe-point stands at the larger of the two (and never below where it
/// started).
pub proof fn lemma_safe_point_monotone(sp0: u64, t1: u64, t2: u64)
    ensures
        ({
            let sp1 = if t1 >= sp0 {
                t1
            } else {
                sp0
            };
            let sp2 = if t2 >= sp1 {
                t2
            } else {
                sp1
            };
            sp2 >= sp1 && sp1 >= sp0 && (sp0 <= t1 && sp0 <= t2 ==> sp2 == if t1 >= t2 {
                t1
            } else {
                t2
            })
        }),
{
}

/// A region pending eviction stays untouched by `take_deletable_regions`
/// while any live snapshot overlaps its range, and is handed out for
/// physical deletion exactly when none does: the last overlapping
/// snapshot's release unblocks it, never an earlier one.
pub proof fn lemma_snapshot_lifetime(m: RegionManager, i: int)
    requires
        m.wf(),
        0 <= i < m.regions@.len(),
        m.regions@[i].state == RegionState::PendingEvict,
    ensures
        m.range_blocked(m.regions@[i].region.start@, m.regions@[i].region.end@)
            ==> !m.deletable(i),
        !m.range_blocked(m.regions@[i].region.start@, m.regions@[i].region.end@)
            ==> m.deletable(i),
{
}

/// The only live snapshots overlapping region `i`'s range are its own:
/// no other current region and no historical parent both holds live
/// snapshots and overlaps it.
pub open spec fn only_self_blocks(m: RegionManager, i: int) -> bool {
    &&& forall|j: int|
        0 <= j < m.regions@.len() && j != i ==> !(m.regions@[j].snapshots@.len() > 0
            && ranges_overlap(
            m.regions@[j].region.start@,
            m.regions@[j].region.end@,
            m.regions@[i].region.start@,
            m.regions@[i].region.end@,
        ))
    &&& forall|j: int|
        0 <= j < m.historical@.len() ==> !(m.historical@[j].snapshots@.len() > 0 && ranges_overlap(
            m.historical@[j].region.start@,
            m.historical@[j].region.end@,
            m.regions@[i].region.start@,
            m.regions@[i].region.end@,
        ))
}

/// One step of the snapshot-release induction: releasing a snapshot of
/// a nonempty region pending eviction, whose own snapshots are its only
/// blockers, leaves one snapshot fewer; the region stays blocked while
/// any remain and becomes deletable exactly when the last one goes, so
/// with `k` outstanding snapshots it is handed out for physical
/// deletion after the `k`-th release and never before. The hypotheses
/// are preserved, so the step iterates.
pub proof fn lemma_snapshot_release_step(
    pre: RegionManager,
    post: RegionManager,
    id: u64,
    epoch: u64,
    ts: u64,
    i: int,
)
    requires
        pre.wf(),
        release_post(pre, post, id, epoch, ts),
        pre.pair_in_regions(id, epoch),
        i == pre.regions_pair_idx(id, epoch),
        pre.regions@[i].state == RegionState::PendingEvict,
        lex_lt(pre.regions@[i].region.start@, pre.regions@[i].region.end@),
        only_self_blocks(pre, i),
    ensures
        post.regions@[i].region == pre.regions@[i].region,
        post.regions@[i].state == RegionState::PendingEvict,
        post.regions@[i].snapshots@.len() == pre.regions@[i].snapshots@.len() - 1,
        only_self_blocks(post, i),
        post.regions@[i].snapshots@.len() > 0 ==> !post.deletable(i),
        post.regions@[i].snapshots@.len() == 0 ==> post.deletable(i),
{
    let start = post.regions@[i].region.start@;
    let end = post.regions@[i].region.end@;
    if post.regions@[i].snapshots@.len() > 0 {
        assert(post.range_blocked(start, end)) by {
            assert(post.regions@[i].snapshots@.len() > 0 && ranges_overlap(
                post.regions@[i].region.start@,
                post.regions@[i].region.end@,
                start,
                end,
            ));
        }
    }
    if post.regions@[i].snapshots@.len() == 0 {
        assert(!post.range_blocked(start, end)) by {
            assert forall|j: int|
                0 <= j < post.regions@.len() implies !(#[trigger] post.regions@[j].snapshots@.len()
                > 0 && ranges_overlap(
                post.regions@[j].region.start@,
                post.regions@[j].region.end@,
                start,
                end,
            )) by {
                if j != i {
                    assert(post.regions@[j] == pre.regions@[j]);
                }
            }
            assert forall|j: int|
                0 <= j < post.historical@.len() implies !(#[trigger] post.historical@[j].snapshots@.len()
                > 0 && ranges_overlap(
                post.historical@[j].region.start@,
                post.historical@[j].region.end@,
                start,
                end,
            )) by {
                assert(post.historical@[j] == pre.historical@[j]);
            }
        }
    }
}

} // verus!
