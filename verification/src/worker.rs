//! The region worker: deferred range deletion and apply scheduling.
//!
//! Destroyed regions are not deleted at once: their ranges wait in a
//! pairwise-disjoint, start-ordered map until no engine snapshot older
//! than their recorded sequence remains. Applying a snapshot first drains
//! every pending range overlapping the target. The worker also throttles
//! pending applies against the engine's write-stall signal.

use vstd::prelude::*;

use crate::byteorder::{bytes_eq, bytes_le, bytes_lt, lex_le, lex_lt};
use crate::engine::CfName;
use crate::region_manager::ranges_overlap;

verus! {

/// At most this many stale ranges are cleaned per sweep.
pub const CLEANUP_MAX_REGION_COUNT: usize = 64;

/// A task of the region worker.
pub enum Task {
    Apply { region_id: u64, peer_id: u64 },
    /// Destroy data between `start_key` and `end_key`. The physical
    /// deletion may be delayed while a reader could still reference it.
    Destroy { region_id: u64, start_key: Vec<u8>, end_key: Vec<u8> },
}

impl Task {
    pub fn destroy(region_id: u64, start_key: Vec<u8>, end_key: Vec<u8>) -> (r: Task)
        ensures
            r matches Task::Destroy { region_id: rid, start_key: s, end_key: e } && rid
                == region_id && s@ == start_key@ && e@ == end_key@,
    {
        Task::Destroy { region_id, start_key, end_key }
    }
}

/// The shared status of an apply job.
#[derive(Clone, Copy, PartialEq, Eq, Structural, Debug)]
pub enum JobStatus {
    Pending,
    Running,
    Cancelling,
    Cancelled,
    Finished,
    Failed,
}

/// What can go wrong applying a snapshot.
#[derive(Clone, Copy, PartialEq, Eq, Structural, Debug)]
pub enum SnapError {
    /// The apply was cancelled cooperatively.
    Abort,
    /// The snapshot file is missing on disk.
    MissingSnapshotFile,
    /// The durable engine failed.
    Io,
}

/// How a range is physically removed from the durable engine.
#[derive(Clone, Copy, PartialEq, Eq, Structural, Debug)]
pub enum DeleteStrategy {
    DeleteFiles,
    DeleteByKey,
    DeleteByRange,
    DeleteByWriter,
    DeleteBlobs,
}

/// An entry of the pending-delete map:
/// `(region_id, start_key, end_key, stale_sequence)`. Once the engine's
/// oldest live snapshot passes `stale_sequence`, no reader can see the
/// range and it may be deleted at the file level.
pub struct PendingRange {
    pub region_id: u64,
    pub start_key: Vec<u8>,
    pub end_key: Vec<u8>,
    pub stale_sequence: u64,
}

impl View for PendingRange {
    type V = (u64, Seq<u8>, Seq<u8>, u64);

    open spec fn view(&self) -> (u64, Seq<u8>, Seq<u8>, u64) {
        (self.region_id, self.start_key@, self.end_key@, self.stale_sequence)
    }
}

pub open spec fn range_view_overlaps(r: (u64, Seq<u8>, Seq<u8>, u64), s: Seq<u8>, e: Seq<u8>) -> bool {
    ranges_overlap(r.1, r.2, s, e)
}

/// `b` is `a` with `v` inserted at position `i`.
pub open spec fn inserted_at(
    a: Seq<(u64, Seq<u8>, Seq<u8>, u64)>,
    b: Seq<(u64, Seq<u8>, Seq<u8>, u64)>,
    i: int,
    v: (u64, Seq<u8>, Seq<u8>, u64),
) -> bool {
    b == a.insert(i, v)
}

/// Ranges logically destroyed but physically retained. Entries are kept
/// ordered by start key and pairwise range-disjoint; `insert` upholds it
/// because every overlapping entry is drained first.
pub struct PendingDeleteRanges {
    pub ranges: Vec<PendingRange>,
}

impl PendingDeleteRanges {
    /// The map's invariant: entries ordered by start key and pairwise
    /// disjoint.
    pub open spec fn wf(self) -> bool {
        &&& forall|i: int, j: int|
            #![trigger self.ranges@[i], self.ranges@[j]]
            0 <= i < j < self.ranges@.len() ==> lex_le(
                self.ranges@[i].start_key@,
                self.ranges@[j].start_key@,
            ) && !ranges_overlap(
                self.ranges@[i].start_key@,
                self.ranges@[i].end_key@,
                self.ranges@[j].start_key@,
                self.ranges@[j].end_key@,
            )
        &&& forall|i: int|
            0 <= i < self.ranges@.len() ==> lex_lt(
                (#[trigger] self.ranges@[i]).start_key@,
                self.ranges@[i].end_key@,
            )
    }

    /// The entries overlapping `[s, e)`, in map order.
    pub open spec fn overlaps_upto(self, s: Seq<u8>, e: Seq<u8>, n: int) -> Seq<
        (u64, Seq<u8>, Seq<u8>, u64),
    >
        decreases n,
    {
        if n <= 0 {
            Seq::empty()
        } else if range_view_overlaps(self.ranges@[n - 1]@, s, e) {
            self.overlaps_upto(s, e, n - 1).push(self.ranges@[n - 1]@)
        } else {
            self.overlaps_upto(s, e, n - 1)
        }
    }

    pub open spec fn overlaps_view(self, s: Seq<u8>, e: Seq<u8>) -> Seq<(u64, Seq<u8>, Seq<u8>, u64)> {
        self.overlaps_upto(s, e, self.ranges@.len() as int)
    }

    /// The entries left after removing those overlapping `[s, e)`.
    pub open spec fn remainder_upto(self, s: Seq<u8>, e: Seq<u8>, n: int) -> Seq<
        (u64, Seq<u8>, Seq<u8>, u64),
    >
        decreases n,
    {
        if n <= 0 {
            Seq::empty()
        } else if range_view_overlaps(self.ranges@[n - 1]@, s, e) {
            self.remainder_upto(s, e, n - 1)
        } else {
            self.remainder_upto(s, e, n - 1).push(self.ranges@[n - 1]@)
        }
    }

    pub open spec fn remainder_view(self, s: Seq<u8>, e: Seq<u8>) -> Seq<
        (u64, Seq<u8>, Seq<u8>, u64),
    > {
        self.remainder_upto(s, e, self.ranges@.len() as int)
    }

    /// The stale entries: those whose recorded sequence is below the
    /// engine's oldest live snapshot sequence, in map order.
    pub open spec fn stale_upto(self, oldest: u64, n: int) -> Seq<(u64, Seq<u8>, Seq<u8>)>
        decreases n,
    {
        if n <= 0 {
            Seq::empty()
        } else if self.ranges@[n - 1].stale_sequence < oldest {
            self.stale_upto(oldest, n - 1).push(
                (
                    self.ranges@[n - 1].region_id,
                    self.ranges@[n - 1].start_key@,
                    self.ranges@[n - 1].end_key@,
                ),
            )
        } else {
            self.stale_upto(oldest, n - 1)
        }
    }

    pub open spec fn stale_view(self, oldest: u64) -> Seq<(u64, Seq<u8>, Seq<u8>)> {
        self.stale_upto(oldest, self.ranges@.len() as int)
    }

    pub fn new() -> (r: PendingDeleteRanges)
        ensures
            r.wf(),
            r.ranges@.len() == 0,
    {
        PendingDeleteRanges { ranges: Vec::new() }
    }

    pub fn len(&self) -> (r: usize)
        ensures
            r == self.ranges@.len(),
    {
        self.ranges.len()
    }

    /// Finds the entries whose range overlaps `[start_key, end_key)`.
    pub fn find_overlap_ranges(&self, start_key: &[u8], end_key: &[u8]) -> (r: Vec<PendingRange>)
        ensures
            r@.map_values(|p: PendingRange| p@) == self.overlaps_view(start_key@, end_key@),
    {
        let mut r: Vec<PendingRange> = Vec::new();
        let mut i: usize = 0;
        while i < self.ranges.len()
            invariant
                i <= self.ranges@.len(),
                r@.map_values(|p: PendingRange| p@) == self.overlaps_upto(
                    start_key@,
                    end_key@,
                    i as int,
                ),
            decreases self.ranges@.len() - i,
        {
            let ghost rsnap = r@;
            let p = &self.ranges[i];
            if bytes_lt(p.start_key.as_slice(), end_key) && bytes_lt(
                start_key,
                p.end_key.as_slice(),
            ) {
                let copy = copy_range(p);
                r.push(copy);
                proof {
                    assert(r@.map_values(|p: PendingRange| p@) =~= rsnap.map_values(
                        |p: PendingRange| p@,
                    ).push(self.ranges@[i as int]@));
                }
            }
            i += 1;
        }
        r
    }

    /// Removes and returns the entries whose range overlaps
    /// `[start_key, end_key)`.
    pub fn drain_overlap_ranges(&mut self, start_key: &[u8], end_key: &[u8]) -> (r: Vec<
        PendingRange,
    >)
        requires
            old(self).wf(),
        ensures
            final(self).wf(),
            r@.map_values(|p: PendingRange| p@) == old(self).overlaps_view(start_key@, end_key@),
            final(self).ranges@.map_values(|p: PendingRange| p@) == old(self).remainder_view(
                start_key@,
                end_key@,
            ),
    {
        let mut drained: Vec<PendingRange> = Vec::new();
        let mut kept: Vec<PendingRange> = Vec::new();
        let mut i: usize = 0;
        let ghost pre = *self;
        while i < self.ranges.len()
            invariant
                *self == pre,
                pre.wf(),
                i <= self.ranges@.len(),
                drained@.map_values(|p: PendingRange| p@) == pre.overlaps_upto(
                    start_key@,
                    end_key@,
                    i as int,
                ),
                kept@.map_values(|p: PendingRange| p@) == pre.remainder_upto(
                    start_key@,
                    end_key@,
                    i as int,
                ),
            decreases self.ranges@.len() - i,
        {
            let ghost dsnap = drained@;
            let ghost ksnap = kept@;
            let p = &self.ranges[i];
            let copy = copy_range(p);
            if bytes_lt(p.start_key.as_slice(), end_key) && bytes_lt(
                start_key,
                p.end_key.as_slice(),
            ) {
                drained.push(copy);
                proof {
                    assert(drained@.map_values(|p: PendingRange| p@) =~= dsnap.map_values(
                        |p: PendingRange| p@,
                    ).push(self.ranges@[i as int]@));
                }
            } else {
                kept.push(copy);
                proof {
                    assert(kept@.map_values(|p: PendingRange| p@) =~= ksnap.map_values(
                        |p: PendingRange| p@,
                    ).push(self.ranges@[i as int]@));
                }
            }
            i += 1;
        }
        self.ranges = kept;
        proof {
            lemma_remainder_wf(pre, start_key@, end_key@, *self);
        }
        drained
    }

    /// Removes and returns the entry starting exactly at `start_key`.
    pub fn remove(&mut self, start_key: &[u8]) -> (r: Option<(u64, Vec<u8>, Vec<u8>)>)
        requires
            old(self).wf(),
        ensures
            final(self).wf(),
            match r {
                Some(t) => exists|i: int|
                    #![trigger old(self).ranges@[i]]
                    0 <= i < old(self).ranges@.len() && old(self).ranges@[i].start_key@
                        == start_key@ && t.0 == old(self).ranges@[i].region_id && t.1@ == start_key@
                        && t.2@ == old(self).ranges@[i].end_key@ && final(self).ranges@ == old(self).ranges@.remove(i),
                None => final(self).ranges@ == old(self).ranges@ && forall|i: int|
                    0 <= i < old(self).ranges@.len() ==> #[trigger] old(self).ranges@[i].start_key@ != start_key@,
            },
    {
        let ghost pre = *self;
        let mut i: usize = 0;
        while i < self.ranges.len() && !bytes_eq(self.ranges[i].start_key.as_slice(), start_key)
            invariant
                *self == pre,
                pre.wf(),
                i <= self.ranges@.len(),
                forall|j: int| 0 <= j < i ==> #[trigger] pre.ranges@[j].start_key@ != start_key@,
            decreases self.ranges@.len() - i,
        {
            i += 1;
        }
        if i < self.ranges.len() {
            let p = self.ranges.remove(i);
            proof {
                lemma_wf_remove(pre, i as int, *self);
                assert(pre.ranges@[i as int].start_key@ == start_key@);
                assert(self.ranges@ == pre.ranges@.remove(i as int));
            }
            Some((p.region_id, p.start_key, p.end_key))
        } else {
            None
        }
    }

    /// Inserts a new range to be deleted later. The caller must have
    /// drained every overlapping entry first; an overlapping insert is a
    /// fault of the range bookkeeping.
    pub fn insert(&mut self, region_id: u64, start_key: Vec<u8>, end_key: Vec<u8>, stale_sequence: u64) -> (pos: usize)
        requires
            old(self).wf(),
            forall|i: int|
                0 <= i < old(self).ranges@.len() ==> !ranges_overlap(
                    #[trigger] old(self).ranges@[i].start_key@,
                    old(self).ranges@[i].end_key@,
                    start_key@,
                    end_key@,
                ),
            lex_lt(start_key@, end_key@),
        ensures
            final(self).wf(),
            final(self).ranges@.len() == old(self).ranges@.len() + 1,
            pos <= old(self).ranges@.len(),
            inserted_at(
                old(self).ranges@.map_values(|p: PendingRange| p@),
                final(self).ranges@.map_values(|p: PendingRange| p@),
                pos as int,
                (region_id, start_key@, end_key@, stale_sequence),
            ),
    {
        let ghost pre = *self;
        let mut i: usize = 0;
        while i < self.ranges.len() && bytes_le(self.ranges[i].start_key.as_slice(), start_key.as_slice())
            invariant
                *self == pre,
                pre.wf(),
                i <= self.ranges@.len(),
                forall|j: int|
                    0 <= j < i ==> lex_le(#[trigger] pre.ranges@[j].start_key@, start_key@),
            decreases self.ranges@.len() - i,
        {
            i += 1;
        }
        let entry = PendingRange { region_id, start_key, end_key, stale_sequence };
        let ghost ev = entry@;
        self.ranges.insert(i, entry);
        proof {
            lemma_wf_insert(pre, i as int, ev, *self);
            assert(self.ranges@.map_values(|p: PendingRange| p@) =~= pre.ranges@.map_values(
                |p: PendingRange| p@,
            ).insert(i as int, ev));
            assert(inserted_at(
                pre.ranges@.map_values(|p: PendingRange| p@),
                self.ranges@.map_values(|p: PendingRange| p@),
                i as int,
                ev,
            ));
            assert(self.ranges@[i as int]@ == ev);
        }
        i
    }

    /// The stale entries, those no live engine snapshot can still see:
    /// every entry whose recorded sequence is below `oldest_sequence`.
    pub fn stale_ranges(&self, oldest_sequence: u64) -> (r: Vec<(u64, Vec<u8>, Vec<u8>)>)
        ensures
            r@.map_values(|t: (u64, Vec<u8>, Vec<u8>)| (t.0, t.1@, t.2@)) == self.stale_view(
                oldest_sequence,
            ),
    {
        let mut r: Vec<(u64, Vec<u8>, Vec<u8>)> = Vec::new();
        let mut i: usize = 0;
        while i < self.ranges.len()
            invariant
                i <= self.ranges@.len(),
                r@.map_values(|t: (u64, Vec<u8>, Vec<u8>)| (t.0, t.1@, t.2@)) == self.stale_upto(
                    oldest_sequence,
                    i as int,
                ),
            decreases self.ranges@.len() - i,
        {
            let ghost rsnap = r@;
            let p = &self.ranges[i];
            if p.stale_sequence < oldest_sequence {
                r.push(
                    (
                        p.region_id,
                        vstd::slice::slice_to_vec(p.start_key.as_slice()),
                        vstd::slice::slice_to_vec(p.end_key.as_slice()),
                    ),
                );
                proof {
                    assert(r@.map_values(|t: (u64, Vec<u8>, Vec<u8>)| (t.0, t.1@, t.2@))
                        =~= rsnap.map_values(|t: (u64, Vec<u8>, Vec<u8>)| (t.0, t.1@, t.2@)).push(
                        (
                            self.ranges@[i as int].region_id,
                            self.ranges@[i as int].start_key@,
                            self.ranges@[i as int].end_key@,
                        ),
                    ));
                }
            }
            i += 1;
        }
        r
    }
}

/// The pending-delete map never holds two overlapping ranges: whatever
/// sequence of drains and inserts built it, its entries are pairwise
/// range-disjoint.
pub proof fn lemma_overlap_free(m: PendingDeleteRanges, i: int, j: int)
    requires
        m.wf(),
        0 <= i < m.ranges@.len(),
        0 <= j < m.ranges@.len(),
        i != j,
    ensures
        !ranges_overlap(
            m.ranges@[i].start_key@,
            m.ranges@[i].end_key@,
            m.ranges@[j].start_key@,
            m.ranges@[j].end_key@,
        ),
{
    if i < j {
    } else {
        assert(!ranges_overlap(
            m.ranges@[j].start_key@,
            m.ranges@[j].end_key@,
            m.ranges@[i].start_key@,
            m.ranges@[i].end_key@,
        ));
    }
}

fn copy_range(p: &PendingRange) -> (r: PendingRange)
    ensures
        r@ == p@,
{
    PendingRange {
        region_id: p.region_id,
        start_key: vstd::slice::slice_to_vec(p.start_key.as_slice()),
        end_key: vstd::slice::slice_to_vec(p.end_key.as_slice()),
        stale_sequence: p.stale_sequence,
    }
}

/// The entries kept by a drain are a subsequence of the original map,
/// so they stay ordered and disjoint.
proof fn lemma_remainder_wf(pre: PendingDeleteRanges, s: Seq<u8>, e: Seq<u8>, post: PendingDeleteRanges)
    requires
        pre.wf(),
        post.ranges@.map_values(|p: PendingRange| p@) == pre.remainder_view(s, e),
    ensures
        post.wf(),
{
    lemma_remainder_subseq(pre, s, e, pre.ranges@.len() as int);
    let f = |p: PendingRange| p@;
    assert forall|i: int, j: int|
        #![trigger post.ranges@[i], post.ranges@[j]]
        0 <= i < j < post.ranges@.len() implies lex_le(
        post.ranges@[i].start_key@,
        post.ranges@[j].start_key@,
    ) && !ranges_overlap(
        post.ranges@[i].start_key@,
        post.ranges@[i].end_key@,
        post.ranges@[j].start_key@,
        post.ranges@[j].end_key@,
    ) by {
        let v = pre.remainder_view(s, e);
        assert(post.ranges@.map_values(f)[i] == v[i]);
        assert(post.ranges@.map_values(f)[j] == v[j]);
        let (i0, j0) = choose|i0: int, j0: int|
            #![trigger pre.ranges@[i0], pre.ranges@[j0]]
            0 <= i0 < j0 < pre.ranges@.len() && v[i] == pre.ranges@[i0]@ && v[j]
                == pre.ranges@[j0]@;
        assert(pre.ranges@[i0]@ == post.ranges@[i]@);
        assert(pre.ranges@[j0]@ == post.ranges@[j]@);
    }
    assert forall|a: int|
        0 <= a < post.ranges@.len() implies lex_lt(
        (#[trigger] post.ranges@[a]).start_key@,
        post.ranges@[a].end_key@,
    ) by {
        let v = pre.remainder_view(s, e);
        assert(post.ranges@.map_values(|p: PendingRange| p@)[a] == v[a]);
        let a0 = choose|a0: int|
            0 <= a0 < pre.ranges@.len() && #[trigger] v[a] == pre.ranges@[a0]@;
        assert(pre.ranges@[a0]@ == post.ranges@[a]@);
    }
}

/// Each ordered pair of remainder entries comes from an ordered pair of
/// original entries.
proof fn lemma_remainder_subseq(pre: PendingDeleteRanges, s: Seq<u8>, e: Seq<u8>, n: int)
    requires
        pre.wf(),
        0 <= n <= pre.ranges@.len(),
    ensures
        forall|i: int, j: int|
            #![trigger pre.remainder_upto(s, e, n)[i], pre.remainder_upto(s, e, n)[j]]
            0 <= i < j < pre.remainder_upto(s, e, n).len() ==> exists|i0: int, j0: int|
                #![trigger pre.ranges@[i0], pre.ranges@[j0]]
                0 <= i0 < j0 < pre.ranges@.len() && pre.remainder_upto(s, e, n)[i]
                    == pre.ranges@[i0]@ && pre.remainder_upto(s, e, n)[j] == pre.ranges@[j0]@,
        forall|i: int|
            0 <= i < pre.remainder_upto(s, e, n).len() ==> exists|i0: int|
                0 <= i0 < n && #[trigger] pre.remainder_upto(s, e, n)[i] == pre.ranges@[i0]@,
    decreases n,
{
    if n > 0 {
        lemma_remainder_subseq(pre, s, e, n - 1);
        let prev = pre.remainder_upto(s, e, n - 1);
        let curv = pre.remainder_upto(s, e, n);
        if !range_view_overlaps(pre.ranges@[n - 1]@, s, e) {
            assert forall|i: int|
                0 <= i < curv.len() implies exists|i0: int|
                0 <= i0 < n && #[trigger] curv[i] == pre.ranges@[i0]@ by {
                if i < prev.len() {
                    let i0 = choose|i0: int| 0 <= i0 < n - 1 && #[trigger] prev[i]
                        == pre.ranges@[i0]@;
                    assert(curv[i] == prev[i]);
                    assert(curv[i] == pre.ranges@[i0]@);
                } else {
                    assert(curv[i] == pre.ranges@[n - 1]@);
                }
            }
            assert forall|i: int, j: int|
                #![trigger curv[i], curv[j]]
                0 <= i < j < curv.len() implies exists|i0: int, j0: int|
                #![trigger pre.ranges@[i0], pre.ranges@[j0]]
                0 <= i0 < j0 < pre.ranges@.len() && curv[i] == pre.ranges@[i0]@ && curv[j]
                    == pre.ranges@[j0]@ by {
                if j < prev.len() {
                    assert(curv[i] == prev[i] && curv[j] == prev[j]);
                    let (i0, j0) = choose|i0: int, j0: int|
                        #![trigger pre.ranges@[i0], pre.ranges@[j0]]
                        0 <= i0 < j0 < pre.ranges@.len() && prev[i] == pre.ranges@[i0]@ && prev[j]
                            == pre.ranges@[j0]@;
                    assert(curv[i] == pre.ranges@[i0]@ && curv[j] == pre.ranges@[j0]@);
                } else {
                    assert(curv[j] == pre.ranges@[n - 1]@);
                    assert(curv[i] == prev[i]);
                    let i0 = choose|i0: int| 0 <= i0 < n - 1 && #[trigger] prev[i]
                        == pre.ranges@[i0]@;
                    assert(curv[i] == pre.ranges@[i0]@ && curv[j] == pre.ranges@[n - 1]@);
                }
            }
        } else {
            assert(curv == prev);
            assert forall|i: int|
                0 <= i < curv.len() implies exists|i0: int|
                0 <= i0 < n && #[trigger] curv[i] == pre.ranges@[i0]@ by {
                let i0 = choose|i0: int| 0 <= i0 < n - 1 && #[trigger] prev[i]
                    == pre.ranges@[i0]@;
                assert(curv[i] == pre.ranges@[i0]@);
            }
            assert forall|i: int, j: int|
                #![trigger curv[i], curv[j]]
                0 <= i < j < curv.len() implies exists|i0: int, j0: int|
                #![trigger pre.ranges@[i0], pre.ranges@[j0]]
                0 <= i0 < j0 < pre.ranges@.len() && curv[i] == pre.ranges@[i0]@ && curv[j]
                    == pre.ranges@[j0]@ by {
                let (i0, j0) = choose|i0: int, j0: int|
                    #![trigger pre.ranges@[i0], pre.ranges@[j0]]
                    0 <= i0 < j0 < pre.ranges@.len() && prev[i] == pre.ranges@[i0]@ && prev[j]
                        == pre.ranges@[j0]@;
                assert(curv[i] == pre.ranges@[i0]@ && curv[j] == pre.ranges@[j0]@);
            }
        }
    }
}

/// Removing one entry keeps the map ordered and disjoint.
proof fn lemma_wf_remove(pre: PendingDeleteRanges, i: int, post: PendingDeleteRanges)
    requires
        pre.wf(),
        0 <= i < pre.ranges@.len(),
        post.ranges@ == pre.ranges@.remove(i),
    ensures
        post.wf(),
{
    assert forall|a: int, b: int|
        #![trigger post.ranges@[a], post.ranges@[b]]
        0 <= a < b < post.ranges@.len() implies lex_le(
        post.ranges@[a].start_key@,
        post.ranges@[b].start_key@,
    ) && !ranges_overlap(
        post.ranges@[a].start_key@,
        post.ranges@[a].end_key@,
        post.ranges@[b].start_key@,
        post.ranges@[b].end_key@,
    ) by {
        let a0: int = if a < i {
            a
        } else {
            a + 1
        };
        let b0: int = if b < i {
            b
        } else {
            b + 1
        };
        assert(post.ranges@[a] == pre.ranges@[a0]);
        assert(post.ranges@[b] == pre.ranges@[b0]);
    }
    assert forall|a: int|
        0 <= a < post.ranges@.len() implies lex_lt(
        (#[trigger] post.ranges@[a]).start_key@,
        post.ranges@[a].end_key@,
    ) by {
        let a0: int = if a < i {
            a
        } else {
            a + 1
        };
        assert(post.ranges@[a] == pre.ranges@[a0]);
    }
}

/// Inserting a non-overlapping entry at its ordered position keeps the
/// map ordered and disjoint.
proof fn lemma_wf_insert(
    pre: PendingDeleteRanges,
    i: int,
    ev: (u64, Seq<u8>, Seq<u8>, u64),
    post: PendingDeleteRanges,
)
    requires
        pre.wf(),
        0 <= i <= pre.ranges@.len(),
        post.ranges@.len() == pre.ranges@.len() + 1,
        post.ranges@[i]@ == ev,
        forall|j: int| 0 <= j < i ==> post.ranges@[j] == pre.ranges@[j],
        forall|j: int| i < j < post.ranges@.len() ==> post.ranges@[j] == pre.ranges@[j - 1],
        forall|j: int|
            0 <= j < pre.ranges@.len() ==> !ranges_overlap(
                #[trigger] pre.ranges@[j].start_key@,
                pre.ranges@[j].end_key@,
                ev.1,
                ev.2,
            ),
        forall|j: int| 0 <= j < i ==> lex_le(#[trigger] pre.ranges@[j].start_key@, ev.1),
        i < pre.ranges@.len() ==> !lex_le(pre.ranges@[i].start_key@, ev.1),
        lex_lt(ev.1, ev.2),
    ensures
        post.wf(),
{
    assert forall|a: int, b: int|
        #![trigger post.ranges@[a], post.ranges@[b]]
        0 <= a < b < post.ranges@.len() implies lex_le(
        post.ranges@[a].start_key@,
        post.ranges@[b].start_key@,
    ) && !ranges_overlap(
        post.ranges@[a].start_key@,
        post.ranges@[a].end_key@,
        post.ranges@[b].start_key@,
        post.ranges@[b].end_key@,
    ) by {
        if a == i {
            // the new entry against a later one
            let b0 = b - 1;
            assert(post.ranges@[b] == pre.ranges@[b0]);
            assert(!ranges_overlap(pre.ranges@[b0].start_key@, pre.ranges@[b0].end_key@, ev.1, ev.2));
            assert(i <= b0 < pre.ranges@.len());
            crate::byteorder::lemma_lex_lt_total(pre.ranges@[i].start_key@, ev.1);
            assert(lex_lt(ev.1, pre.ranges@[i].start_key@));
            if b0 > i {
                assert(lex_le(pre.ranges@[i].start_key@, pre.ranges@[b0].start_key@));
                crate::byteorder::lemma_lex_lt_le_trans(
                    ev.1,
                    pre.ranges@[i].start_key@,
                    pre.ranges@[b0].start_key@,
                );
            }
            assert(lex_le(ev.1, pre.ranges@[b0].start_key@));
            assert(post.ranges@[a].start_key@ == ev.1 && post.ranges@[a].end_key@ == ev.2);
        } else if b == i {
            let a0 = a;
            assert(post.ranges@[a] == pre.ranges@[a0]);
            assert(lex_le(pre.ranges@[a0].start_key@, ev.1));
            assert(!ranges_overlap(pre.ranges@[a0].start_key@, pre.ranges@[a0].end_key@, ev.1, ev.2));
        } else {
            let a0: int = if a < i {
                a
            } else {
                a - 1
            };
            let b0: int = if b < i {
                b
            } else {
                b - 1
            };
            assert(post.ranges@[a] == pre.ranges@[a0]);
            assert(post.ranges@[b] == pre.ranges@[b0]);
        }
    }
    assert forall|a: int|
        0 <= a < post.ranges@.len() implies lex_lt(
        (#[trigger] post.ranges@[a]).start_key@,
        post.ranges@[a].end_key@,
    ) by {
        if a == i {
            assert(post.ranges@[a]@ == ev);
        } else {
            let a0: int = if a < i {
                a
            } else {
                a - 1
            };
            assert(post.ranges@[a] == pre.ranges@[a0]);
        }
    }
}

/// The worker's own state: configuration, the queue of delayed applies,
/// and the pending-delete map it exclusively owns.
pub struct Runner {
    pub batch_size: usize,
    pub use_delete_range: bool,
    pub ingest_copy_symlink: bool,
    pub clean_stale_tick: usize,
    pub clean_stale_ranges_tick: usize,
    pub pending_applies: Vec<Task>,
    pub pending_delete_ranges: PendingDeleteRanges,
}

impl Runner {
    pub open spec fn wf(self) -> bool {
        self.pending_delete_ranges.wf()
    }

    pub fn new(
        batch_size: usize,
        use_delete_range: bool,
        ingest_copy_symlink: bool,
        clean_stale_ranges_tick: usize,
    ) -> (r: Runner)
        ensures
            r.wf(),
            r.batch_size == batch_size,
            r.use_delete_range == use_delete_range,
            r.ingest_copy_symlink == ingest_copy_symlink,
            r.clean_stale_tick == 0,
            r.clean_stale_ranges_tick == clean_stale_ranges_tick,
            r.pending_applies@.len() == 0,
            r.pending_delete_ranges.ranges@.len() == 0,
    {
        Runner {
            batch_size,
            use_delete_range,
            ingest_copy_symlink,
            clean_stale_tick: 0,
            clean_stale_ranges_tick,
            pending_applies: Vec::new(),
            pending_delete_ranges: PendingDeleteRanges::new(),
        }
    }

    /// Queues an apply task; applies run in arrival order.
    pub fn push_pending_apply(&mut self, task: Task)
        ensures
            final(self).pending_applies@ == old(self).pending_applies@.push(task),
            final(self).pending_delete_ranges == old(self).pending_delete_ranges,
            final(self).clean_stale_tick == old(self).clean_stale_tick,
            final(self).use_delete_range == old(self).use_delete_range,
    {
        self.pending_applies.push(task);
    }

    /// Hands out the next apply in arrival order, unless the engine
    /// signals write stall or refuses the apply: then everything stays
    /// queued for the next tick.
    pub fn next_pending_apply(&mut self, stalled: bool, can_apply: bool) -> (r: Option<Task>)
        ensures
            final(self).pending_delete_ranges == old(self).pending_delete_ranges,
            final(self).clean_stale_tick == old(self).clean_stale_tick,
            final(self).use_delete_range == old(self).use_delete_range,
            match r {
                Some(_) => !stalled && can_apply && old(self).pending_applies@.len() > 0
                    && final(self).pending_applies@ == old(self).pending_applies@.skip(1) && r
                    == Some(old(self).pending_applies@[0]),
                None => (stalled || !can_apply || old(self).pending_applies@.len() == 0) && final(self).pending_applies@ == old(self).pending_applies@,
            },
    {
        if stalled || !can_apply || self.pending_applies.len() == 0 {
            proof {
                assert(final(self).pending_applies@ == old(self).pending_applies@);
            }
            None
        } else {
            let t = self.pending_applies.remove(0);
            proof {
                assert(self.pending_applies@ =~= old(self).pending_applies@.skip(1));
            }
            Some(t)
        }
    }

    /// One worker tick: counts toward the stale-range sweep and says
    /// whether this tick runs it.
    pub fn on_timeout_tick(&mut self) -> (r: bool)
        requires
            old(self).clean_stale_tick < usize::MAX,
        ensures
            r == (old(self).clean_stale_tick + 1 >= old(self).clean_stale_ranges_tick),
            r ==> final(self).clean_stale_tick == 0,
            !r ==> final(self).clean_stale_tick == old(self).clean_stale_tick + 1,
            final(self).pending_applies@ == old(self).pending_applies@,
            final(self).pending_delete_ranges == old(self).pending_delete_ranges,
            final(self).clean_stale_ranges_tick == old(self).clean_stale_ranges_tick,
            final(self).use_delete_range == old(self).use_delete_range,
    {
        self.clean_stale_tick += 1;
        if self.clean_stale_tick >= self.clean_stale_ranges_tick {
            self.clean_stale_tick = 0;
            true
        } else {
            false
        }
    }

    /// Drains every pending range overlapping `[start_key, end_key)` and
    /// widens the bounds to their union's hull. The drained entries whose
    /// recorded sequence is below the engine's oldest live snapshot come
    /// back as ranges to delete at the file level right away.
    pub fn clean_overlap_ranges_roughly(
        &mut self,
        start_key: Vec<u8>,
        end_key: Vec<u8>,
        oldest_sequence: u64,
    ) -> (r: (Vec<u8>, Vec<u8>, Vec<(u64, Vec<u8>, Vec<u8>)>))
        requires
            old(self).wf(),
        ensures
            final(self).wf(),
            final(self).pending_applies@ == old(self).pending_applies@,
            final(self).clean_stale_tick == old(self).clean_stale_tick,
            final(self).use_delete_range == old(self).use_delete_range,
            final(self).pending_delete_ranges.ranges@.map_values(|p: PendingRange| p@) == old(self).pending_delete_ranges.remainder_view(start_key@, end_key@),
            hull_post(
                old(self).pending_delete_ranges.overlaps_view(start_key@, end_key@),
                start_key@,
                end_key@,
                r.0@,
                r.1@,
            ),
            r.2@.map_values(|t: (u64, Vec<u8>, Vec<u8>)| (t.0, t.1@, t.2@)) == stale_of(
                old(self).pending_delete_ranges.overlaps_view(start_key@, end_key@),
                oldest_sequence,
                old(self).pending_delete_ranges.overlaps_view(start_key@, end_key@).len() as int,
            ),
    {
        let ghost pre = self.pending_delete_ranges;
        let drained = self.pending_delete_ranges.drain_overlap_ranges(
            start_key.as_slice(),
            end_key.as_slice(),
        );
        let ghost dview = pre.overlaps_view(start_key@, end_key@);
        let mut s = start_key;
        let mut e = end_key;
        let mut df: Vec<(u64, Vec<u8>, Vec<u8>)> = Vec::new();
        let mut i: usize = 0;
        while i < drained.len()
            invariant
                i <= drained@.len(),
                drained@.map_values(|p: PendingRange| p@) == dview,
                hull_post(dview.take(i as int), start_key@, end_key@, s@, e@),
                df@.map_values(|t: (u64, Vec<u8>, Vec<u8>)| (t.0, t.1@, t.2@)) == stale_of(
                    dview,
                    oldest_sequence,
                    i as int,
                ),
            decreases drained@.len() - i,
        {
            let ghost ssnap = s@;
            let ghost esnap = e@;
            let ghost dfsnap = df@;
            let p = &drained[i];
            proof {
                assert(drained@.map_values(|q: PendingRange| q@)[i as int] == dview[i as int]);
            }
            if bytes_lt(p.start_key.as_slice(), s.as_slice()) {
                s = vstd::slice::slice_to_vec(p.start_key.as_slice());
            }
            if bytes_lt(e.as_slice(), p.end_key.as_slice()) {
                e = vstd::slice::slice_to_vec(p.end_key.as_slice());
            }
            if p.stale_sequence < oldest_sequence {
                df.push(
                    (
                        p.region_id,
                        vstd::slice::slice_to_vec(p.start_key.as_slice()),
                        vstd::slice::slice_to_vec(p.end_key.as_slice()),
                    ),
                );
                proof {
                    assert(df@.map_values(|t: (u64, Vec<u8>, Vec<u8>)| (t.0, t.1@, t.2@))
                        =~= dfsnap.map_values(|t: (u64, Vec<u8>, Vec<u8>)| (t.0, t.1@, t.2@)).push(
                        (dview[i as int].0, dview[i as int].1, dview[i as int].2),
                    ));
                }
            }
            i += 1;
            proof {
                assert(dview.take(i as int) =~= dview.take(i as int - 1).push(
                    dview[i as int - 1],
                ));
                lemma_hull_step(
                    dview.take(i as int - 1),
                    dview[i as int - 1],
                    start_key@,
                    end_key@,
                    ssnap,
                    esnap,
                    s@,
                    e@,
                );
            }
        }
        proof {
            assert(dview.take(dview.len() as int) =~= dview);
        }
        (s, e, df)
    }
}

impl Runner {
    /// Registers a destroyed range for delayed deletion: every pending
    /// range overlapping it is drained, the union's hull re-enters the
    /// map stamped with the engine's latest sequence, and the drained
    /// entries already safe to delete come back for an immediate
    /// file-level delete.
    pub fn insert_pending_delete_range(
        &mut self,
        region_id: u64,
        start_key: Vec<u8>,
        end_key: Vec<u8>,
        latest_sequence: u64,
        oldest_sequence: u64,
    ) -> (r: (Vec<(u64, Vec<u8>, Vec<u8>)>, usize))
        requires
            old(self).wf(),
            lex_lt(start_key@, end_key@),
        ensures
            final(self).wf(),
            final(self).pending_applies@ == old(self).pending_applies@,
            final(self).clean_stale_tick == old(self).clean_stale_tick,
            final(self).use_delete_range == old(self).use_delete_range,
            r.0@.map_values(|t: (u64, Vec<u8>, Vec<u8>)| (t.0, t.1@, t.2@)) == stale_of(
                old(self).pending_delete_ranges.overlaps_view(start_key@, end_key@),
                oldest_sequence,
                old(self).pending_delete_ranges.overlaps_view(start_key@, end_key@).len() as int,
            ),
            final(self).pending_delete_ranges.ranges@.len() == old(
                self,
            ).pending_delete_ranges.remainder_view(start_key@, end_key@).len() + 1,
            r.1 < final(self).pending_delete_ranges.ranges@.len(),
            hull_post(
                old(self).pending_delete_ranges.overlaps_view(start_key@, end_key@),
                start_key@,
                end_key@,
                final(self).pending_delete_ranges.ranges@[r.1 as int].start_key@,
                final(self).pending_delete_ranges.ranges@[r.1 as int].end_key@,
            ),
            inserted_at(
                old(self).pending_delete_ranges.remainder_view(start_key@, end_key@),
                final(self).pending_delete_ranges.ranges@.map_values(|p: PendingRange| p@),
                r.1 as int,
                (
                    region_id,
                    final(self).pending_delete_ranges.ranges@[r.1 as int].start_key@,
                    final(self).pending_delete_ranges.ranges@[r.1 as int].end_key@,
                    latest_sequence,
                ),
            ),
    {
        let ghost pre = self.pending_delete_ranges;
        let ghost s0 = start_key@;
        let ghost e0 = end_key@;
        let (hs, he, df) = self.clean_overlap_ranges_roughly(start_key, end_key, oldest_sequence);
        proof {
            let dview = pre.overlaps_view(s0, e0);
            let rview = pre.remainder_view(s0, e0);
            lemma_remainder_subseq(pre, s0, e0, pre.ranges@.len() as int);
            lemma_overlaps_facts(pre, s0, e0, pre.ranges@.len() as int);
            lemma_remainder_facts(pre, s0, e0, pre.ranges@.len() as int);
            assert forall|k: int|
                0 <= k < self.pending_delete_ranges.ranges@.len() implies !ranges_overlap(
                (#[trigger] self.pending_delete_ranges.ranges@[k]).start_key@,
                self.pending_delete_ranges.ranges@[k].end_key@,
                hs@,
                he@,
            ) by {
                let f = |p: PendingRange| p@;
                assert(self.pending_delete_ranges.ranges@.map_values(f)[k] == rview[k]);
                let rv = rview[k];
                lemma_no_hull_overlap(pre, s0, e0, hs@, he@, rv, k);
                assert(rv == self.pending_delete_ranges.ranges@[k]@);
            }
            crate::byteorder::lemma_lex_le_trans(hs@, s0, e0);
            crate::byteorder::lemma_lex_le_lt_trans(hs@, s0, e0);
            crate::byteorder::lemma_lex_lt_le_trans(hs@, e0, he@);
        }
        let ghost hsv = hs@;
        let ghost hev = he@;
        let ghost midp = self.pending_delete_ranges;
        let pos = self.pending_delete_ranges.insert(region_id, hs, he, latest_sequence);
        proof {
            let rem = pre.remainder_view(s0, e0);
            let midmap = midp.ranges@.map_values(|p: PendingRange| p@);
            let newmap = self.pending_delete_ranges.ranges@.map_values(|p: PendingRange| p@);
            assert(midmap == rem);
            let i = pos as int;
            assert(0 <= i <= rem.len());
            assert(inserted_at(rem, newmap, i, (region_id, hsv, hev, latest_sequence)));
            assert(newmap[i] == (region_id, hsv, hev, latest_sequence));
            assert(self.pending_delete_ranges.ranges@[i]@ == (region_id, hsv, hev, latest_sequence));
            assert(self.pending_delete_ranges.ranges@[i].start_key@ == hsv);
            assert(self.pending_delete_ranges.ranges@[i].end_key@ == hev);
            assert(hull_post(pre.overlaps_view(s0, e0), s0, e0, hsv, hev));
        }
        (df, pos)
    }

    /// The stale entries this sweep will clean: the first
    /// `CLEANUP_MAX_REGION_COUNT` ranges (in key order) that no live
    /// engine snapshot can still see. An offlined store or a pending
    /// write stall defers the whole sweep. The caller deletes the ranges
    /// and then removes each entry, retrying any failure next sweep.
    pub fn plan_stale_cleanup(&self, oldest_sequence: u64, stalled: bool, offlined: bool) -> (r:
        Vec<(u64, Vec<u8>, Vec<u8>)>)
        ensures
            (stalled || offlined) ==> r@.len() == 0,
            (!stalled && !offlined) ==> r@.map_values(|t: (u64, Vec<u8>, Vec<u8>)| (t.0, t.1@, t.2@))
                == self.pending_delete_ranges.stale_view(oldest_sequence).take(
                min_int(
                    CLEANUP_MAX_REGION_COUNT as int,
                    self.pending_delete_ranges.stale_view(oldest_sequence).len() as int,
                ),
            ),
    {
        if stalled || offlined {
            return Vec::new();
        }
        let mut r = self.pending_delete_ranges.stale_ranges(oldest_sequence);
        let ghost full = r@.map_values(|t: (u64, Vec<u8>, Vec<u8>)| (t.0, t.1@, t.2@));
        if r.len() > CLEANUP_MAX_REGION_COUNT {
            r.truncate(CLEANUP_MAX_REGION_COUNT);
            proof {
                assert(r@.map_values(|t: (u64, Vec<u8>, Vec<u8>)| (t.0, t.1@, t.2@)) =~= full.take(
                    CLEANUP_MAX_REGION_COUNT as int,
                ));
            }
        } else {
            proof {
                assert(r@.map_values(|t: (u64, Vec<u8>, Vec<u8>)| (t.0, t.1@, t.2@)) =~= full.take(
                    full.len() as int,
                ));
            }
        }
        r
    }
}

pub open spec fn min_int(a: int, b: int) -> int {
    if a <= b {
        a
    } else {
        b
    }
}

/// Every drained entry comes from the map and overlaps the drained
/// window.
proof fn lemma_overlaps_facts(pre: PendingDeleteRanges, s: Seq<u8>, e: Seq<u8>, n: int)
    requires
        0 <= n <= pre.ranges@.len(),
    ensures
        forall|k: int|
            0 <= k < pre.overlaps_upto(s, e, n).len() ==> range_view_overlaps(
                #[trigger] pre.overlaps_upto(s, e, n)[k],
                s,
                e,
            ) && exists|j0: int|
                0 <= j0 < n && pre.overlaps_upto(s, e, n)[k] == #[trigger] pre.ranges@[j0]@,
    decreases n,
{
    if n > 0 {
        lemma_overlaps_facts(pre, s, e, n - 1);
        let prev = pre.overlaps_upto(s, e, n - 1);
        let curv = pre.overlaps_upto(s, e, n);
        assert forall|k: int|
            0 <= k < curv.len() implies range_view_overlaps(#[trigger] curv[k], s, e) && exists|
            j0: int,
        | 0 <= j0 < n && curv[k] == #[trigger] pre.ranges@[j0]@ by {
            if k < prev.len() {
                assert(curv[k] == prev[k]);
                let j0 = choose|j0: int|
                    0 <= j0 < n - 1 && prev[k] == #[trigger] pre.ranges@[j0]@;
                assert(curv[k] == pre.ranges@[j0]@);
            } else {
                assert(curv[k] == pre.ranges@[n - 1]@);
            }
        }
    }
}

/// Every kept entry avoids the drained window.
proof fn lemma_remainder_facts(pre: PendingDeleteRanges, s: Seq<u8>, e: Seq<u8>, n: int)
    requires
        0 <= n <= pre.ranges@.len(),
    ensures
        forall|k: int|
            0 <= k < pre.remainder_upto(s, e, n).len() ==> !range_view_overlaps(
                #[trigger] pre.remainder_upto(s, e, n)[k],
                s,
                e,
            ),
    decreases n,
{
    if n > 0 {
        lemma_remainder_facts(pre, s, e, n - 1);
        let prev = pre.remainder_upto(s, e, n - 1);
        let curv = pre.remainder_upto(s, e, n);
        assert forall|k: int|
            0 <= k < curv.len() implies !range_view_overlaps(#[trigger] curv[k], s, e) by {
            if k < prev.len() {
                assert(curv[k] == prev[k]);
            } else {
                assert(!range_view_overlaps(pre.ranges@[n - 1]@, s, e));
                assert(curv[k] == pre.ranges@[n - 1]@);
            }
        }
    }
}

/// A kept entry cannot overlap the union hull either: overlapping the
/// widened part would mean overlapping one of the drained entries, which
/// the map's disjointness rules out.
proof fn lemma_no_hull_overlap(
    pre: PendingDeleteRanges,
    s0: Seq<u8>,
    e0: Seq<u8>,
    hs: Seq<u8>,
    he: Seq<u8>,
    rv: (u64, Seq<u8>, Seq<u8>, u64),
    k: int,
)
    requires
        pre.wf(),
        lex_lt(s0, e0),
        hull_post(pre.overlaps_view(s0, e0), s0, e0, hs, he),
        0 <= k < pre.remainder_view(s0, e0).len(),
        rv == pre.remainder_view(s0, e0)[k],
        forall|i: int|
            0 <= i < pre.remainder_view(s0, e0).len() ==> exists|i0: int|
                0 <= i0 < pre.ranges@.len() && #[trigger] pre.remainder_view(s0, e0)[i]
                    == pre.ranges@[i0]@,
        forall|i: int|
            0 <= i < pre.remainder_view(s0, e0).len() ==> !range_view_overlaps(
                #[trigger] pre.remainder_view(s0, e0)[i],
                s0,
                e0,
            ),
        forall|i: int|
            0 <= i < pre.overlaps_view(s0, e0).len() ==> range_view_overlaps(
                #[trigger] pre.overlaps_view(s0, e0)[i],
                s0,
                e0,
            ) && exists|j0: int|
                0 <= j0 < pre.ranges@.len() && pre.overlaps_view(s0, e0)[i]
                    == #[trigger] pre.ranges@[j0]@,
    ensures
        !ranges_overlap(rv.1, rv.2, hs, he),
{
    if ranges_overlap(rv.1, rv.2, hs, he) {
        let i0 = choose|i0: int|
            0 <= i0 < pre.ranges@.len() && #[trigger] pre.remainder_view(s0, e0)[k]
                == pre.ranges@[i0]@;
        assert(rv == pre.ranges@[i0]@);
        assert(lex_lt(rv.1, rv.2)) by {
            assert(pre.ranges@[i0]@.1 == pre.ranges@[i0].start_key@);
        }
        assert(!range_view_overlaps(rv, s0, e0));
        crate::byteorder::lemma_lex_lt_total(rv.1, e0);
        crate::byteorder::lemma_lex_lt_total(s0, rv.2);
        if lex_le(rv.2, s0) {
            // the entry ends before the window, so the hull must have
            // grown leftward past it through some drained entry
            assert(lex_lt(hs, rv.2));
            crate::byteorder::lemma_lex_lt_le_trans(hs, rv.2, s0);
            crate::byteorder::lemma_lex_lt_irreflexive(s0);
            assert(hs != s0);
            let j = choose|j: int|
                0 <= j < pre.overlaps_view(s0, e0).len() && (#[trigger] pre.overlaps_view(
                    s0,
                    e0,
                )[j]).1 == hs;
            let d = pre.overlaps_view(s0, e0)[j];
            let j0 = choose|j0: int|
                0 <= j0 < pre.ranges@.len() && pre.overlaps_view(s0, e0)[j]
                    == #[trigger] pre.ranges@[j0]@;
            assert(d == pre.ranges@[j0]@);
            assert(range_view_overlaps(d, s0, e0));
            assert(lex_lt(s0, d.2));
            assert(ranges_overlap(rv.1, rv.2, d.1, d.2)) by {
                crate::byteorder::lemma_lex_lt_le_trans(rv.1, rv.2, s0);
                crate::byteorder::lemma_lex_lt_transitive(rv.1, s0, d.2);
            }
            assert(i0 != j0) by {
                if i0 == j0 {
                    assert(range_view_overlaps(rv, s0, e0));
                }
            }
            lemma_overlap_free(pre, i0, j0);
            assert(false);
        } else {
            assert(lex_le(e0, rv.1));
            assert(lex_lt(rv.1, he));
            crate::byteorder::lemma_lex_le_lt_trans(e0, rv.1, he);
            crate::byteorder::lemma_lex_lt_irreflexive(e0);
            assert(he != e0);
            let j = choose|j: int|
                0 <= j < pre.overlaps_view(s0, e0).len() && (#[trigger] pre.overlaps_view(
                    s0,
                    e0,
                )[j]).2 == he;
            let d = pre.overlaps_view(s0, e0)[j];
            let j0 = choose|j0: int|
                0 <= j0 < pre.ranges@.len() && pre.overlaps_view(s0, e0)[j]
                    == #[trigger] pre.ranges@[j0]@;
            assert(d == pre.ranges@[j0]@);
            assert(range_view_overlaps(d, s0, e0));
            assert(lex_lt(d.1, e0));
            assert(ranges_overlap(rv.1, rv.2, d.1, d.2)) by {
                crate::byteorder::lemma_lex_lt_le_trans(d.1, e0, rv.1);
                crate::byteorder::lemma_lex_lt_transitive(d.1, rv.1, rv.2);
            }
            assert(i0 != j0) by {
                if i0 == j0 {
                    assert(range_view_overlaps(rv, s0, e0));
                }
            }
            lemma_overlap_free(pre, i0, j0);
            assert(false);
        }
    }
}

/// `[hs, he)` is the hull of `[s0, e0)` and the drained ranges: it
/// covers them all, and each bound is either the original or one of
/// theirs.
pub open spec fn hull_post(
    drained: Seq<(u64, Seq<u8>, Seq<u8>, u64)>,
    s0: Seq<u8>,
    e0: Seq<u8>,
    hs: Seq<u8>,
    he: Seq<u8>,
) -> bool {
    &&& lex_le(hs, s0)
    &&& lex_le(e0, he)
    &&& (hs == s0 || exists|j: int| 0 <= j < drained.len() && (#[trigger] drained[j]).1 == hs)
    &&& (he == e0 || exists|j: int| 0 <= j < drained.len() && (#[trigger] drained[j]).2 == he)
    &&& forall|j: int|
        #![trigger drained[j]]
        0 <= j < drained.len() ==> lex_le(hs, drained[j].1) && lex_le(drained[j].2, he)
}

/// The stale prefix of a drained list: the entries an immediate
/// file-level delete may cover.
pub open spec fn stale_of(
    drained: Seq<(u64, Seq<u8>, Seq<u8>, u64)>,
    oldest: u64,
    n: int,
) -> Seq<(u64, Seq<u8>, Seq<u8>)>
    decreases n,
{
    if n <= 0 {
        Seq::empty()
    } else if drained[n - 1].3 < oldest {
        stale_of(drained, oldest, n - 1).push((drained[n - 1].0, drained[n - 1].1, drained[n - 1].2))
    } else {
        stale_of(drained, oldest, n - 1)
    }
}

/// Folding one more drained range into the hull keeps the hull
/// properties.
proof fn lemma_hull_step(
    taken: Seq<(u64, Seq<u8>, Seq<u8>, u64)>,
    d: (u64, Seq<u8>, Seq<u8>, u64),
    s0: Seq<u8>,
    e0: Seq<u8>,
    hs: Seq<u8>,
    he: Seq<u8>,
    hs2: Seq<u8>,
    he2: Seq<u8>,
)
    requires
        hull_post(taken, s0, e0, hs, he),
        hs2 == if lex_lt(d.1, hs) {
            d.1
        } else {
            hs
        },
        he2 == if lex_lt(he, d.2) {
            d.2
        } else {
            he
        },
    ensures
        hull_post(taken.push(d), s0, e0, hs2, he2),
{
    let all = taken.push(d);
    if lex_lt(d.1, hs) {
        crate::byteorder::lemma_lex_lt_le_trans(d.1, hs, s0);
        assert(all[all.len() - 1].1 == hs2);
    }
    if lex_lt(he, d.2) {
        crate::byteorder::lemma_lex_le_lt_trans(e0, he, d.2);
        assert(all[all.len() - 1].2 == he2);
    }
    assert forall|j: int|
        0 <= j < all.len() implies lex_le(hs2, #[trigger] all[j].1) && lex_le(all[j].2, he2) by {
        if j < taken.len() {
            assert(all[j] == taken[j]);
            assert(lex_le(hs, taken[j].1) && lex_le(taken[j].2, he));
            if lex_lt(d.1, hs) {
                crate::byteorder::lemma_lex_lt_le_trans(d.1, hs, taken[j].1);
            }
            if lex_lt(he, d.2) {
                crate::byteorder::lemma_lex_le_lt_trans(taken[j].2, he, d.2);
            }
        } else {
            assert(all[j] == d);
            if !lex_lt(d.1, hs) {
                crate::byteorder::lemma_lex_lt_total(d.1, hs);
            }
            if !lex_lt(he, d.2) {
                crate::byteorder::lemma_lex_lt_total(he, d.2);
            }
        }
    }
    assert(lex_le(hs2, s0)) by {
        if lex_lt(d.1, hs) {
            crate::byteorder::lemma_lex_lt_le_trans(d.1, hs, s0);
        }
    }
    assert(lex_le(e0, he2)) by {
        if lex_lt(he, d.2) {
            crate::byteorder::lemma_lex_le_lt_trans(e0, he, d.2);
        }
    }
    if !lex_lt(d.1, hs) && hs != s0 {
        let j = choose|j: int| 0 <= j < taken.len() && (#[trigger] taken[j]).1 == hs;
        assert(all[j] == taken[j]);
        assert((all[j]).1 == hs2);
    }
    if !lex_lt(he, d.2) && he != e0 {
        let j = choose|j: int| 0 <= j < taken.len() && (#[trigger] taken[j]).2 == he;
        assert(all[j] == taken[j]);
        assert((all[j]).2 == he2);
    }
}

/// Which strategy physically removes a range from one column family:
/// the lock family is always deleted key by key, elsewhere range
/// tombstones when configured, direct key deletion when forced, and
/// ingestion of a deletion file otherwise.
pub fn delete_strategy_for_cf(cf: CfName, use_delete_range: bool, forcely_by_key: bool) -> (r:
    DeleteStrategy)
    ensures
        cf == CfName::Lock ==> r == DeleteStrategy::DeleteByKey,
        cf != CfName::Lock && use_delete_range ==> r == DeleteStrategy::DeleteByRange,
        cf != CfName::Lock && !use_delete_range && forcely_by_key ==> r
            == DeleteStrategy::DeleteByKey,
        cf != CfName::Lock && !use_delete_range && !forcely_by_key ==> r
            == DeleteStrategy::DeleteByWriter,
{
    if matches!(cf, CfName::Lock) {
        DeleteStrategy::DeleteByKey
    } else if use_delete_range {
        DeleteStrategy::DeleteByRange
    } else if forcely_by_key {
        DeleteStrategy::DeleteByKey
    } else {
        DeleteStrategy::DeleteByWriter
    }
}

/// Whether ingesting now could stall writes: true when any non-plain
/// snapshot column family (all but the lock family) reports a level-zero
/// slowdown.
pub fn ingest_maybe_stall(slowdown_default: bool, slowdown_write: bool) -> (r: bool)
    ensures
        r == (slowdown_default || slowdown_write),
{
    slowdown_default || slowdown_write
}

/// The pre-apply phase's decision: a job already cancelling aborts
/// before any work, and an apply whose snapshot file is absent on disk
/// fails with the missing-file error; otherwise the heavy ingest may
/// proceed. The observer hook that failure still notifies is the
/// caller's side effect.
pub fn pre_apply_check(status: JobStatus, snapshot_file_exists: bool) -> (r: Result<(), SnapError>)
    ensures
        status == JobStatus::Cancelling ==> r == Result::<(), SnapError>::Err(SnapError::Abort),
        status != JobStatus::Cancelling && !snapshot_file_exists ==> r == Result::<
            (),
            SnapError,
        >::Err(SnapError::MissingSnapshotFile),
        status != JobStatus::Cancelling && snapshot_file_exists ==> r == Result::<
            (),
            SnapError,
        >::Ok(()),
{
    if matches!(status, JobStatus::Cancelling) {
        Err(SnapError::Abort)
    } else if !snapshot_file_exists {
        Err(SnapError::MissingSnapshotFile)
    } else {
        Ok(())
    }
}

/// The cooperative cancellation check of an apply job: only a job whose
/// shared status was moved to `Cancelling` aborts.
pub fn check_abort(status: JobStatus) -> (r: Result<(), SnapError>)
    ensures
        status == JobStatus::Cancelling ==> r == Result::<(), SnapError>::Err(SnapError::Abort),
        status != JobStatus::Cancelling ==> r == Result::<(), SnapError>::Ok(()),
{
    if matches!(status, JobStatus::Cancelling) {
        Err(SnapError::Abort)
    } else {
        Ok(())
    }
}

/// How an apply job concludes: success finishes it; a cooperative abort
/// cancels it without tombstoning the peer; any other failure fails it
/// and tombstones the peer.
pub fn conclude_apply(outcome: Result<(), SnapError>, prior: JobStatus) -> (r: (JobStatus, bool))
    requires
        outcome == Result::<(), SnapError>::Err(SnapError::Abort) ==> prior
            == JobStatus::Cancelling,
    ensures
        outcome is Ok ==> r == (JobStatus::Finished, false),
        outcome == Result::<(), SnapError>::Err(SnapError::Abort) ==> r == (
            JobStatus::Cancelled,
            false,
        ),
        outcome is Err && outcome != Result::<(), SnapError>::Err(SnapError::Abort) ==> r == (
            JobStatus::Failed,
            true,
        ),
{
    match outcome {
        Ok(_) => (JobStatus::Finished, false),
        Err(SnapError::Abort) => (JobStatus::Cancelled, false),
        Err(_) => (JobStatus::Failed, true),
    }
}

} // verus!
