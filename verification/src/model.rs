//! The mathematical model of MVCC visibility.
//!
//! A column family's contents are a map from decoded internal keys to
//! values. A record is visible to a snapshot when its sequence number is
//! at most the snapshot's sequence number; what a read returns for a user
//! key is decided by that key's newest visible record: its value if it is
//! a live value, nothing if it is a tombstone or if no record is visible.

use vstd::prelude::*;

use crate::MAX_SEQUENCE_NUMBER;
use crate::byteorder::{lex_le, lex_lt};
use crate::codec::{TAG_DELETION, TAG_VALUE};
use crate::store::{IKeyModel, ikey_le, ikey_lt, lemma_ikey_lt_irreflexive, lemma_ikey_lt_total,
    lemma_ikey_lt_transitive};

verus! {

/// The contents of one column family, in the abstract.
pub type CfModel = Map<IKeyModel, Seq<u8>>;

/// Every stored record carries a sequence that fits the codec and one of
/// the two known tags; a tombstone stores no bytes.
pub open spec fn wf_contents(m: CfModel) -> bool {
    &&& m.dom().finite()
    &&& forall|k: IKeyModel| #[trigger]
        m.dom().contains(k) ==> k.1 <= MAX_SEQUENCE_NUMBER && (k.2 == TAG_DELETION || k.2
            == TAG_VALUE)
}

/// The sequence number of a record with inverted sequence `rev`.
pub open spec fn seq_num_of(rev: u64) -> int {
    MAX_SEQUENCE_NUMBER - rev
}

/// A record is visible to a snapshot at sequence `snap` when its own
/// sequence is at most `snap`.
pub open spec fn entry_visible(snap: u64, rev: u64) -> bool {
    seq_num_of(rev) <= snap
}

/// `(uk, rev, tag)` is the newest record of `uk` visible at `snap`:
/// stored, visible, and first in order among the visible records of `uk`.
pub open spec fn is_newest_visible(m: CfModel, snap: u64, uk: Seq<u8>, rev: u64, tag: u8) -> bool {
    &&& m.dom().contains((uk, rev, tag))
    &&& entry_visible(snap, rev)
    &&& forall|r2: u64, t2: u8|
        m.dom().contains((uk, r2, t2)) && entry_visible(snap, r2) ==> rev < r2 || (rev == r2 && tag
            <= t2)
}

/// Some record of `uk` is visible at `snap`.
pub open spec fn has_visible_entry(m: CfModel, snap: u64, uk: Seq<u8>) -> bool {
    exists|rev: u64, tag: u8| is_newest_visible(m, snap, uk, rev, tag)
}

/// The user key is present for readers at `snap`: its newest visible
/// record is a live value.
pub open spec fn visible_has_value(m: CfModel, snap: u64, uk: Seq<u8>) -> bool {
    exists|rev: u64| is_newest_visible(m, snap, uk, rev, TAG_VALUE)
}

/// What a read of `uk` at `snap` returns: the value of the newest
/// visible record if that record is a live value, nothing otherwise.
pub open spec fn visible_get(m: CfModel, snap: u64, uk: Seq<u8>) -> Option<Seq<u8>> {
    if visible_has_value(m, snap, uk) {
        let rev = choose|rev: u64| is_newest_visible(m, snap, uk, rev, TAG_VALUE);
        Some(m[(uk, rev, TAG_VALUE)])
    } else {
        None
    }
}

/// The newest visible record of a user key is unique.
pub proof fn lemma_newest_visible_unique(
    m: CfModel,
    snap: u64,
    uk: Seq<u8>,
    rev1: u64,
    tag1: u8,
    rev2: u64,
    tag2: u8,
)
    requires
        is_newest_visible(m, snap, uk, rev1, tag1),
        is_newest_visible(m, snap, uk, rev2, tag2),
    ensures
        rev1 == rev2,
        tag1 == tag2,
{
}

/// A witness that is a newest visible value record pins `visible_get`.
pub proof fn lemma_visible_get_value(m: CfModel, snap: u64, uk: Seq<u8>, rev: u64)
    requires
        is_newest_visible(m, snap, uk, rev, TAG_VALUE),
    ensures
        visible_get(m, snap, uk) == Some(m[(uk, rev, TAG_VALUE)]),
{
    let rev2 = choose|r: u64| is_newest_visible(m, snap, uk, r, TAG_VALUE);
    lemma_newest_visible_unique(m, snap, uk, rev, TAG_VALUE, rev2, TAG_VALUE);
}

/// A witness that is a newest visible tombstone makes the key absent.
pub proof fn lemma_visible_get_deletion(m: CfModel, snap: u64, uk: Seq<u8>, rev: u64)
    requires
        is_newest_visible(m, snap, uk, rev, TAG_DELETION),
    ensures
        visible_get(m, snap, uk) is None,
{
    if visible_has_value(m, snap, uk) {
        let rev2 = choose|r: u64| is_newest_visible(m, snap, uk, r, TAG_VALUE);
        lemma_newest_visible_unique(m, snap, uk, rev, TAG_DELETION, rev2, TAG_VALUE);
    }
}

/// With no visible record at all, the key is absent.
pub proof fn lemma_visible_get_none(m: CfModel, snap: u64, uk: Seq<u8>)
    requires
        forall|rev: u64, tag: u8| #[trigger]
            m.dom().contains((uk, rev, tag)) ==> !entry_visible(snap, rev),
    ensures
        visible_get(m, snap, uk) is None,
{
    if visible_has_value(m, snap, uk) {
        let rev = choose|r: u64| is_newest_visible(m, snap, uk, r, TAG_VALUE);
        assert(m.dom().contains((uk, rev, TAG_VALUE)));
    }
}

/// The stored entries strictly after a cursor position.
pub open spec fn keys_above(m: CfModel, c: IKeyModel) -> Set<IKeyModel> {
    m.dom().filter(|k: IKeyModel| ikey_lt(c, k))
}

/// The stored entries strictly before a cursor position.
pub open spec fn keys_below(m: CfModel, c: IKeyModel) -> Set<IKeyModel> {
    m.dom().filter(|k: IKeyModel| ikey_lt(k, c))
}

pub proof fn lemma_keys_above_finite(m: CfModel, c: IKeyModel)
    requires
        m.dom().finite(),
    ensures
        keys_above(m, c).finite(),
        keys_above(m, c).len() <= m.dom().len(),
{
    m.dom().lemma_len_filter(|k: IKeyModel| ikey_lt(c, k));
}

pub proof fn lemma_keys_below_finite(m: CfModel, c: IKeyModel)
    requires
        m.dom().finite(),
    ensures
        keys_below(m, c).finite(),
        keys_below(m, c).len() <= m.dom().len(),
{
    m.dom().lemma_len_filter(|k: IKeyModel| ikey_lt(k, c));
}

/// Stepping the cursor forward to a stored entry strictly shrinks the
/// set of entries still ahead of it.
pub proof fn lemma_keys_above_shrinks(m: CfModel, c: IKeyModel, c2: IKeyModel)
    requires
        m.dom().finite(),
        m.dom().contains(c2),
        ikey_lt(c, c2),
    ensures
        keys_above(m, c2).len() < keys_above(m, c).len(),
{
    lemma_keys_above_finite(m, c);
    lemma_keys_above_finite(m, c2);
    assert forall|k: IKeyModel| keys_above(m, c2).contains(k) implies keys_above(m, c).contains(k)
        && k != c2 by {
        lemma_ikey_lt_transitive(c, c2, k);
        lemma_ikey_lt_irreflexive(c2);
    }
    assert(keys_above(m, c).contains(c2));
    keys_above(m, c2).lemma_subset_not_in_lt(keys_above(m, c), c2);
}

/// Stepping the cursor backward to a stored entry strictly shrinks the
/// set of entries still behind it.
pub proof fn lemma_keys_below_shrinks(m: CfModel, c: IKeyModel, c2: IKeyModel)
    requires
        m.dom().finite(),
        m.dom().contains(c2),
        ikey_lt(c2, c),
    ensures
        keys_below(m, c2).len() < keys_below(m, c).len(),
{
    lemma_keys_below_finite(m, c);
    lemma_keys_below_finite(m, c2);
    assert forall|k: IKeyModel| keys_below(m, c2).contains(k) implies keys_below(m, c).contains(k)
        && k != c2 by {
        lemma_ikey_lt_transitive(k, c2, c);
        lemma_ikey_lt_irreflexive(c2);
    }
    assert(keys_below(m, c).contains(c2));
    keys_below(m, c2).lemma_subset_not_in_lt(keys_below(m, c), c2);
}

/// One write delivered to a column family: a value or a tombstone for a
/// user key at a sequence number.
pub enum WriteOp {
    Put { user_key: Seq<u8>, seq_num: u64, value: Seq<u8> },
    Delete { user_key: Seq<u8>, seq_num: u64 },
}

impl WriteOp {
    pub open spec fn user_key(self) -> Seq<u8> {
        match self {
            WriteOp::Put { user_key, .. } => user_key,
            WriteOp::Delete { user_key, .. } => user_key,
        }
    }

    pub open spec fn seq_num(self) -> u64 {
        match self {
            WriteOp::Put { seq_num, .. } => seq_num,
            WriteOp::Delete { seq_num, .. } => seq_num,
        }
    }

    pub open spec fn record_key(self) -> IKeyModel {
        match self {
            WriteOp::Put { user_key, seq_num, .. } => (
                user_key,
                crate::codec::rev_of_seq(seq_num),
                TAG_VALUE,
            ),
            WriteOp::Delete { user_key, seq_num } => (
                user_key,
                crate::codec::rev_of_seq(seq_num),
                TAG_DELETION,
            ),
        }
    }

    pub open spec fn record_value(self) -> Seq<u8> {
        match self {
            WriteOp::Put { value, .. } => value,
            WriteOp::Delete { .. } => Seq::empty(),
        }
    }
}

/// The contents a sequence of writes builds up.
pub open spec fn apply_writes(ws: Seq<WriteOp>) -> CfModel
    decreases ws.len(),
{
    if ws.len() == 0 {
        Map::empty()
    } else {
        apply_writes(ws.drop_last()).insert(ws.last().record_key(), ws.last().record_value())
    }
}

/// Writes are admissible when each sequence number fits the codec and no
/// two writes share a user key and sequence number.
pub open spec fn writes_wf(ws: Seq<WriteOp>) -> bool {
    &&& forall|j: int| 0 <= j < ws.len() ==> (#[trigger] ws[j]).seq_num() <= MAX_SEQUENCE_NUMBER
    &&& forall|j1: int, j2: int|
        #![trigger ws[j1], ws[j2]]
        0 <= j1 < j2 < ws.len() ==> !(ws[j1].user_key() == ws[j2].user_key() && ws[j1].seq_num()
            == ws[j2].seq_num())
}

/// What a sequence of writes stores: exactly one record per write.
proof fn lemma_apply_writes_records(ws: Seq<WriteOp>, e: IKeyModel)
    requires
        writes_wf(ws),
    ensures
        apply_writes(ws).dom().contains(e) <==> exists|j: int|
            0 <= j < ws.len() && (#[trigger] ws[j]).record_key() == e,
        apply_writes(ws).dom().contains(e) ==> forall|j: int|
            0 <= j < ws.len() && (#[trigger] ws[j]).record_key() == e ==> apply_writes(ws)[e]
                == ws[j].record_value(),
    decreases ws.len(),
{
    if ws.len() > 0 {
        assert(writes_wf(ws.drop_last())) by {
            assert(forall|j: int|
                0 <= j < ws.drop_last().len() ==> ws.drop_last()[j] == ws[j]);
        }
        lemma_apply_writes_records(ws.drop_last(), e);
        let last = ws.last();
        if apply_writes(ws).dom().contains(e) {
            if e == last.record_key() {
                assert(ws[ws.len() - 1].record_key() == e);
                assert forall|j: int|
                    0 <= j < ws.len() && (#[trigger] ws[j]).record_key() == e implies apply_writes(
                    ws,
                )[e] == ws[j].record_value() by {
                    if j < ws.len() - 1 {
                        // an earlier write with the same record key would
                        // repeat the user key and sequence number
                        assert(ws[j].user_key() == e.0 && last.user_key() == e.0);
                        lemma_same_record_same_seq(ws[j], last);
                        assert(false);
                    }
                }
            } else {
                assert(apply_writes(ws.drop_last()).dom().contains(e));
                let j0 = choose|j: int|
                    0 <= j < ws.drop_last().len() && (#[trigger] ws.drop_last()[j]).record_key()
                        == e;
                assert(ws[j0].record_key() == e);
                assert forall|j: int|
                    0 <= j < ws.len() && (#[trigger] ws[j]).record_key() == e implies apply_writes(
                    ws,
                )[e] == ws[j].record_value() by {
                    assert(j < ws.len() - 1);
                    assert(ws.drop_last()[j] == ws[j]);
                }
            }
        } else {
            if exists|j: int| 0 <= j < ws.len() && (#[trigger] ws[j]).record_key() == e {
                let j = choose|j: int| 0 <= j < ws.len() && (#[trigger] ws[j]).record_key() == e;
                if j == ws.len() - 1 {
                    assert(apply_writes(ws).dom().contains(e));
                } else {
                    assert(ws.drop_last()[j] == ws[j]);
                    assert(apply_writes(ws.drop_last()).dom().contains(e));
                    assert(apply_writes(ws).dom().contains(e));
                }
            }
        }
    }
}

/// Two writes on one user key with the same record key share the
/// sequence number.
proof fn lemma_same_record_same_seq(w1: WriteOp, w2: WriteOp)
    requires
        w1.seq_num() <= MAX_SEQUENCE_NUMBER,
        w2.seq_num() <= MAX_SEQUENCE_NUMBER,
        w1.record_key() == w2.record_key(),
    ensures
        w1.user_key() == w2.user_key(),
        w1.seq_num() == w2.seq_num(),
{
}

/// MVCC visibility over a history of writes: a read of `k` at `snap`
/// returns the value of the highest-sequence visible put on `k`, unless
/// a visible delete on `k` carries a sequence at least as high; with no
/// visible put at all it returns nothing.
pub proof fn lemma_mvcc_visibility(ws: Seq<WriteOp>, snap: u64, k: Seq<u8>, i: int)
    requires
        writes_wf(ws),
        0 <= i < ws.len(),
        ws[i] matches WriteOp::Put { user_key, seq_num, .. } && user_key == k && seq_num <= snap,
        forall|j: int|
            0 <= j < ws.len() && (#[trigger] ws[j]).user_key() == k && ws[j].seq_num() <= snap
                ==> (ws[j] is Put ==> ws[j].seq_num() <= ws[i].seq_num()) && (ws[j] is Delete
                ==> ws[j].seq_num() < ws[i].seq_num()),
    ensures
        visible_get(apply_writes(ws), snap, k) == Some(ws[i].record_value()),
{
    let m = apply_writes(ws);
    let rk = ws[i].record_key();
    lemma_apply_writes_records(ws, rk);
    assert(ws[i].record_key() == rk);
    assert(m.dom().contains(rk));
    assert(is_newest_visible(m, snap, k, rk.1, TAG_VALUE)) by {
        assert(entry_visible(snap, rk.1));
        assert forall|r2: u64, t2: u8|
            m.dom().contains((k, r2, t2)) && entry_visible(snap, r2) implies rk.1 < r2 || (rk.1
            == r2 && TAG_VALUE <= t2) by {
            let e2: IKeyModel = (k, r2, t2);
            lemma_apply_writes_records(ws, e2);
            let j = choose|j: int| 0 <= j < ws.len() && (#[trigger] ws[j]).record_key() == e2;
            assert(ws[j].user_key() == k);
            assert(ws[j].seq_num() <= MAX_SEQUENCE_NUMBER);
            assert(r2 == crate::codec::rev_of_seq(ws[j].seq_num()));
            assert(ws[j].seq_num() <= snap);
            if ws[j] is Put {
                assert(ws[j].seq_num() <= ws[i].seq_num());
                if ws[j].seq_num() == ws[i].seq_num() {
                    if j != i {
                        lemma_writes_distinct(ws, j, i);
                    }
                } else {
                    assert(rk.1 < r2);
                }
            } else {
                assert(ws[j].seq_num() < ws[i].seq_num());
                assert(rk.1 < r2);
            }
        }
    }
    lemma_visible_get_value(m, snap, k, rk.1);
    assert(m[(k, rk.1, TAG_VALUE)] == ws[i].record_value()) by {
        lemma_apply_writes_records(ws, rk);
    }
}

proof fn lemma_writes_distinct(ws: Seq<WriteOp>, j1: int, j2: int)
    requires
        writes_wf(ws),
        0 <= j1 < ws.len(),
        0 <= j2 < ws.len(),
        j1 != j2,
    ensures
        !(ws[j1].user_key() == ws[j2].user_key() && ws[j1].seq_num() == ws[j2].seq_num()),
{
    if j1 < j2 {
    } else {
        assert(!(ws[j2].user_key() == ws[j1].user_key() && ws[j2].seq_num() == ws[j1].seq_num()));
    }
}

/// The complement of MVCC visibility: with no visible put on `k` that a
/// visible delete does not cover, a read of `k` returns nothing.
pub proof fn lemma_mvcc_visibility_none(ws: Seq<WriteOp>, snap: u64, k: Seq<u8>)
    requires
        writes_wf(ws),
        forall|i: int|
            0 <= i < ws.len() && (#[trigger] ws[i]) is Put && ws[i].user_key() == k
                && ws[i].seq_num() <= snap ==> exists|j: int|
                0 <= j < ws.len() && (#[trigger] ws[j]) is Delete && ws[j].user_key() == k
                    && ws[j].seq_num() <= snap && ws[j].seq_num() >= ws[i].seq_num(),
    ensures
        visible_get(apply_writes(ws), snap, k) is None,
{
    let m = apply_writes(ws);
    if visible_has_value(m, snap, k) {
        let rv = choose|rv: u64| is_newest_visible(m, snap, k, rv, TAG_VALUE);
        let e: IKeyModel = (k, rv, TAG_VALUE);
        lemma_apply_writes_records(ws, e);
        let i = choose|i: int| 0 <= i < ws.len() && (#[trigger] ws[i]).record_key() == e;
        assert(ws[i] is Put && ws[i].user_key() == k);
        assert(ws[i].seq_num() <= snap) by {
            assert(entry_visible(snap, rv));
            assert(rv == crate::codec::rev_of_seq(ws[i].seq_num()));
            assert(ws[i].seq_num() <= MAX_SEQUENCE_NUMBER);
        }
        let j = choose|j: int|
            0 <= j < ws.len() && (#[trigger] ws[j]) is Delete && ws[j].user_key() == k
                && ws[j].seq_num() <= snap && ws[j].seq_num() >= ws[i].seq_num();
        let ed = ws[j].record_key();
        lemma_apply_writes_records(ws, ed);
        assert(ws[j].record_key() == ed);
        assert(m.dom().contains(ed));
        assert(entry_visible(snap, ed.1)) by {
            assert(ws[j].seq_num() <= MAX_SEQUENCE_NUMBER);
        }
        // the newest visible value record must sort at or before the
        // delete, yet the delete's sequence is at least as high
        assert(rv < ed.1 || (rv == ed.1 && TAG_VALUE <= TAG_DELETION)) by {
            assert(is_newest_visible(m, snap, k, rv, TAG_VALUE));
            assert(m.dom().contains((k, ed.1, TAG_DELETION)));
        }
        assert(ws[j].seq_num() >= ws[i].seq_num());
        assert(false);
    }
}

} // verus!
